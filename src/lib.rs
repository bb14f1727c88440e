//! A small message broker core: named FIFO queues that are persisted to a
//! per-queue durable log, mirrored in memory for status reporting, and fanned
//! out to live subscribers.

pub mod envelope;
pub mod error;
pub mod keys;
pub mod laws;
pub mod persistence;
pub mod queue;
pub mod subscriber;
