use vstd::prelude::*;

verus! {

/// The outcomes other than success that the queue operations report.
#[derive(Debug, Clone, Copy, PartialEq, Eq, Structural)]
pub enum QueueError {
    /// The operation named a queue that does not exist and creation was not requested.
    QueueNotFound,
    /// A pop found no pending message.
    QueueEmpty,
    /// A durable log segment could not be opened or read back.
    StorageOpen,
    /// A durable log segment could not be written.
    StorageWrite,
    /// An envelope or record could not be encoded.
    Serialization,
}

} // verus!
