use restmq::envelope::{frame, QueueMessageEnvelope};
use restmq::error::QueueError;
use restmq::keys::{decode_key, encode_key};
use restmq::persistence::{read_records, PersistenceManager};
use restmq::queue::QueueManager;

fn fresh_root() -> String {
    format!("/tmp/restmq-tests/{}", uuid::Uuid::new_v4())
}

fn fresh_engine() -> QueueManager {
    QueueManager::new(fresh_root(), Vec::new()).unwrap()
}

#[test]
fn pops_come_back_in_push_order() {
    let mut engine = fresh_engine();
    let mut pushed = Vec::new();
    for body in ["first", "second", "third"] {
        pushed.push(engine.push_message("q".to_string(), body.to_string(), true).unwrap());
    }
    for expected in &pushed {
        assert_eq!(&engine.queue_retrieve("q".to_string()).unwrap(), expected);
    }
    assert_eq!(engine.queue_retrieve("q".to_string()), Err(QueueError::QueueEmpty));
}

#[test]
fn push_without_create_to_missing_queue_is_refused() {
    let mut engine = fresh_engine();
    let r = engine.push_message("missing".to_string(), "hello".to_string(), false);
    assert_eq!(r, Err(QueueError::QueueNotFound));
    assert!(engine.status().is_empty());
    assert_eq!(engine.queue_status(), "[]");
}

#[test]
fn push_with_create_lists_queue_with_one_pending() {
    let mut engine = fresh_engine();
    engine.push_message("jobs".to_string(), "x".to_string(), true).unwrap();
    let rows = engine.status();
    assert_eq!(rows.len(), 1);
    assert_eq!(rows[0].name, "jobs");
    assert_eq!(rows[0].pending, 1);
    assert_eq!(rows[0].subscribers, 0);
    assert_eq!(engine.queue_status(), "[[\"jobs\",1,0]]");
}

#[test]
fn pop_from_unknown_queue_is_not_found() {
    let mut engine = fresh_engine();
    assert_eq!(engine.queue_retrieve("nope".to_string()), Err(QueueError::QueueNotFound));
}

#[test]
fn pushed_envelope_carries_the_body() {
    let mut engine = fresh_engine();
    let text = engine.push_message("q".to_string(), "say \"hi\"".to_string(), true).unwrap();
    assert!(text.starts_with("{\"id\":\""));
    assert!(text.contains(",\"body\":\"say \\\"hi\\\"\",\"created_at\":\""));
    assert!(text.ends_with("\"}"));
}

#[test]
fn subscriber_before_push_receives_framed_envelope() {
    let mut engine = fresh_engine();
    let mut early = engine.append_subscriber("news".to_string()).unwrap();
    let text = engine.push_message("news".to_string(), "m1".to_string(), true).unwrap();
    let mut late = engine.append_subscriber("news".to_string()).unwrap();
    let got = early.0.try_recv().unwrap();
    assert_eq!(got, format!("{}\n\n", text).into_bytes());
    assert!(late.0.try_recv().is_err());
    assert_eq!(engine.status()[0].subscribers, 2);
}

#[test]
fn closed_subscriber_is_pruned_on_next_broadcast() {
    let mut engine = fresh_engine();
    let mut live = engine.append_subscriber("feed".to_string()).unwrap();
    let dead = engine.append_subscriber("feed".to_string()).unwrap();
    assert_eq!(engine.status()[0].subscribers, 2);
    drop(dead);
    let text = engine.push_message("feed".to_string(), "after".to_string(), true).unwrap();
    assert_eq!(live.0.try_recv().unwrap(), format!("{}\n\n", text).into_bytes());
    assert_eq!(engine.status()[0].subscribers, 1);
    assert_eq!(engine.queue_status(), "[[\"feed\",1,1]]");
}

#[test]
fn broadcast_outcomes_follow_subscriber_order() {
    let mut engine = fresh_engine();
    let a = engine.append_subscriber("t".to_string()).unwrap();
    let b = engine.append_subscriber("t".to_string()).unwrap();
    drop(a);
    let ok = engine.push_envelope("t".to_string(), "payload".to_string(), false).unwrap();
    assert_eq!(ok, vec![false, true]);
    drop(b);
}

#[test]
fn restart_rediscovers_queues_and_messages() {
    let root = fresh_root();
    let (one, two) = {
        let mut engine = QueueManager::new(root.clone(), Vec::new()).unwrap();
        let one = engine.push_message("kept".to_string(), "one".to_string(), true).unwrap();
        let two = engine.push_message("kept".to_string(), "two".to_string(), true).unwrap();
        engine.push_message("other".to_string(), "x".to_string(), true).unwrap();
        engine.queue_retrieve("other".to_string()).unwrap();
        (one, two)
    };
    let mut engine =
        QueueManager::new(root, vec!["kept".to_string(), "other".to_string()]).unwrap();
    let rows = engine.status();
    assert_eq!(rows.len(), 2);
    assert_eq!(rows[0].name, "kept");
    assert_eq!(rows[0].pending, 2);
    assert_eq!(rows[1].name, "other");
    assert_eq!(rows[1].pending, 0);
    assert_eq!(engine.queue_retrieve("kept".to_string()).unwrap(), one);
    assert_eq!(engine.queue_retrieve("kept".to_string()).unwrap(), two);
    assert_eq!(engine.queue_retrieve("kept".to_string()), Err(QueueError::QueueEmpty));
}

#[test]
fn duplicate_names_at_startup_open_once() {
    let engine = QueueManager::new(fresh_root(), vec!["a".to_string(), "a".to_string()]).unwrap();
    assert_eq!(engine.status().len(), 1);
}

#[test]
fn separate_queues_keep_separate_order() {
    let mut engine = fresh_engine();
    let a1 = engine.push_message("a".to_string(), "a1".to_string(), true).unwrap();
    let b1 = engine.push_message("b".to_string(), "b1".to_string(), true).unwrap();
    let a2 = engine.push_message("a".to_string(), "a2".to_string(), true).unwrap();
    assert_eq!(engine.queue_retrieve("b".to_string()).unwrap(), b1);
    assert_eq!(engine.queue_retrieve("a".to_string()).unwrap(), a1);
    assert_eq!(engine.queue_retrieve("a".to_string()).unwrap(), a2);
    assert_eq!(engine.queue_status(), "[[\"a\",0,0],[\"b\",0,0]]");
}

#[test]
fn envelope_json_has_exact_shape() {
    let e = QueueMessageEnvelope {
        id: 0x0123_4567_89ab_cdef_0011_2233_4455_6677,
        body: "line\nbreak".to_string(),
        created_at: "2024-01-02T03:04:05.123+01:00".to_string(),
    };
    assert_eq!(
        e.to_json(),
        "{\"id\":\"01234567-89ab-cdef-0011-223344556677\",\"body\":\"line\\nbreak\",\"created_at\":\"2024-01-02T03:04:05.123+01:00\"}"
    );
}

#[test]
fn new_envelope_keeps_body_and_sets_version_four_id() {
    let e = QueueMessageEnvelope::new("b".to_string());
    assert_eq!(e.body, "b");
    assert_eq!((e.id >> 76) & 0xf, 4);
    assert!(!e.created_at.is_empty());
}

#[test]
fn frame_adds_blank_line() {
    assert_eq!(frame(&"ab".to_string()), b"ab\n\n".to_vec());
    assert_eq!(frame(&String::new()), b"\n\n".to_vec());
}

#[test]
fn record_keys_are_big_endian() {
    assert_eq!(encode_key(0x0102_0304_0506_0708), vec![1, 2, 3, 4, 5, 6, 7, 8]);
    assert_eq!(encode_key(0), vec![0; 8]);
    assert_eq!(decode_key(&[1, 2, 3, 4, 5, 6, 7, 8]), Some(0x0102_0304_0506_0708));
    assert_eq!(decode_key(&[0xff; 8]), Some(u64::MAX));
    assert_eq!(decode_key(&[1, 2, 3]), None);
}

#[test]
fn durable_log_is_oldest_first() {
    let mut log = PersistenceManager::new(fresh_root());
    let kv = log.push_item("q".to_string(), "one".to_string()).unwrap();
    assert_eq!(kv.value, "one");
    assert_eq!(kv.old_value, "one");
    assert_eq!(kv.key.len(), 8);
    assert!(kv.timestamp > 0);
    log.push_item("q".to_string(), "two".to_string()).unwrap();
    assert_eq!(log.pop_item("q".to_string()).unwrap(), "one");
    assert_eq!(log.pop_item("q".to_string()).unwrap(), "two");
    assert_eq!(log.pop_item("q".to_string()), Err(QueueError::QueueEmpty));
}

#[test]
fn durable_log_opens_segments_idempotently() {
    let mut log = PersistenceManager::new(fresh_root());
    assert_eq!(log.load_or_create_database("s".to_string()), Ok(true));
    assert!(log.contains(&"s".to_string()));
    assert_eq!(log.load_or_create_database("s".to_string()), Ok(true));
    assert_eq!(log.setup(vec!["s".to_string(), "t".to_string()]), Ok(()));
    assert!(log.contains(&"t".to_string()));
}

#[test]
fn unopenable_segment_is_a_storage_open_error() {
    let r = QueueManager::new("/dev/null/restmq".to_string(), vec!["q".to_string()]);
    assert_eq!(r.err(), Some(QueueError::StorageOpen));
}

#[test]
fn engine_without_queues_reports_empty_status() {
    let engine = QueueManager::new(fresh_root(), Vec::new()).unwrap();
    assert_eq!(engine.queue_status(), "[]");
}

#[test]
fn status_text_joins_rows() {
    let rows = vec![
        restmq::queue::QueueStatus { name: "a\"b".to_string(), pending: 10, subscribers: 0 },
        restmq::queue::QueueStatus { name: "c".to_string(), pending: 0, subscribers: 3 },
    ];
    assert_eq!(restmq::queue::status_text(&rows), "[[\"a\\\"b\",10,0],[\"c\",0,3]]");
    assert_eq!(restmq::queue::status_text(&Vec::new()), "[]");
}

#[test]
fn read_records_accepts_increasing_well_formed_entries() {
    let one = bincode::serialize("one").unwrap();
    let two = bincode::serialize("two").unwrap();
    let good = vec![(encode_key(3), one.clone()), (encode_key(9), two.clone())];
    let (ids, texts) = read_records(&good).unwrap();
    assert_eq!(ids.into_iter().collect::<Vec<u64>>(), vec![3, 9]);
    assert_eq!(texts, vec!["one".to_string(), "two".to_string()]);
    let out_of_order = vec![(encode_key(9), one.clone()), (encode_key(3), two.clone())];
    assert_eq!(read_records(&out_of_order).err(), Some(QueueError::StorageOpen));
    let short_key = vec![(vec![1u8, 2], one.clone())];
    assert_eq!(read_records(&short_key).err(), Some(QueueError::StorageOpen));
    let bad_value = vec![(encode_key(1), vec![200u8])];
    assert_eq!(read_records(&bad_value).err(), Some(QueueError::StorageOpen));
    assert!(read_records(&Vec::new()).unwrap().1.is_empty());
}

#[test]
fn durable_keys_increase_across_pushes_and_pops() {
    let mut log = PersistenceManager::new(fresh_root());
    let k1 = log.push_item("q".to_string(), "a".to_string()).unwrap().key;
    log.pop_item("q".to_string()).unwrap();
    let k2 = log.push_item("q".to_string(), "b".to_string()).unwrap().key;
    assert!(decode_key(&k2).unwrap() > decode_key(&k1).unwrap());
}

#[test]
fn quoted_escapes_control_characters() {
    let text = "a\u{1}\t\"\\/\u{1f}é";
    assert_eq!(restmq::envelope::quoted(text), "\"a\\u0001\\t\\\"\\\\/\\u001fé\"");
}

#[test]
fn every_open_subscriber_receives_each_push_in_order() {
    let mut engine = fresh_engine();
    let mut a = engine.append_subscriber("s".to_string()).unwrap();
    let mut b = engine.append_subscriber("s".to_string()).unwrap();
    let t1 = engine.push_message("s".to_string(), "one".to_string(), true).unwrap();
    let t2 = engine.push_message("s".to_string(), "two".to_string(), true).unwrap();
    for ch in [&mut a, &mut b] {
        assert_eq!(ch.0.try_recv().unwrap(), format!("{}\n\n", t1).into_bytes());
        assert_eq!(ch.0.try_recv().unwrap(), format!("{}\n\n", t2).into_bytes());
        assert!(ch.0.try_recv().is_err());
    }
    assert_eq!(engine.status()[0].subscribers, 2);
}

#[test]
fn status_text_matches_serde_json_rows() {
    let rows = vec![restmq::queue::QueueStatus { name: "x\ty".to_string(), pending: 1234, subscribers: 5 }];
    let expected = serde_json::to_string(&vec![("x\ty".to_string(), 1234usize, 5usize)]).unwrap();
    assert_eq!(restmq::queue::status_text(&rows), expected);
    assert_eq!(expected, "[[\"x\\ty\",1234,5]]");
}
