use websocket_ipc::request_payload::{BusinessData, Header, Metadata, RequestData};
use websocket_ipc::store::{MessageStore, ReassemblyError};
use websocket_ipc::task_type::TaskType;

fn header(app: &str, task: &str) -> Header {
    Header {
        app_id: app.to_string(),
        msg_id: task.to_string(),
        session_id: "s1".to_string(),
        version: 1,
    }
}

fn metadata(index: u32, total: u32, length: u32) -> Metadata {
    Metadata {
        name: "file.txt".to_string(),
        stream_type: "text".to_string(),
        stream_length: length,
        chunk_total: total,
        chunk_index: index,
    }
}

fn key(s: &str) -> String {
    s.to_string()
}

#[test]
fn hello_in_three_chunks() {
    let mut store = MessageStore::new();
    let business = BusinessData { task_type: TaskType::Script, task_params: "{}".to_string() };
    let r0 = store.process_frame(header("a1", "t1"), metadata(0, 2, 5), Some(business), b"He", 0);
    assert!(matches!(r0, Ok(None)));
    assert_eq!(store.len(), 1);
    let r1 = store.process_frame(header("a1", "t1"), metadata(1, 2, 5), None, b"ll", 0);
    assert!(matches!(r1, Ok(None)));
    assert_eq!(store.buffered_len(&key("a1"), &key("t1")), 4);
    let r2 = store.process_frame(header("a1", "t1"), metadata(2, 2, 5), None, b"o", 0);
    let done = r2.unwrap().unwrap();
    assert_eq!(done.payload, b"Hello".to_vec());
    assert_eq!(done.header.app_id, "a1");
    assert_eq!(done.business_data.unwrap().task_type, TaskType::Script);
    assert_eq!(store.len(), 0);
    assert!(!store.contains(&key("a1"), &key("t1")));
}

#[test]
fn single_frame_message_completes_at_once() {
    let mut store = MessageStore::new();
    let r = store.process_frame(header("a", "t"), metadata(0, 0, 3), None, b"abc", 0);
    assert_eq!(r.unwrap().unwrap().payload, b"abc".to_vec());
    assert_eq!(store.len(), 0);
}

#[test]
fn same_task_under_two_apps_stays_apart() {
    let mut store = MessageStore::new();
    assert!(store.process_frame(header("a1", "t"), metadata(0, 1, 4), None, b"ab", 0).unwrap().is_none());
    assert!(store.process_frame(header("a2", "t"), metadata(0, 1, 4), None, b"XY", 0).unwrap().is_none());
    assert_eq!(store.len(), 2);
    let one = store.process_frame(header("a1", "t"), metadata(1, 1, 4), None, b"cd", 0);
    assert_eq!(one.unwrap().unwrap().payload, b"abcd".to_vec());
    assert!(store.contains(&key("a2"), &key("t")));
    let two = store.process_frame(header("a2", "t"), metadata(1, 1, 4), None, b"ZW", 0);
    assert_eq!(two.unwrap().unwrap().payload, b"XYZW".to_vec());
    assert_eq!(store.len(), 0);
}

#[test]
fn key_starts_fresh_after_completion() {
    let mut store = MessageStore::new();
    let first = store.process_frame(header("a", "t"), metadata(0, 0, 2), None, b"ab", 0);
    assert_eq!(first.unwrap().unwrap().payload, b"ab".to_vec());
    assert!(store.process_frame(header("a", "t"), metadata(0, 1, 3), None, b"x", 0).unwrap().is_none());
    assert_eq!(store.buffered_len(&key("a"), &key("t")), 1);
    let second = store.process_frame(header("a", "t"), metadata(1, 1, 3), None, b"yz", 0);
    assert_eq!(second.unwrap().unwrap().payload, b"xyz".to_vec());
}

#[test]
fn length_mismatch_is_reported_and_entry_removed() {
    let mut store = MessageStore::new();
    assert!(store.process_frame(header("a", "t"), metadata(0, 1, 10), None, b"ab", 0).unwrap().is_none());
    let r = store.process_frame(header("a", "t"), metadata(1, 1, 10), None, b"c", 0);
    assert!(matches!(r, Err(ReassemblyError::ReassemblyLengthMismatch { declared: 10, actual: 3 })));
    assert_eq!(store.len(), 0);
}

#[test]
fn get_or_create_creates_once() {
    let mut store = MessageStore::new();
    assert!(store.get_or_create(&key("a"), &key("t"), 0));
    assert!(!store.get_or_create(&key("a"), &key("t"), 0));
    assert!(!store.get_or_create(&key("a"), &key("t"), 0));
    assert_eq!(store.len(), 1);
    assert!(store.get_or_create(&key("b"), &key("t"), 0));
    assert_eq!(store.len(), 2);
    let rec = store.get(&key("a"), &key("t")).unwrap();
    assert_eq!(rec.stream_len(), 0);
    assert!(rec.business_data().is_none());
}

#[test]
fn remove_evicts_entry() {
    let mut store = MessageStore::new();
    assert!(store.remove(&key("a"), &key("t")).is_none());
    store.get_or_create(&key("a"), &key("t"), 0);
    assert!(store.remove(&key("a"), &key("t")).is_some());
    assert_eq!(store.len(), 0);
    assert!(store.get(&key("a"), &key("t")).is_none());
}

#[test]
fn business_data_kept_and_overwritten() {
    let mut store = MessageStore::new();
    let b1 = BusinessData { task_type: TaskType::Function, task_params: "{\"a\":1}".to_string() };
    store.process_frame(header("a", "t"), metadata(0, 2, 3), Some(b1), b"x", 0).unwrap();
    store.process_frame(header("a", "t"), metadata(1, 2, 3), None, b"y", 0).unwrap();
    assert_eq!(
        store.get(&key("a"), &key("t")).unwrap().business_data().as_ref().unwrap().task_type,
        TaskType::Function
    );
    let b2 = BusinessData { task_type: TaskType::Subscription, task_params: "{}".to_string() };
    let done = store.process_frame(header("a", "t"), metadata(2, 2, 3), Some(b2), b"z", 0).unwrap().unwrap();
    assert_eq!(done.business_data.unwrap().task_type, TaskType::Subscription);
    assert_eq!(done.payload, b"xyz".to_vec());
}

#[test]
fn request_data_append_and_take() {
    let mut rec = RequestData::new();
    assert!(rec.is_complete());
    rec.append(header("a", "t"), metadata(0, 1, 4), None, b"ab");
    assert!(!rec.is_complete());
    assert!(!rec.length_matches());
    rec.append(header("a", "t"), metadata(1, 1, 4), None, b"cd");
    assert!(rec.is_complete());
    assert!(rec.length_matches());
    assert_eq!(rec.metadata().chunk_index, 1);
    assert_eq!(rec.take_stream(), b"abcd".to_vec());
    assert!(rec.is_drained());
    assert_eq!(rec.stream_len(), 0);
}

#[test]
fn parser_and_combine_append_bytes() {
    let mut rec = RequestData::from_parts(header("a", "t"), metadata(0, 2, 0), None);
    let part = RequestData::from_parts(
        header("a", "t2"),
        metadata(1, 2, 0),
        Some(BusinessData { task_type: TaskType::Script, task_params: "p".to_string() }),
    );
    websocket_ipc::request_payload::parser_request_payload(&mut rec, part, b"12");
    assert_eq!(rec.header().msg_id, "t2");
    assert_eq!(rec.metadata().chunk_index, 1);
    assert_eq!(rec.business_data().as_ref().unwrap().task_params, "p");
    websocket_ipc::request_payload::combine_stream(&mut rec, &b"34".to_vec());
    assert_eq!(rec.metadata().chunk_index, 1);
    assert_eq!(rec.take_stream(), b"1234".to_vec());
}

#[test]
fn idle_messages_are_evicted() {
    let mut store = MessageStore::new();
    assert!(store.process_frame(header("a", "old"), metadata(0, 1, 2), None, b"x", 10).unwrap().is_none());
    assert!(store.process_frame(header("a", "new"), metadata(0, 1, 2), None, b"y", 50).unwrap().is_none());
    assert!(store.get_or_create(&key("b"), &key("t"), 20));
    assert!(!store.get_or_create(&key("b"), &key("t"), 45));
    assert_eq!(store.evict_idle(40, 30), 0);
    assert_eq!(store.evict_idle(41, 30), 1);
    assert!(!store.contains(&key("a"), &key("old")));
    assert!(store.contains(&key("a"), &key("new")));
    assert!(store.contains(&key("b"), &key("t")));
    assert_eq!(store.evict_idle(100, 10), 2);
    assert_eq!(store.len(), 0);
}

#[test]
fn eviction_keeps_touched_messages() {
    let mut store = MessageStore::new();
    assert!(store.process_frame(header("a", "t"), metadata(0, 2, 3), None, b"a", 0).unwrap().is_none());
    assert!(store.process_frame(header("a", "t"), metadata(1, 2, 3), None, b"b", 100).unwrap().is_none());
    assert_eq!(store.evict_idle(150, 60), 0);
    let done = store.process_frame(header("a", "t"), metadata(2, 2, 3), None, b"c", 150);
    assert_eq!(done.unwrap().unwrap().payload, b"abc".to_vec());
    assert_eq!(store.evict_idle(u64::MAX, 0), 0);
}
