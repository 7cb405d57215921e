use websocket_ipc::handler_client_message::{MessageAccumulator, MessageChunk};
use websocket_ipc::payload_decoder::{MsgType, WSPayload};
use websocket_ipc::task_type::{
    FunctionPayload, ScriptPayload, SubscriptionPayload, TaskError, TaskPayload, TaskType,
};

fn chunk(app_id: u64, task_id: u64, sequence: u64, data: &str, is_last: bool) -> MessageChunk {
    MessageChunk { app_id, task_id, sequence, data: data.to_string(), is_last }
}

#[test]
fn chunks_join_into_message() {
    let mut acc = MessageAccumulator::new();
    assert_eq!(acc.add_chunk(chunk(1, 1, 1, "Hello ", false)), None);
    assert_eq!(acc.add_chunk(chunk(1, 1, 2, "World", false)), None);
    assert_eq!(acc.add_chunk(chunk(1, 1, 3, "!", true)), Some("Hello World!".to_string()));
    assert_eq!(acc.add_chunk(chunk(1, 1, 4, "again", true)), Some("again".to_string()));
}

#[test]
fn accumulator_keeps_tasks_apart() {
    let mut acc = MessageAccumulator::new();
    assert_eq!(acc.add_chunk(chunk(1, 7, 1, "a", false)), None);
    assert_eq!(acc.add_chunk(chunk(2, 7, 1, "b", false)), None);
    assert_eq!(acc.add_chunk(chunk(1, 8, 1, "c", false)), None);
    assert_eq!(acc.add_chunk(chunk(2, 7, 2, "B", true)), Some("bB".to_string()));
    assert_eq!(acc.add_chunk(chunk(1, 7, 2, "A", true)), Some("aA".to_string()));
    assert_eq!(acc.add_chunk(chunk(1, 8, 2, "C", true)), Some("cC".to_string()));
}

#[test]
fn ws_payload_new_is_empty_text() {
    let p = WSPayload::new();
    assert_eq!(p.app_id, "");
    assert_eq!(p.msg_id, "");
    assert_eq!(p.msg_version, "");
    assert_eq!(p.body, "");
    assert_eq!(p.chunk, 0);
    assert_eq!(p.msg_type, MsgType::Text);
}

#[test]
fn task_type_from_name() {
    assert_eq!(TaskType::from_name("Function"), Ok(TaskType::Function));
    assert_eq!(TaskType::from_name("Script"), Ok(TaskType::Script));
    assert_eq!(TaskType::from_name("Subscription"), Ok(TaskType::Subscription));
    assert_eq!(TaskType::from_name("function"), Err(TaskError::UnknownTaskVariant));
    assert_eq!(TaskType::from_name(""), Err(TaskError::UnknownTaskVariant));
}

#[test]
fn payload_reports_its_type() {
    assert_eq!(TaskPayload::Function(FunctionPayload {}).task_type(), TaskType::Function);
    assert_eq!(TaskPayload::Script(ScriptPayload {}).task_type(), TaskType::Script);
    assert_eq!(
        TaskPayload::Subscription(SubscriptionPayload {}).task_type(),
        TaskType::Subscription
    );
}
