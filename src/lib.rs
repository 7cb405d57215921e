pub mod frame;
pub mod task_type;
pub mod request_payload;
pub mod store;
pub mod handler_client_message;
pub mod payload_decoder;
