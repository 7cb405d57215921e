use vstd::prelude::*;

verus! {

/// The kind of a packet, which decides how it is handled.
#[derive(PartialEq, Eq, Structural, Clone, Copy, Debug)]
pub enum MsgType {
    /// JSON text.
    Text,
    /// A stream of messages pushed by the server.
    Subscription,
    /// A one-off script or function call.
    Script,
    /// Chunked file transfer.
    Stream,
}

/// One packet on the socket.
#[derive(Debug)]
pub struct WSPayload {
    pub msg_version: String,
    pub app_id: String,
    pub msg_type: MsgType,
    pub msg_id: String,
    pub chunk: u8,
    pub body: String,
}

/// The server's answer to a packet.
#[derive(Debug)]
pub struct WSPayloadResponse {
    pub code: u8,
    pub msg: String,
    pub data: WSPayload,
}

/// The body of an answer, with the request echoed back in debug mode.
#[derive(Debug)]
pub struct WSPayloadResponseBody {
    pub request_pay_load: String,
    pub body: String,
}

impl WSPayload {
    /// An empty text packet.
    pub fn new() -> (r: WSPayload)
        ensures
            r.app_id@ == Seq::<char>::empty(),
            r.msg_type == MsgType::Text,
            r.msg_id@ == Seq::<char>::empty(),
            r.msg_version@ == Seq::<char>::empty(),
            r.chunk == 0,
            r.body@ == Seq::<char>::empty(),
    {
        WSPayload {
            app_id: String::new(),
            msg_type: MsgType::Text,
            msg_id: String::new(),
            msg_version: String::new(),
            chunk: 0,
            body: String::new(),
        }
    }
}

} // verus!
