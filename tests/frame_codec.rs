use websocket_ipc::frame::{decode_frame_text, encode_frame, split_frame, FrameError, DELIMITER};
use websocket_ipc::store::MessageStore;

#[test]
fn round_trip_keeps_delimiters_in_payload() {
    let json = br#"{"header":{"app_id":"a"}}"#.to_vec();
    let payload = b"x|y||z".to_vec();
    let frame = encode_frame(&json, &payload);
    assert_eq!(frame.len(), json.len() + 2 + payload.len());
    let parts = split_frame(&frame).unwrap();
    assert_eq!(parts.json, json);
    assert!(parts.middle.is_empty());
    assert_eq!(parts.payload, payload);
}

#[test]
fn split_at_first_two_delimiters() {
    let parts = split_frame(&b"ab|cd|e|f".to_vec()).unwrap();
    assert_eq!(parts.json, b"ab".to_vec());
    assert_eq!(parts.middle, b"cd".to_vec());
    assert_eq!(parts.payload, b"e|f".to_vec());
}

#[test]
fn empty_payload_frame() {
    let parts = split_frame(&b"{}||".to_vec()).unwrap();
    assert_eq!(parts.json, b"{}".to_vec());
    assert!(parts.payload.is_empty());
}

#[test]
fn no_delimiter_is_format_error() {
    let store = MessageStore::new();
    let r = split_frame(&b"{\"a\":1}".to_vec());
    assert!(matches!(r, Err(FrameError::FrameFormatError)));
    assert_eq!(store.len(), 0);
}

#[test]
fn one_delimiter_is_format_error() {
    assert!(matches!(split_frame(&b"abc|def".to_vec()), Err(FrameError::FrameFormatError)));
    assert!(matches!(split_frame(&Vec::new()), Err(FrameError::FrameFormatError)));
}

#[test]
fn decode_reads_json_text() {
    let frame = b"{\"k\":\"v\"}|mid|data".to_vec();
    let d = decode_frame_text(&frame).unwrap();
    assert_eq!(d.json_text, "{\"k\":\"v\"}");
    assert_eq!(d.parts.middle, b"mid".to_vec());
    assert_eq!(d.parts.payload, b"data".to_vec());
    assert_eq!(DELIMITER, b'|');
}

#[test]
fn decode_reads_multibyte_text() {
    let frame = "{\"n\":\"héllo\"}||".as_bytes().to_vec();
    let d = decode_frame_text(&frame).unwrap();
    assert_eq!(d.json_text, "{\"n\":\"héllo\"}");
}

#[test]
fn decode_rejects_invalid_utf8() {
    let frame = vec![0xff, 0xfe, b'|', b'|', 1, 2];
    assert!(matches!(decode_frame_text(&frame), Err(FrameError::PayloadDecodeError)));
    assert!(matches!(decode_frame_text(&b"nodelim".to_vec()), Err(FrameError::FrameFormatError)));
}

fn object(fields: Vec<(&str, serde_json::Value)>) -> serde_json::Value {
    let mut m = serde_json::Map::new();
    for (k, v) in fields {
        m.insert(k.to_string(), v);
    }
    serde_json::Value::Object(m)
}

fn text(s: &str) -> serde_json::Value {
    serde_json::Value::String(s.to_string())
}

#[test]
fn json_fields_survive_a_round_trip() {
    let header = object(vec![
        ("app_id", text("应用-1")),
        ("msg_id", text("m\"1")),
        ("session_id", text("s")),
        ("version", serde_json::Value::from(3u8)),
    ]);
    let metadata = object(vec![
        ("name", text("f.bin")),
        ("stream_type", text("bin")),
        ("stream_length", serde_json::Value::from(5u32)),
        ("chunk_total", serde_json::Value::from(0u32)),
        ("chunk_index", serde_json::Value::from(0u32)),
    ]);
    let value = object(vec![("header", header), ("metadata", metadata)]);
    let json = serde_json::to_vec(&value).unwrap();
    let payload = vec![b'|', 0, 255, b'|', 7];
    let frame = encode_frame(&json, &payload);
    let decoded = decode_frame_text(&frame).unwrap();
    let back: serde_json::Value = serde_json::from_str(&decoded.json_text).unwrap();
    assert_eq!(back, value);
    assert_eq!(decoded.parts.payload, payload);
}
