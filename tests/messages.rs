use lsp_transport::frame::{DecodeError, ProtocolError};
use lsp_transport::message::{decode, encode, envelope_of, notification, request, Message, SerializationError};

#[test]
fn notification_body_matches_wire_example() {
    let body = notification("initialized", "{}").unwrap();
    assert_eq!(body, br#"{"jsonrpc":"2.0","method":"initialized","params":{}}"#.to_vec());
    assert_eq!(body.len(), 52);
}

#[test]
fn request_body_carries_id() {
    let body = request(7, "textDocument/hover", "{\"x\":1}").unwrap();
    assert_eq!(body, br#"{"jsonrpc":"2.0","id":7,"method":"textDocument/hover","params":{"x":1}}"#.to_vec());
}

#[test]
fn method_name_is_escaped_by_serde_json() {
    let body = request(1, "a\"b\\c", "null").unwrap();
    assert_eq!(body, br#"{"jsonrpc":"2.0","id":1,"method":"a\"b\\c","params":null}"#.to_vec());
}

#[test]
fn envelope_without_id() {
    let body = envelope_of(None, b"\"m\"", b"[]");
    assert_eq!(body, br#"{"jsonrpc":"2.0","method":"m","params":[]}"#.to_vec());
}

#[test]
fn serialization_errors() {
    assert_eq!(request(0, "", "{}"), Err(SerializationError::EmptyMethod));
    assert_eq!(notification("", "not json"), Err(SerializationError::EmptyMethod));
    assert_eq!(request(0, "m", "{"), Err(SerializationError::ParamsNotJson));
    assert_eq!(notification("m", ""), Err(SerializationError::ParamsNotJson));
    assert_eq!(notification("m", "{} {}"), Err(SerializationError::ParamsNotJson));
}

#[test]
fn message_round_trip() {
    let m = Message { id: Some(42), method: "workspace/symbol".to_string(), params: "{\"query\":\"main\"}".to_string() };
    let bytes = encode(&m).unwrap();
    let f = decode(&bytes, 0).unwrap();
    assert_eq!(f.next, bytes.len());
    let v: serde_json::Value = serde_json::from_slice(&f.body).unwrap();
    assert_eq!(v["jsonrpc"], "2.0");
    assert_eq!(v["id"], 42);
    assert_eq!(v["method"], "workspace/symbol");
    let params: serde_json::Value = serde_json::from_str(&m.params).unwrap();
    assert_eq!(v["params"], params);
}

#[test]
fn notification_round_trip_has_no_id() {
    let m = Message { id: None, method: "exit".to_string(), params: "null".to_string() };
    let bytes = encode(&m).unwrap();
    let f = decode(&bytes, 0).unwrap();
    let v: serde_json::Value = serde_json::from_slice(&f.body).unwrap();
    assert!(v.get("id").is_none());
    assert_eq!(v["method"], "exit");
    assert!(v["params"].is_null());
}

#[test]
fn messages_decode_one_after_another() {
    let a = Message { id: Some(0), method: "initialize".to_string(), params: "{}".to_string() };
    let b = Message { id: None, method: "initialized".to_string(), params: "{}".to_string() };
    let mut s = encode(&a).unwrap();
    s.extend(encode(&b).unwrap());
    let fa = decode(&s, 0).unwrap();
    let fb = decode(&s, fa.next).unwrap();
    assert_eq!(fb.next, s.len());
    let va: serde_json::Value = serde_json::from_slice(&fa.body).unwrap();
    let vb: serde_json::Value = serde_json::from_slice(&fb.body).unwrap();
    assert_eq!(va["method"], "initialize");
    assert_eq!(va["id"], 0);
    assert_eq!(vb["method"], "initialized");
}

#[test]
fn encode_refuses_empty_method() {
    let m = Message { id: Some(1), method: String::new(), params: "{}".to_string() };
    assert_eq!(encode(&m), Err(SerializationError::EmptyMethod));
}

#[test]
fn body_that_is_not_json_is_refused() {
    let s = b"Content-Length: 3\r\n\r\nabcContent-Length: 2\r\n\r\n{}".to_vec();
    assert_eq!(
        decode(&s, 0).unwrap_err(),
        DecodeError::Protocol { error: ProtocolError::InvalidBody, resume: 24 }
    );
    assert_eq!(decode(&s, 24).unwrap().body, b"{}".to_vec());
    let s = b"Content-Length: 2\r\n\r\n\xff\xfe".to_vec();
    assert!(matches!(
        decode(&s, 0),
        Err(DecodeError::Protocol { error: ProtocolError::InvalidBody, .. })
    ));
}

#[test]
fn zero_length_body_is_not_end_of_stream() {
    let mut s = b"Content-Length: 0\r\n\r\n".to_vec();
    let first = s.len();
    s.extend(b"Content-Length: 2\r\n\r\n{}");
    let f = decode(&s, 0).unwrap();
    assert!(f.body.is_empty());
    assert_eq!(f.next, first);
    assert_eq!(decode(&s, f.next).unwrap().body, b"{}".to_vec());
}

#[test]
fn method_control_characters_are_escaped() {
    let body = notification("a\u{1f}\n\u{8}\u{c}\r\t\u{e9}", "0").unwrap();
    assert_eq!(
        body,
        "{\"jsonrpc\":\"2.0\",\"method\":\"a\\u001f\\n\\b\\f\\r\\t\u{e9}\",\"params\":0}".as_bytes().to_vec()
    );
}
