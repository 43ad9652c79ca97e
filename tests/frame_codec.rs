use lsp_transport::decimal::{parse_decimal, push_decimal};
use lsp_transport::frame::{decode_frame, encode_frame, read_single_line, DecodeError, ProtocolError};

fn framed(header: &str, body: &[u8]) -> Vec<u8> {
    let mut s = header.as_bytes().to_vec();
    s.extend_from_slice(body);
    s
}

#[test]
fn encode_frame_writes_length_header_and_body() {
    let body = br#"{"jsonrpc":"2.0","method":"initialized","params":{}}"#;
    assert_eq!(body.len(), 52);
    let f = encode_frame(body);
    assert_eq!(f, framed("Content-Length: 52\r\n\r\n", body));
}

#[test]
fn declared_length_counts_utf8_bytes() {
    let body = "{\"k\":\"\u{e9}\u{4e16}\"}".as_bytes();
    assert_eq!(body.len(), 13);
    let f = encode_frame(body);
    assert!(f.starts_with(b"Content-Length: 13\r\n\r\n"));
    let d = decode_frame(&f, 0).unwrap();
    assert_eq!(d.body, body);
}

#[test]
fn frame_round_trip() {
    let body = b"{\"a\":[1,2,3]}";
    let f = encode_frame(body);
    let d = decode_frame(&f, 0).unwrap();
    assert_eq!(d.body, body.to_vec());
    assert_eq!(d.next, f.len());
    assert_eq!(d.content_type, None);
}

#[test]
fn two_frames_decode_in_order() {
    let mut s = encode_frame(b"{\"first\":1}");
    let first_len = s.len();
    s.extend(encode_frame(b"[\"second\"]"));
    let a = decode_frame(&s, 0).unwrap();
    assert_eq!(a.body, b"{\"first\":1}".to_vec());
    assert_eq!(a.next, first_len);
    let b = decode_frame(&s, a.next).unwrap();
    assert_eq!(b.body, b"[\"second\"]".to_vec());
    assert_eq!(b.next, s.len());
}

#[test]
fn missing_content_length_is_refused_and_skipped() {
    let mut s = b"Content-Type: application/vscode-jsonrpc; charset=utf-8\r\n\r\n".to_vec();
    let block = s.len();
    s.extend(encode_frame(b"{}"));
    assert_eq!(
        decode_frame(&s, 0).unwrap_err(),
        DecodeError::Protocol { error: ProtocolError::MissingContentLength, resume: block }
    );
    let next = decode_frame(&s, block).unwrap();
    assert_eq!(next.body, b"{}".to_vec());
}

#[test]
fn empty_header_block_lacks_content_length() {
    let s = b"\r\n".to_vec();
    assert_eq!(
        decode_frame(&s, 0).unwrap_err(),
        DecodeError::Protocol { error: ProtocolError::MissingContentLength, resume: 2 }
    );
}

#[test]
fn malformed_content_length_is_refused() {
    let s = b"Content-Length: twelve\r\n\r\n{}".to_vec();
    assert_eq!(
        decode_frame(&s, 0).unwrap_err(),
        DecodeError::Protocol { error: ProtocolError::InvalidContentLength, resume: 26 }
    );
    let s = b"Content-Length: -1\r\n\r\n".to_vec();
    assert!(matches!(
        decode_frame(&s, 0),
        Err(DecodeError::Protocol { error: ProtocolError::InvalidContentLength, .. })
    ));
}

#[test]
fn zero_length_body_is_a_frame() {
    let s = b"Content-Length: 0\r\n\r\n".to_vec();
    let d = decode_frame(&s, 0).unwrap();
    assert!(d.body.is_empty());
    assert_eq!(d.next, s.len());
}

#[test]
fn content_type_is_kept_and_unknown_headers_ignored() {
    let s = framed("X-Other: 1\r\nContent-Type: text/json\r\nContent-Length: 2\r\n\r\n", b"{}");
    let d = decode_frame(&s, 0).unwrap();
    assert_eq!(d.content_type, Some(b"text/json".to_vec()));
    assert_eq!(d.body, b"{}".to_vec());
}

#[test]
fn bare_line_feeds_end_header_lines() {
    let s = framed("Content-Length: 2\n\n", b"[]");
    let d = decode_frame(&s, 0).unwrap();
    assert_eq!(d.body, b"[]".to_vec());
    assert_eq!(d.next, s.len());
}

#[test]
fn incomplete_stream_waits_for_more() {
    assert_eq!(decode_frame(b"Content-Len", 0).unwrap_err(), DecodeError::Incomplete);
    assert_eq!(decode_frame(b"Content-Length: 5\r\n\r\n{}", 0).unwrap_err(), DecodeError::Incomplete);
    assert_eq!(decode_frame(b"", 0).unwrap_err(), DecodeError::Incomplete);
    assert_eq!(decode_frame(b"ab", 7).unwrap_err(), DecodeError::Incomplete);
}

#[test]
fn single_line_drops_carriage_returns() {
    let s = b"ab\rc\r\nrest";
    let (line, next) = read_single_line(s, 0).unwrap();
    assert_eq!(line, b"abc".to_vec());
    assert_eq!(next, 6);
    assert_eq!(read_single_line(s, next), None);
}

#[test]
fn decimal_numerals() {
    let mut out = Vec::new();
    push_decimal(&mut out, 0);
    push_decimal(&mut out, 12345);
    assert_eq!(out, b"012345".to_vec());
    assert_eq!(parse_decimal(b"34"), Some(34));
    assert_eq!(parse_decimal(b"+7"), Some(7));
    assert_eq!(parse_decimal(b"007"), Some(7));
    assert_eq!(parse_decimal(b""), None);
    assert_eq!(parse_decimal(b"+"), None);
    assert_eq!(parse_decimal(b"12a"), None);
    assert_eq!(parse_decimal(b" 1"), None);
    let max = usize::MAX.to_string();
    assert_eq!(parse_decimal(max.as_bytes()), Some(usize::MAX));
    let over = format!("{}0", usize::MAX);
    assert_eq!(parse_decimal(over.as_bytes()), None);
}

#[test]
fn header_without_value_is_legal() {
    let s = framed("X-Empty: \r\nContent-Type: \r\nContent-Length: 0\r\n\r\n", b"");
    let d = decode_frame(&s, 0).unwrap();
    assert_eq!(d.content_type, Some(Vec::new()));
    assert!(d.body.is_empty());
    let s = b"Content-Length: \r\n\r\n".to_vec();
    assert!(matches!(
        decode_frame(&s, 0),
        Err(DecodeError::Protocol { error: ProtocolError::InvalidContentLength, .. })
    ));
}
