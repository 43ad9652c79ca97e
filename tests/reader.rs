use lsp_transport::frame::{encode_frame, ProtocolError};
use lsp_transport::reader::{FrameReader, ReadAction, RetryPolicy};

fn policy() -> RetryPolicy {
    RetryPolicy { max_attempts: 4, base_delay_ms: 100, max_delay_ms: 500 }
}

#[test]
fn backoff_doubles_up_to_the_cap() {
    let p = policy();
    assert_eq!(p.delay_ms(0), 100);
    assert_eq!(p.delay_ms(1), 200);
    assert_eq!(p.delay_ms(2), 400);
    assert_eq!(p.delay_ms(3), 500);
    assert_eq!(p.delay_ms(60), 500);
    let big = RetryPolicy { max_attempts: 1, base_delay_ms: u64::MAX, max_delay_ms: u64::MAX };
    assert_eq!(big.delay_ms(5), u64::MAX);
    let low_cap = RetryPolicy { max_attempts: 1, base_delay_ms: 900, max_delay_ms: 50 };
    assert_eq!(low_cap.delay_ms(0), 50);
}

#[test]
fn frames_come_out_as_bytes_arrive() {
    let mut r = FrameReader::new(policy());
    let mut s = encode_frame(b"{\"a\":1}");
    s.extend(encode_frame(b"[2]"));
    r.receive(&s[..10]);
    assert!(r.next_frame().is_none());
    r.receive(&s[10..]);
    let a = r.next_frame().unwrap().unwrap();
    assert_eq!(a.body, b"{\"a\":1}".to_vec());
    let b = r.next_frame().unwrap().unwrap();
    assert_eq!(b.body, b"[2]".to_vec());
    assert!(r.next_frame().is_none());
    assert!(r.buffer.is_empty());
}

#[test]
fn refused_frame_is_skipped() {
    let mut r = FrameReader::new(policy());
    let mut s = b"Content-Type: x\r\n\r\n".to_vec();
    s.extend(encode_frame(b"{}"));
    r.receive(&s);
    assert_eq!(r.next_frame().unwrap().unwrap_err(), ProtocolError::MissingContentLength);
    assert_eq!(r.next_frame().unwrap().unwrap().body, b"{}".to_vec());
}

#[test]
fn retries_are_bounded() {
    let mut r = FrameReader::new(policy());
    assert_eq!(r.read_failed(false), ReadAction::Retry { delay_ms: 100 });
    assert_eq!(r.read_failed(false), ReadAction::Retry { delay_ms: 200 });
    assert_eq!(r.read_failed(false), ReadAction::Retry { delay_ms: 400 });
    assert_eq!(r.read_failed(false), ReadAction::Retry { delay_ms: 500 });
    assert!(!r.is_closed());
    assert_eq!(r.read_failed(false), ReadAction::Stop);
    assert!(r.is_closed());
    assert_eq!(r.read_failed(false), ReadAction::Stop);
}

#[test]
fn success_resets_the_failures() {
    let mut r = FrameReader::new(policy());
    assert_eq!(r.read_failed(false), ReadAction::Retry { delay_ms: 100 });
    assert_eq!(r.read_failed(false), ReadAction::Retry { delay_ms: 200 });
    r.receive(b"Content");
    assert_eq!(r.failures, 0);
    assert_eq!(r.read_failed(false), ReadAction::Retry { delay_ms: 100 });
}

#[test]
fn cancellation_stops_the_loop() {
    let mut r = FrameReader::new(policy());
    assert_eq!(r.read_failed(true), ReadAction::Stop);
    assert!(r.is_closed());
}

#[test]
fn end_of_stream_closes() {
    let mut r = FrameReader::new(policy());
    r.end_of_stream();
    assert!(r.is_closed());
    assert_eq!(r.read_failed(false), ReadAction::Stop);
}

#[test]
fn empty_body_frame_is_delivered() {
    let mut r = FrameReader::new(policy());
    r.receive(b"Content-Length: 0\r\n\r\n");
    let f = r.next_frame().unwrap().unwrap();
    assert!(f.body.is_empty());
    assert!(r.buffer.is_empty());
}
