//! JSON-RPC 2.0 messages and how they travel in frames.
//!
//! A message's body is the envelope
//! `{"jsonrpc":"2.0","id":<id>,"method":<method>,"params":<params>}`, with
//! the `id` member left out of a notification. The method name is written as
//! a JSON string by serde_json; the parameters arrive already written as JSON
//! text, and are checked to be JSON before they are sent.
use crate::decimal::{decimal, push_decimal};
use crate::frame::{
    lemma_frames_independent, lemma_round_trip, decode_frame, decode_frame_spec, decoded_of, encode_frame, frame, push_bytes, push_str,
    DecodeError, Decoded, Frame, ProtocolError,
};
use vstd::prelude::*;
use vstd::string::*;
use vstd::utf8::encode_utf8;

verus! {

/// Whether `b` is one JSON value in UTF-8, with nothing but whitespace
/// around it, as serde_json reads it: serde_json also refuses values nested
/// deeper than 128 and numbers out of its range.
pub uninterp spec fn is_json(b: Seq<u8>) -> bool;

/// A hexadecimal digit in lower case.
pub open spec fn hex_digit(d: u8) -> u8 {
    if d < 10 {
        (48 + d) as u8
    } else {
        (87 + d) as u8
    }
}

/// How serde_json writes one byte of a string's UTF-8 inside the quotes: a
/// quote and a backslash get a backslash in front, backspace, tab, line feed,
/// form feed and carriage return their short escapes, the other bytes below
/// 0x20 the form `\u00XX`, and every other byte stands as it is.
pub open spec fn escape_byte(b: u8) -> Seq<u8> {
    if b == 34 {
        seq![92u8, 34]
    } else if b == 92 {
        seq![92u8, 92]
    } else if b == 8 {
        seq![92u8, 98]
    } else if b == 9 {
        seq![92u8, 116]
    } else if b == 10 {
        seq![92u8, 110]
    } else if b == 12 {
        seq![92u8, 102]
    } else if b == 13 {
        seq![92u8, 114]
    } else if b < 32 {
        seq![92u8, 117, 48, 48, hex_digit(b / 16), hex_digit(b % 16)]
    } else {
        seq![b]
    }
}

/// The bytes `b` with each one escaped.
pub open spec fn escaped(b: Seq<u8>) -> Seq<u8>
    decreases b.len(),
{
    if b.len() == 0 {
        b
    } else {
        escaped(b.drop_last()) + escape_byte(b.last())
    }
}

/// The JSON string literal that stands for `s`, as serde_json writes it:
/// the escaped UTF-8 of `s` between two quotes.
pub open spec fn json_string(s: Seq<char>) -> Seq<u8> {
    seq![34u8] + escaped(encode_utf8(s)) + seq![34u8]
}

/// Relies on `serde_json::to_vec` applied to a `str`: the string's JSON
/// literal, written into a `Vec`, which cannot fail.
#[verifier::external_body]
pub(crate) fn quote_json(s: &str) -> (r: Option<Vec<u8>>)
    ensures
        r is Some,
        r->Some_0@ == json_string(s@),
{
    serde_json::to_vec(s).ok()
}

/// Relies on `serde_json::from_slice` into a `serde_json::Value`: it succeeds
/// exactly when serde_json reads `b` as one JSON value.
#[verifier::external_body]
fn check_json(b: &[u8]) -> (r: bool)
    ensures
        r == is_json(b@),
{
    serde_json::from_slice::<serde_json::Value>(b).is_ok()
}

/// The protocol version that every envelope names, and the members' keys.
pub const JSONRPC_MEMBER: &'static str = "{\"jsonrpc\":\"2.0\",";

pub const ID_MEMBER: &'static str = "\"id\":";

pub const METHOD_MEMBER: &'static str = "\"method\":";

pub const PARAMS_MEMBER: &'static str = ",\"params\":";

pub const COMMA: u8 = 44;

pub const CLOSE_BRACE: u8 = 125;

/// The envelope around an already quoted method name and the parameters'
/// JSON text.
pub open spec fn envelope(id: Option<u32>, method_json: Seq<u8>, params: Seq<u8>) -> Seq<u8> {
    JSONRPC_MEMBER.spec_bytes() + match id {
        Some(n) => ID_MEMBER.spec_bytes() + decimal(n as nat) + seq![COMMA],
        None => Seq::<u8>::empty(),
    } + METHOD_MEMBER.spec_bytes() + method_json + PARAMS_MEMBER.spec_bytes() + params + seq![
        CLOSE_BRACE,
    ]
}

/// The body of the message with this id, method and parameters.
pub open spec fn message_body(id: Option<u32>, method: Seq<char>, params: Seq<u8>) -> Seq<u8> {
    envelope(id, json_string(method), params)
}

/// A JSON-RPC message: a request where it has an `id`, a notification
/// where it has none.
pub struct Message {
    pub id: Option<u32>,
    /// The method's name; an encodable message has a non-empty one.
    pub method: String,
    /// The parameters, as JSON text.
    pub params: String,
}

/// Why a message could not be written.
#[derive(PartialEq, Eq, Structural, Clone, Copy, Debug)]
pub enum SerializationError {
    /// The method name is empty.
    EmptyMethod,
    /// The parameters are not JSON text.
    ParamsNotJson,
}

/// The envelope around `method_json`, a method name already written as a
/// JSON string, and `params`, the parameters' JSON text.
pub fn envelope_of(id: Option<u32>, method_json: &[u8], params: &[u8]) -> (r: Vec<u8>)
    ensures
        r@ == envelope(id, method_json@, params@),
{
    let mut out: Vec<u8> = Vec::new();
    push_str(&mut out, JSONRPC_MEMBER);
    match id {
        Some(n) => {
            push_str(&mut out, ID_MEMBER);
            push_decimal(&mut out, n as usize);
            out.push(COMMA);
        },
        None => {},
    }
    let ghost with_id = out@;
    push_str(&mut out, METHOD_MEMBER);
    push_bytes(&mut out, method_json);
    push_str(&mut out, PARAMS_MEMBER);
    push_bytes(&mut out, params);
    out.push(CLOSE_BRACE);
    proof {
        match id {
            Some(n) => {
                assert(with_id =~= JSONRPC_MEMBER.spec_bytes() + (ID_MEMBER.spec_bytes() + decimal(
                    n as nat,
                ) + seq![COMMA]));
            },
            None => {
                assert(with_id =~= JSONRPC_MEMBER.spec_bytes() + Seq::<u8>::empty());
            },
        }
        assert(out@ =~= envelope(id, method_json@, params@));
    }
    out
}

/// The body of the message with this id, `method` and `params`, written
/// without checking either: the caller vouches for them.
pub(crate) fn write_body(id: Option<u32>, method: &str, params: &[u8]) -> (r: Vec<u8>)
    ensures
        r@ == message_body(id, method@, params@),
{
    let q = quote_json(method).unwrap();
    envelope_of(id, &q, params)
}

/// Whether a message with this method and parameters can be written: the
/// method is non-empty and the parameters are JSON text.
pub open spec fn encodable(method: Seq<char>, params: Seq<char>) -> bool {
    method.len() > 0 && is_json(encode_utf8(params))
}

/// What writing the body of a message with this id, method and parameters
/// gives: the body, or the first of the two errors that applies.
pub open spec fn body_result(
    r: Result<Vec<u8>, SerializationError>,
    id: Option<u32>,
    method: Seq<char>,
    params: Seq<char>,
) -> bool {
    if method.len() == 0 {
        r matches Err(SerializationError::EmptyMethod)
    } else if !is_json(encode_utf8(params)) {
        r matches Err(SerializationError::ParamsNotJson)
    } else {
        r matches Ok(b) && b@ == message_body(id, method, encode_utf8(params))
    }
}

fn message_body_of(id: Option<u32>, method: &str, params: &str) -> (r: Result<Vec<u8>, SerializationError>)
    ensures
        body_result(r, id, method@, params@),
{
    if method.is_empty() {
        return Err(SerializationError::EmptyMethod);
    }
    let p = params.as_bytes();
    if !check_json(p) {
        return Err(SerializationError::ParamsNotJson);
    }
    Ok(write_body(id, method, p))
}

/// The body of the request `id` calling `method` with `params`, JSON text:
/// `EmptyMethod` for an empty method, else `ParamsNotJson` where the
/// parameters are not JSON, else the envelope.
pub fn request(id: u32, method: &str, params: &str) -> (r: Result<Vec<u8>, SerializationError>)
    ensures
        body_result(r, Some(id), method@, params@),
        encodable(method@, params@) <==> r is Ok,
{
    message_body_of(Some(id), method, params)
}

/// The body of the notification `method` with `params`, JSON text: as for a
/// request, with no `id` member.
pub fn notification(method: &str, params: &str) -> (r: Result<Vec<u8>, SerializationError>)
    ensures
        body_result(r, None, method@, params@),
        encodable(method@, params@) <==> r is Ok,
{
    message_body_of(None, method, params)
}

/// The frame that carries `message`, or the error that `request` or
/// `notification` gives for it.
pub fn encode(message: &Message) -> (r: Result<Vec<u8>, SerializationError>)
    ensures
        encodable(message.method@, message.params@) <==> r is Ok,
        message.method@.len() == 0 ==> r matches Err(SerializationError::EmptyMethod),
        message.method@.len() > 0 && !is_json(encode_utf8(message.params@)) ==> r matches Err(
            SerializationError::ParamsNotJson,
        ),
        r matches Ok(b) ==> b@ == frame(
            message_body(message.id, message.method@, encode_utf8(message.params@)),
        ),
{
    let body = message_body_of(message.id, message.method.as_str(), message.params.as_str());
    match body {
        Ok(b) => Ok(encode_frame(&b)),
        Err(e) => Err(e),
    }
}

/// Whether a frame's body is accepted as a message: it is empty, or JSON text.
pub open spec fn accepted_body(body: Seq<u8>) -> bool {
    body.len() == 0 || is_json(body)
}

/// The message frame that starts at `pos` of `s`: a frame whose body is
/// empty or JSON text, or the error that refuses it.
pub open spec fn decode_spec(s: Seq<u8>, pos: int) -> Decoded {
    match decode_frame_spec(s, pos) {
        Decoded::Complete(content_type, body, next) => {
            if accepted_body(body) {
                Decoded::Complete(content_type, body, next)
            } else {
                Decoded::Malformed(ProtocolError::InvalidBody, next)
            }
        },
        other => other,
    }
}

/// Decodes the message frame that starts at `pos` of `input`. An empty body
/// is accepted; any other that is not UTF-8 JSON text is refused, and
/// reading resumes after it.
pub fn decode(input: &[u8], pos: usize) -> (r: Result<Frame, DecodeError>)
    ensures
        decoded_of(r) == decode_spec(input@, pos as int),
{
    match decode_frame(input, pos) {
        Ok(f) => {
            if f.body.len() == 0 || check_json(&f.body) {
                Ok(f)
            } else {
                Err(DecodeError::Protocol { error: ProtocolError::InvalidBody, resume: f.next })
            }
        },
        Err(e) => Err(e),
    }
}

/// Decoding the frame that `encode` writes gives back the message's body
/// whole, and accepts it exactly when serde_json reads it as JSON text.
/// Nothing of the stream past the frame is read.
pub proof fn lemma_message_round_trip(id: Option<u32>, method: Seq<char>, params: Seq<u8>)
    requires
        message_body(id, method, params).len() <= usize::MAX,
    ensures
        ({
            let body = message_body(id, method, params);
            let n = frame(body).len() as int;
            decode_spec(frame(body), 0) == if accepted_body(body) {
                Decoded::Complete(None, body, n)
            } else {
                Decoded::Malformed(ProtocolError::InvalidBody, n)
            }
        }),
{
    lemma_round_trip(message_body(id, method, params));
}

/// Two encoded messages written one after the other decode one after the
/// other, each exactly as it would alone, with no byte of one read as part
/// of the other.
pub proof fn lemma_messages_independent(b1: Seq<u8>, b2: Seq<u8>)
    requires
        b1.len() <= usize::MAX,
        b2.len() <= usize::MAX,
    ensures
        ({
            let s = frame(b1) + frame(b2);
            let n1 = frame(b1).len() as int;
            &&& decode_spec(s, 0) == decode_spec(frame(b1), 0)
            &&& decode_spec(s, 0) is Complete ==> decode_spec(s, 0)->Complete_1 == b1
            &&& decode_spec(s, n1) == if accepted_body(b2) {
                Decoded::Complete(None, b2, s.len() as int)
            } else {
                Decoded::Malformed(ProtocolError::InvalidBody, s.len() as int)
            }
        }),
{
    lemma_frames_independent(b1, b2);
    lemma_round_trip(b1);
}

} // verus!
