//! The opening of a session: an `initialize` request with id 0, then at once
//! an `initialized` notification, without waiting for the reply to the
//! request.
use crate::frame::{encode_frame, frame};
use crate::decimal::decimal;
use crate::message::{
    escaped, is_json, message_body, request, write_body, SerializationError, JSONRPC_MEMBER,
    METHOD_MEMBER, PARAMS_MEMBER,
};
use vstd::prelude::*;
use vstd::string::*;
use vstd::utf8::encode_utf8;

verus! {

/// The scheme and empty authority in front of the workspace's path.
pub const FILE_SCHEME: &'static str = "file:///";

/// The name of the one workspace folder that a session announces.
pub const WORKSPACE_NAME: &'static str = "Main";

pub const INITIALIZE: &'static str = "initialize";

pub const INITIALIZED: &'static str = "initialized";

/// The parameters of the `initialized` notification: an empty object.
pub const EMPTY_PARAMS: &'static str = "{}";

/// The id of the `initialize` request.
pub const INITIALIZE_ID: u32 = 0;

/// `path` with every backslash turned into a forward slash.
pub open spec fn forward_slashes(path: Seq<char>) -> Seq<char> {
    path.map_values(|c: char| if c == '\\' { '/' } else { c })
}

/// Relies on `str::replace`: every occurrence of the pattern, here one
/// backslash, is replaced by the replacement, here one forward slash.
#[verifier::external_body]
fn replace_backslashes(s: &str) -> (r: String)
    ensures
        r@ == forward_slashes(s@),
{
    s.replace("\\", "/")
}

/// The URI of the workspace at `cwd`: `file:///` and the path, with its
/// separators written as forward slashes.
pub fn workspace_uri(cwd: &str) -> (r: String)
    ensures
        r@ == FILE_SCHEME@ + forward_slashes(cwd@),
{
    let path = replace_backslashes(cwd);
    let mut uri = String::from_str(FILE_SCHEME);
    uri.append(path.as_str());
    uri
}

/// The two frames that open a session, in the order they are sent: the
/// `initialize` request with id 0 and `initialize_params`, JSON text, then
/// the `initialized` notification with empty parameters. They are sent one
/// right after the other, without waiting for a reply.
pub fn handshake(initialize_params: &str) -> (r: Result<Vec<Vec<u8>>, SerializationError>)
    ensures
        is_json(encode_utf8(initialize_params@)) <==> r is Ok,
        !is_json(encode_utf8(initialize_params@)) ==> r matches Err(
            SerializationError::ParamsNotJson,
        ),
        r matches Ok(frames) ==> {
            &&& frames@.len() == 2
            &&& frames@[0]@ == frame(
                message_body(
                    Some(INITIALIZE_ID),
                    INITIALIZE@,
                    encode_utf8(initialize_params@),
                ),
            )
            &&& frames@[1]@ == frame(message_body(None, INITIALIZED@, EMPTY_PARAMS.spec_bytes()))
            &&& frames@[1]@ == frame(INITIALIZED_BODY.spec_bytes())
        },
{
    proof {
        reveal_strlit("initialize");
        lemma_initialized_body();
    }
    let first = match request(INITIALIZE_ID, INITIALIZE, initialize_params) {
        Ok(b) => b,
        Err(e) => {
            return Err(e);
        },
    };
    let second = write_body(None, INITIALIZED, EMPTY_PARAMS.as_bytes());
    let mut frames: Vec<Vec<u8>> = Vec::new();
    frames.push(encode_frame(&first));
    frames.push(encode_frame(&second));
    Ok(frames)
}

/// The body of the `initialized` notification, as it goes on the wire.
pub const INITIALIZED_BODY: &'static str = "{\"jsonrpc\":\"2.0\",\"method\":\"initialized\",\"params\":{}}";

proof fn lemma_escaped_plain(b: Seq<u8>)
    requires
        forall|k: int| 0 <= k < b.len() ==> #[trigger] b[k] >= 32 && b[k] != 34 && b[k] != 92,
    ensures
        escaped(b) == b,
    decreases b.len(),
{
    if b.len() > 0 {
        lemma_escaped_plain(b.drop_last());
        assert(b.drop_last() + seq![b.last()] =~= b);
    }
}

/// The `initialized` notification that `handshake` sends is exactly the 52
/// bytes of `INITIALIZED_BODY`, so its frame declares `Content-Length: 52`.
pub proof fn lemma_initialized_body()
    ensures
        message_body(None, INITIALIZED@, EMPTY_PARAMS.spec_bytes()) == INITIALIZED_BODY.spec_bytes(),
        INITIALIZED_BODY.spec_bytes().len() == 52,
        decimal(52) == seq![53u8, 50],
{
    reveal_strlit("initialized");
    reveal_strlit("{}");
    reveal_strlit("{\"jsonrpc\":\"2.0\",");
    reveal_strlit("\"method\":");
    reveal_strlit(",\"params\":");
    reveal_strlit("{\"jsonrpc\":\"2.0\",\"method\":\"initialized\",\"params\":{}}");
    assert(is_ascii(INITIALIZED));
    assert(is_ascii(EMPTY_PARAMS));
    assert(is_ascii(JSONRPC_MEMBER));
    assert(is_ascii(METHOD_MEMBER));
    assert(is_ascii(PARAMS_MEMBER));
    assert(is_ascii(INITIALIZED_BODY));
    is_ascii_spec_bytes(INITIALIZED);
    is_ascii_spec_bytes(EMPTY_PARAMS);
    is_ascii_spec_bytes(JSONRPC_MEMBER);
    is_ascii_spec_bytes(METHOD_MEMBER);
    is_ascii_spec_bytes(PARAMS_MEMBER);
    is_ascii_spec_bytes(INITIALIZED_BODY);
    let m = encode_utf8(INITIALIZED@);
    assert(m == INITIALIZED.spec_bytes());
    lemma_escaped_plain(m);
    assert(message_body(None, INITIALIZED@, EMPTY_PARAMS.spec_bytes()) =~= INITIALIZED_BODY.spec_bytes());
    assert(decimal(5) == seq![53u8]);
    assert(decimal(52) =~= seq![53u8, 50]);
}

} // verus!
