//! The frame layer of the transport: a header block that declares the body's
//! length in bytes, then exactly that many bytes of body.
//!
//! A frame on the wire reads
//! `Content-Length: <n>\r\n[Content-Type: <value>\r\n]\r\n<n bytes of body>`.
//! Decoding works on a byte stream held in memory and a position in it, so
//! that a reader can decode frame after frame from what it has received.
use crate::decimal::{decimal, lemma_decimal_digits, lemma_parse_decimal, parse_decimal, parse_decimal_spec, push_decimal};
use vstd::prelude::*;
use vstd::string::*;

verus! {

/// The header that declares the body's length.
pub const CONTENT_LENGTH: &'static str = "Content-Length: ";

/// The optional header that names the body's encoding.
pub const CONTENT_TYPE: &'static str = "Content-Type: ";

pub const CR: u8 = 13;

pub const LF: u8 = 10;

/// The header block that `encode_frame` writes for a body of `len` bytes.
pub open spec fn header_block(len: nat) -> Seq<u8> {
    CONTENT_LENGTH.spec_bytes() + decimal(len) + seq![CR, LF, CR, LF]
}

/// The frame that carries `body`.
pub open spec fn frame(body: Seq<u8>) -> Seq<u8> {
    header_block(body.len()) + body
}

/// The bytes of the header names, as ASCII.
pub proof fn lemma_header_names()
    ensures
        CONTENT_LENGTH.spec_bytes() == seq![
            67u8, 111, 110, 116, 101, 110, 116, 45, 76, 101, 110, 103, 116, 104, 58, 32,
        ],
        CONTENT_TYPE.spec_bytes() == seq![
            67u8, 111, 110, 116, 101, 110, 116, 45, 84, 121, 112, 101, 58, 32,
        ],
{
    reveal_strlit("Content-Length: ");
    reveal_strlit("Content-Type: ");
    assert(is_ascii(CONTENT_LENGTH));
    assert(is_ascii(CONTENT_TYPE));
    is_ascii_spec_bytes(CONTENT_LENGTH);
    is_ascii_spec_bytes(CONTENT_TYPE);
    assert(CONTENT_LENGTH.spec_bytes() =~= seq![
        67u8, 111, 110, 116, 101, 110, 116, 45, 76, 101, 110, 103, 116, 104, 58, 32,
    ]);
    assert(CONTENT_TYPE.spec_bytes() =~= seq![
        67u8, 111, 110, 116, 101, 110, 116, 45, 84, 121, 112, 101, 58, 32,
    ]);
}

/// Appends the bytes of `s` to `out`.
pub fn push_str(out: &mut Vec<u8>, s: &str)
    ensures
        final(out)@ == old(out)@ + s.spec_bytes(),
{
    let b = s.as_bytes();
    let ghost start = out@;
    let mut i: usize = 0;
    while i < b.len()
        invariant
            i <= b@.len(),
            b@ == s.spec_bytes(),
            out@ == start + b@.subrange(0, i as int),
        decreases b.len() - i,
    {
        out.push(b[i]);
        assert(b@.subrange(0, i + 1) =~= b@.subrange(0, i as int).push(b@[i as int]));
        i = i + 1;
    }
    assert(b@.subrange(0, i as int) =~= b@);
}

/// Appends all of `bytes` to `out`.
pub fn push_bytes(out: &mut Vec<u8>, bytes: &[u8])
    ensures
        final(out)@ == old(out)@ + bytes@,
{
    let ghost start = out@;
    let mut i: usize = 0;
    while i < bytes.len()
        invariant
            i <= bytes@.len(),
            out@ == start + bytes@.subrange(0, i as int),
        decreases bytes.len() - i,
    {
        out.push(bytes[i]);
        assert(bytes@.subrange(0, i + 1) =~= bytes@.subrange(0, i as int).push(bytes@[i as int]));
        i = i + 1;
    }
    assert(bytes@.subrange(0, i as int) =~= bytes@);
}

/// The frame that carries `body`: a `Content-Length` header with the body's
/// length in bytes, the blank line that ends the header block, the body.
pub fn encode_frame(body: &[u8]) -> (r: Vec<u8>)
    ensures
        r@ == frame(body@),
{
    let mut out: Vec<u8> = Vec::new();
    push_str(&mut out, CONTENT_LENGTH);
    push_decimal(&mut out, body.len());
    out.push(CR);
    out.push(LF);
    out.push(CR);
    out.push(LF);
    push_bytes(&mut out, body);
    assert(out@ =~= frame(body@));
    out
}

/// The index of the first line feed at or after `i`, or the stream's length
/// where there is none.
pub open spec fn line_end(s: Seq<u8>, i: int) -> int
    decreases s.len() - i,
{
    if i >= s.len() {
        s.len() as int
    } else if s[i] == LF {
        i
    } else {
        line_end(s, i + 1)
    }
}

/// `s` with every carriage return taken out.
pub open spec fn drop_cr(s: Seq<u8>) -> Seq<u8>
    decreases s.len(),
{
    if s.len() == 0 {
        s
    } else if s.last() == CR {
        drop_cr(s.drop_last())
    } else {
        drop_cr(s.drop_last()).push(s.last())
    }
}

/// Whether `line` begins with `prefix`.
pub open spec fn starts_with(line: Seq<u8>, prefix: Seq<u8>) -> bool {
    prefix.len() <= line.len() && line.subrange(0, prefix.len() as int) == prefix
}

/// What the header lines read so far have declared.
pub struct HeaderFields {
    pub length: Option<nat>,
    pub length_malformed: bool,
    pub content_type: Option<Seq<u8>>,
}

/// A header block that declares nothing yet.
pub open spec fn no_headers() -> HeaderFields {
    HeaderFields { length: None, length_malformed: false, content_type: None }
}

/// The fields after reading one more header line. A `Content-Length` whose
/// value is no numeral marks the block malformed; a later valid one does not
/// undo that. Unknown headers are ignored.
pub open spec fn apply_header(h: HeaderFields, line: Seq<u8>) -> HeaderFields {
    let cl = CONTENT_LENGTH.spec_bytes();
    let ct = CONTENT_TYPE.spec_bytes();
    if starts_with(line, cl) {
        match parse_decimal_spec(line.subrange(cl.len() as int, line.len() as int)) {
            Some(n) => HeaderFields { length: Some(n), ..h },
            None => HeaderFields { length_malformed: true, ..h },
        }
    } else if starts_with(line, ct) {
        HeaderFields { content_type: Some(line.subrange(ct.len() as int, line.len() as int)), ..h }
    } else {
        h
    }
}

/// The result of reading a header block.
pub enum HeaderScan {
    /// The stream ends before the blank line that closes the block.
    Incomplete,
    /// The block's fields, and the position just after its blank line.
    Complete(HeaderFields, int),
}

pub proof fn lemma_line_end_bounds(s: Seq<u8>, i: int)
    requires
        0 <= i <= s.len(),
    ensures
        i <= line_end(s, i) <= s.len(),
        line_end(s, i) < s.len() ==> s[line_end(s, i)] == LF,
        forall|k: int| i <= k < line_end(s, i) ==> s[k] != LF,
    decreases s.len() - i,
{
    if i < s.len() && s[i] != LF {
        lemma_line_end_bounds(s, i + 1);
    }
}

#[via_fn]
proof fn scan_headers_decreases(s: Seq<u8>, i: int, h: HeaderFields) {
    if 0 <= i <= s.len() {
        lemma_line_end_bounds(s, i);
    }
}

/// Reads header lines from position `i` until the blank line, starting
/// from the fields `h`.
pub open spec fn scan_headers(s: Seq<u8>, i: int, h: HeaderFields) -> HeaderScan
    decreases s.len() - i,
    via scan_headers_decreases
{
    if i < 0 || i > s.len() {
        HeaderScan::Incomplete
    } else {
        let e = line_end(s, i);
        if e >= s.len() {
            HeaderScan::Incomplete
        } else {
            let line = drop_cr(s.subrange(i, e));
            if line.len() == 0 {
                HeaderScan::Complete(h, e + 1)
            } else {
                scan_headers(s, e + 1, apply_header(h, line))
            }
        }
    }
}

/// Why a frame was refused. The reader resumes after the refused part.
#[derive(PartialEq, Eq, Structural, Clone, Copy, Debug)]
pub enum ProtocolError {
    /// The header block declares no `Content-Length`.
    MissingContentLength,
    /// A `Content-Length` value is no decimal numeral that fits in a `usize`.
    InvalidContentLength,
    /// The body is not UTF-8 JSON text.
    InvalidBody,
}

/// What decoding from a position of a stream comes to.
pub enum Decoded {
    /// The stream does not hold the whole frame yet.
    Incomplete,
    /// The frame is refused; reading goes on at the position given.
    Malformed(ProtocolError, int),
    /// A frame: its `Content-Type` value, its body, and the position after it.
    Complete(Option<Seq<u8>>, Seq<u8>, int),
}

/// The frame that starts at `pos` of `s`, read without looking into the body.
pub open spec fn decode_frame_spec(s: Seq<u8>, pos: int) -> Decoded {
    match scan_headers(s, pos, no_headers()) {
        HeaderScan::Incomplete => Decoded::Incomplete,
        HeaderScan::Complete(h, p) => {
            if h.length_malformed {
                Decoded::Malformed(ProtocolError::InvalidContentLength, p)
            } else {
                match h.length {
                    None => Decoded::Malformed(ProtocolError::MissingContentLength, p),
                    Some(n) => {
                        if p + n > s.len() {
                            Decoded::Incomplete
                        } else {
                            Decoded::Complete(h.content_type, s.subrange(p, p + n), p + n)
                        }
                    },
                }
            }
        },
    }
}

/// A decoded frame.
#[derive(Clone, Debug)]
pub struct Frame {
    /// The value of the `Content-Type` header, where there was one.
    pub content_type: Option<Vec<u8>>,
    /// The body: exactly `Content-Length` bytes.
    pub body: Vec<u8>,
    /// The position in the stream just after the body.
    pub next: usize,
}

/// Why no frame came out of a stream.
#[derive(PartialEq, Eq, Structural, Clone, Copy, Debug)]
pub enum DecodeError {
    /// More bytes are needed; nothing was consumed.
    Incomplete,
    /// The frame is refused; the next one starts at `resume`.
    Protocol { error: ProtocolError, resume: usize },
}

/// What a decoding result says, in terms of `Decoded`.
pub open spec fn decoded_of(r: Result<Frame, DecodeError>) -> Decoded {
    match r {
        Ok(f) => Decoded::Complete(
            match f.content_type {
                Some(c) => Some(c@),
                None => None,
            },
            f.body@,
            f.next as int,
        ),
        Err(DecodeError::Incomplete) => Decoded::Incomplete,
        Err(DecodeError::Protocol { error, resume }) => Decoded::Malformed(error, resume as int),
    }
}

/// Reads the line that starts at `pos`: the bytes up to the next line feed,
/// with carriage returns taken out, and the position after that line feed.
/// `None` where the stream holds no line feed from `pos` on.
pub fn read_single_line(input: &[u8], pos: usize) -> (r: Option<(Vec<u8>, usize)>)
    requires
        pos <= input@.len(),
    ensures
        ({
            let e = line_end(input@, pos as int);
            if e >= input@.len() {
                r is None
            } else {
                match r {
                    Some((line, next)) => line@ == drop_cr(input@.subrange(pos as int, e))
                        && next == e + 1,
                    None => false,
                }
            }
        }),
{
    let mut line: Vec<u8> = Vec::new();
    let mut i: usize = pos;
    proof {
        lemma_line_end_bounds(input@, pos as int);
    }
    while i < input.len()
        invariant
            pos <= i <= input@.len(),
            line_end(input@, pos as int) == line_end(input@, i as int),
            line@ == drop_cr(input@.subrange(pos as int, i as int)),
        decreases input.len() - i,
    {
        let c = input[i];
        if c == LF {
            return Some((line, i + 1));
        }
        let ghost before = input@.subrange(pos as int, i as int);
        assert(input@.subrange(pos as int, i + 1).drop_last() =~= before);
        if c != CR {
            line.push(c);
        }
        i = i + 1;
    }
    None
}

/// Whether `line` begins with `prefix`.
pub fn has_prefix(line: &[u8], prefix: &[u8]) -> (r: bool)
    ensures
        r == starts_with(line@, prefix@),
{
    if prefix.len() > line.len() {
        return false;
    }
    let mut i: usize = 0;
    while i < prefix.len()
        invariant
            i <= prefix@.len() <= line@.len(),
            forall|k: int| 0 <= k < i ==> line@[k] == prefix@[k],
        decreases prefix.len() - i,
    {
        if line[i] != prefix[i] {
            assert(line@.subrange(0, prefix@.len() as int)[i as int] != prefix@[i as int]);
            return false;
        }
        i = i + 1;
    }
    assert(line@.subrange(0, prefix@.len() as int) =~= prefix@);
    true
}

/// A copy of the bytes of `s` from `from` up to `to`.
pub fn copy_range(s: &[u8], from: usize, to: usize) -> (r: Vec<u8>)
    requires
        from <= to <= s@.len(),
    ensures
        r@ == s@.subrange(from as int, to as int),
{
    let mut out: Vec<u8> = Vec::new();
    let mut i: usize = from;
    while i < to
        invariant
            from <= i <= to <= s@.len(),
            out@ == s@.subrange(from as int, i as int),
        decreases to - i,
    {
        out.push(s[i]);
        assert(s@.subrange(from as int, i + 1) =~= s@.subrange(from as int, i as int).push(
            s@[i as int],
        ));
        i = i + 1;
    }
    out
}

/// The header fields that the reader's variables hold.
pub open spec fn fields_of(
    length: Option<usize>,
    malformed: bool,
    content_type: Option<Vec<u8>>,
) -> HeaderFields {
    HeaderFields {
        length: match length {
            Some(n) => Some(n as nat),
            None => None,
        },
        length_malformed: malformed,
        content_type: match content_type {
            Some(c) => Some(c@),
            None => None,
        },
    }
}

/// Decodes the frame that starts at `pos` of `input`, without looking into
/// the body. Header lines end at a line feed, with carriage returns dropped,
/// and the header block ends at the first empty line. `Content-Length` is
/// required; `Content-Type` is kept where present; other headers are ignored.
pub fn decode_frame(input: &[u8], pos: usize) -> (r: Result<Frame, DecodeError>)
    ensures
        decoded_of(r) == decode_frame_spec(input@, pos as int),
{
    if pos > input.len() {
        return Err(DecodeError::Incomplete);
    }
    let cl = CONTENT_LENGTH.as_bytes();
    let ct = CONTENT_TYPE.as_bytes();
    let mut length: Option<usize> = None;
    let mut malformed = false;
    let mut content_type: Option<Vec<u8>> = None;
    let mut i: usize = pos;
    loop
        invariant
            i <= input@.len(),
            cl@ == CONTENT_LENGTH.spec_bytes(),
            ct@ == CONTENT_TYPE.spec_bytes(),
            scan_headers(input@, pos as int, no_headers()) == scan_headers(
                input@,
                i as int,
                fields_of(length, malformed, content_type),
            ),
        decreases input@.len() - i,
    {
        let ghost h = fields_of(length, malformed, content_type);
        proof {
            lemma_line_end_bounds(input@, i as int);
        }
        match read_single_line(input, i) {
            None => {
                return Err(DecodeError::Incomplete);
            },
            Some((line, next)) => {
                if line.len() == 0 {
                    if malformed {
                        return Err(
                            DecodeError::Protocol {
                                error: ProtocolError::InvalidContentLength,
                                resume: next,
                            },
                        );
                    }
                    match length {
                        None => {
                            return Err(
                                DecodeError::Protocol {
                                    error: ProtocolError::MissingContentLength,
                                    resume: next,
                                },
                            );
                        },
                        Some(n) => {
                            if n > input.len() - next {
                                return Err(DecodeError::Incomplete);
                            }
                            let body = copy_range(input, next, next + n);
                            return Ok(Frame { content_type, body, next: next + n });
                        },
                    }
                }
                if has_prefix(&line, cl) {
                    let value = copy_range(&line, cl.len(), line.len());
                    match parse_decimal(&value) {
                        Some(n) => {
                            length = Some(n);
                        },
                        None => {
                            malformed = true;
                        },
                    }
                } else if has_prefix(&line, ct) {
                    content_type = Some(copy_range(&line, ct.len(), line.len()));
                }
                assert(fields_of(length, malformed, content_type) == apply_header(h, line@));
                i = next;
            },
        }
    }
}

proof fn lemma_line_end_at(s: Seq<u8>, i: int, e: int)
    requires
        0 <= i <= e < s.len(),
        s[e] == LF,
        forall|k: int| i <= k < e ==> s[k] != LF,
    ensures
        line_end(s, i) == e,
    decreases e - i,
{
    if i < e {
        lemma_line_end_at(s, i + 1, e);
    }
}

proof fn lemma_drop_cr_none(x: Seq<u8>)
    requires
        forall|k: int| 0 <= k < x.len() ==> x[k] != CR,
    ensures
        drop_cr(x) == x,
    decreases x.len(),
{
    if x.len() > 0 {
        lemma_drop_cr_none(x.drop_last());
        assert(x.drop_last().push(x.last()) =~= x);
    }
}

/// The first line of a frame's header block: `Content-Length: <n>`.
pub open spec fn length_line(len: nat) -> Seq<u8> {
    CONTENT_LENGTH.spec_bytes() + decimal(len)
}

proof fn lemma_length_line(len: nat)
    requires
        len <= usize::MAX,
    ensures
        forall|k: int| 0 <= k < length_line(len).len() ==> #[trigger] length_line(len)[k] != CR
            && length_line(len)[k] != LF,
        apply_header(no_headers(), length_line(len)) == (HeaderFields {
            length: Some(len),
            length_malformed: false,
            content_type: None,
        }),
        header_block(len) == length_line(len) + seq![CR, LF, CR, LF],
{
    lemma_header_names();
    lemma_decimal_digits(len);
    lemma_parse_decimal(len);
    let l = length_line(len);
    let cl = CONTENT_LENGTH.spec_bytes();
    assert forall|k: int| 0 <= k < l.len() implies #[trigger] l[k] != CR && l[k] != LF by {
        if k >= cl.len() {
            assert(l[k] == decimal(len)[k - cl.len()]);
        }
    }
    assert(starts_with(l, cl)) by {
        assert(l.subrange(0, cl.len() as int) =~= cl);
    }
    assert(l.subrange(cl.len() as int, l.len() as int) =~= decimal(len));
    assert(header_block(len) =~= length_line(len) + seq![CR, LF, CR, LF]);
}

/// Whether `x` holds no carriage return and no line feed.
pub open spec fn no_line_break(x: Seq<u8>) -> bool {
    forall|k: int| 0 <= k < x.len() ==> #[trigger] x[k] != CR && x[k] != LF
}

/// A line `x` followed by CR LF at position `i` is read as `x`, and the next
/// line starts right after it.
proof fn lemma_read_line(s: Seq<u8>, i: int, x: Seq<u8>)
    requires
        0 <= i,
        i + x.len() + 2 <= s.len(),
        no_line_break(x),
        s.subrange(i, i + x.len() + 2) == x + seq![CR, LF],
    ensures
        line_end(s, i) == i + x.len() + 1,
        drop_cr(s.subrange(i, i + x.len() + 1)) == x,
{
    let w = x + seq![CR, LF];
    assert forall|k: int| 0 <= k < w.len() implies s[i + k] == #[trigger] w[k] by {
        assert(s.subrange(i, i + w.len())[k] == s[i + k]);
    }
    let e = i + x.len() + 1;
    assert(s[e] == w[x.len() as int + 1]);
    assert forall|k: int| i <= k < e implies s[k] != LF by {
        assert(s[k] == w[k - i]);
    }
    lemma_line_end_at(s, i, e);
    let raw = s.subrange(i, e);
    assert(raw.drop_last() =~= x) by {
        assert forall|k: int| 0 <= k < x.len() implies raw.drop_last()[k] == x[k] by {
            assert(s[i + k] == w[k]);
        }
    }
    assert(raw.last() == w[x.len() as int]);
    lemma_drop_cr_none(x);
    assert(drop_cr(raw) == drop_cr(raw.drop_last()));
}

/// The blank line CR LF at position `i` ends a header block.
proof fn lemma_blank_line(s: Seq<u8>, i: int, h: HeaderFields)
    requires
        0 <= i,
        i + 2 <= s.len(),
        s.subrange(i, i + 2) == seq![CR, LF],
    ensures
        scan_headers(s, i, h) == HeaderScan::Complete(h, i + 2),
{
    lemma_read_line(s, i, Seq::<u8>::empty());
    assert(Seq::<u8>::empty() + seq![CR, LF] =~= seq![CR, LF]);
}

/// A frame placed anywhere in a stream decodes to its body, with no
/// `Content-Type`, and decoding resumes right after it: the header block
/// declares the body's exact length, and nothing of the bytes that follow
/// the frame is read.
pub proof fn lemma_decode_frame_at(s: Seq<u8>, pos: int, body: Seq<u8>)
    requires
        0 <= pos,
        body.len() <= usize::MAX,
        pos + frame(body).len() <= s.len(),
        s.subrange(pos, pos + frame(body).len()) == frame(body),
    ensures
        scan_headers(s, pos, no_headers()) == HeaderScan::Complete(
            HeaderFields { length: Some(body.len()), length_malformed: false, content_type: None },
            pos + header_block(body.len()).len(),
        ),
        decode_frame_spec(s, pos) == Decoded::Complete(None, body, pos + frame(body).len()),
{
    let n = body.len();
    lemma_length_line(n);
    let l = length_line(n);
    let f = frame(body);
    assert(f =~= l + seq![CR, LF] + seq![CR, LF] + body);
    let e1 = pos + l.len() + 2;
    let p = e1 + 2;
    assert(s.subrange(pos, e1) =~= l + seq![CR, LF]) by {
        assert(s.subrange(pos, e1) =~= s.subrange(pos, pos + f.len()).subrange(0, l.len() as int + 2));
    }
    assert(s.subrange(e1, p) =~= seq![CR, LF]) by {
        assert(s.subrange(e1, p) =~= s.subrange(pos, pos + f.len()).subrange(l.len() as int + 2, l.len() as int + 4));
    }
    assert(s.subrange(p, p + n) =~= body) by {
        assert(s.subrange(p, p + n) =~= s.subrange(pos, pos + f.len()).subrange(l.len() as int + 4, f.len() as int));
    }
    lemma_read_line(s, pos, l);
    let h = HeaderFields { length: Some(n), length_malformed: false, content_type: None };
    lemma_blank_line(s, e1, h);
    assert(scan_headers(s, pos, no_headers()) == scan_headers(s, e1, h));
}

/// The header lines `lines`, each followed by CR LF.
pub open spec fn header_lines(lines: Seq<Seq<u8>>) -> Seq<u8>
    decreases lines.len(),
{
    if lines.len() == 0 {
        Seq::<u8>::empty()
    } else {
        lines[0] + seq![CR, LF] + header_lines(lines.drop_first())
    }
}

/// Whether `line` is a header line that declares no `Content-Length`.
pub open spec fn other_header(line: Seq<u8>) -> bool {
    line.len() > 0 && no_line_break(line) && !starts_with(line, CONTENT_LENGTH.spec_bytes())
}

proof fn lemma_scan_other_headers(s: Seq<u8>, i: int, lines: Seq<Seq<u8>>, h: HeaderFields)
    requires
        0 <= i,
        h.length is None,
        !h.length_malformed,
        forall|k: int| 0 <= k < lines.len() ==> other_header(#[trigger] lines[k]),
        i + header_lines(lines).len() + 2 <= s.len(),
        s.subrange(i, i + header_lines(lines).len() + 2) == header_lines(lines) + seq![CR, LF],
    ensures
        scan_headers(s, i, h) matches HeaderScan::Complete(g, p) && p == i + header_lines(
            lines,
        ).len() + 2 && g.length is None && !g.length_malformed,
    decreases lines.len(),
{
    let hl = header_lines(lines);
    if lines.len() == 0 {
        lemma_blank_line(s, i, h);
    } else {
        let x = lines[0];
        let rest = lines.drop_first();
        let j = i + x.len() + 2;
        let whole = s.subrange(i, i + hl.len() + 2);
        assert(hl =~= x + seq![CR, LF] + header_lines(rest));
        assert(s.subrange(i, j) =~= x + seq![CR, LF]) by {
            assert(s.subrange(i, j) =~= whole.subrange(0, x.len() as int + 2));
        }
        assert(s.subrange(j, j + header_lines(rest).len() + 2) =~= header_lines(rest) + seq![CR, LF])
            by {
            assert(s.subrange(j, j + header_lines(rest).len() + 2) =~= whole.subrange(
                x.len() as int + 2,
                hl.len() as int + 2,
            ));
        }
        assert(other_header(lines[0]));
        lemma_read_line(s, i, x);
        let g = apply_header(h, x);
        assert(g.length is None && !g.length_malformed);
        assert(scan_headers(s, i, h) == scan_headers(s, j, g));
        assert forall|k: int| 0 <= k < rest.len() implies other_header(#[trigger] rest[k]) by {
            assert(rest[k] == lines[k + 1]);
        }
        lemma_scan_other_headers(s, j, rest, g);
    }
}

/// A header block that declares no `Content-Length`, of any number of
/// lines, is refused, and reading resumes right after its blank line: the
/// frame that follows decodes as it would on its own.
pub proof fn lemma_missing_length(s: Seq<u8>, pos: int, lines: Seq<Seq<u8>>, body: Seq<u8>)
    requires
        0 <= pos <= s.len(),
        forall|k: int| 0 <= k < lines.len() ==> other_header(#[trigger] lines[k]),
        body.len() <= usize::MAX,
        s.subrange(pos, s.len() as int) == header_lines(lines) + seq![CR, LF] + frame(body),
    ensures
        decode_frame_spec(s, pos) == Decoded::Malformed(
            ProtocolError::MissingContentLength,
            pos + header_lines(lines).len() + 2,
        ),
        decode_frame_spec(s, pos + header_lines(lines).len() + 2) == Decoded::Complete(
            None,
            body,
            s.len() as int,
        ),
{
    let hl = header_lines(lines);
    let t = hl + seq![CR, LF] + frame(body);
    let p = pos + hl.len() + 2;
    assert(pos + t.len() == s.len());
    assert(s.subrange(pos, p) =~= hl + seq![CR, LF]) by {
        assert(s.subrange(pos, p) =~= t.subrange(0, hl.len() as int + 2));
    }
    assert(s.subrange(p, p + frame(body).len()) =~= frame(body)) by {
        assert(s.subrange(p, p + frame(body).len()) =~= t.subrange(hl.len() as int + 2, t.len() as int));
    }
    lemma_scan_other_headers(s, pos, lines, no_headers());
    lemma_decode_frame_at(s, p, body);
}

/// Decoding an encoded frame gives back the body that was encoded.
pub proof fn lemma_round_trip(body: Seq<u8>)
    requires
        body.len() <= usize::MAX,
    ensures
        decode_frame_spec(frame(body), 0) == Decoded::Complete(None, body, frame(body).len() as int),
{
    assert(frame(body).subrange(0, frame(body).len() as int) =~= frame(body));
    lemma_decode_frame_at(frame(body), 0, body);
}

/// Two frames written one after the other decode, one after the other, to
/// the two bodies, and the second starts exactly where the first ends.
pub proof fn lemma_frames_independent(b1: Seq<u8>, b2: Seq<u8>)
    requires
        b1.len() <= usize::MAX,
        b2.len() <= usize::MAX,
    ensures
        ({
            let s = frame(b1) + frame(b2);
            let n1 = frame(b1).len() as int;
            &&& decode_frame_spec(s, 0) == Decoded::Complete(None, b1, n1)
            &&& decode_frame_spec(s, n1) == Decoded::Complete(None, b2, s.len() as int)
        }),
{
    let s = frame(b1) + frame(b2);
    let n1 = frame(b1).len() as int;
    assert(s.subrange(0, n1) =~= frame(b1));
    assert(s.subrange(n1, n1 + frame(b2).len()) =~= frame(b2));
    lemma_decode_frame_at(s, 0, b1);
    lemma_decode_frame_at(s, n1, b2);
}

/// A frame declaring `Content-Length: 0` decodes to an empty body, at once,
/// even where nothing follows it in the stream.
pub proof fn lemma_empty_body(s: Seq<u8>, pos: int)
    requires
        0 <= pos <= s.len(),
        s.subrange(pos, s.len() as int) == frame(Seq::<u8>::empty()),
    ensures
        decode_frame_spec(s, pos) == Decoded::Complete(None, Seq::<u8>::empty(), s.len() as int),
{
    lemma_decode_frame_at(s, pos, Seq::<u8>::empty());
}

proof fn lemma_scan_within(s: Seq<u8>, i: int, h: HeaderFields)
    ensures
        scan_headers(s, i, h) matches HeaderScan::Complete(_, p) ==> i < p <= s.len(),
    decreases s.len() - i,
{
    if 0 <= i <= s.len() {
        lemma_line_end_bounds(s, i);
        let e = line_end(s, i);
        if e < s.len() {
            let line = drop_cr(s.subrange(i, e));
            if line.len() != 0 {
                lemma_scan_within(s, e + 1, apply_header(h, line));
            }
        }
    }
}

/// Decoding always moves forward and never past the end of the stream:
/// a frame ends, and a refused one is skipped to, at a position after `pos`
/// and within the stream.
pub proof fn lemma_decode_within(s: Seq<u8>, pos: int)
    ensures
        decode_frame_spec(s, pos) matches Decoded::Complete(_, _, n) ==> pos < n <= s.len(),
        decode_frame_spec(s, pos) matches Decoded::Malformed(_, p) ==> pos < p <= s.len(),
{
    lemma_scan_within(s, pos, no_headers());
}

} // verus!
