//! Base-protocol framing of LSP messages: `Content-Length` headers,
//! splitting a byte stream into JSON bodies, and building frames.

use vstd::prelude::*;
use vstd::string::StringSliceAdditionalSpecFns;
use vstd::utf8::valid_utf8;

use crate::text::{
    byte_boundary, bytes_eq_ignore_ascii_case, decimal, eq_ignore_ascii_case, find_bytes_from,
    find_from, is_boundary, occurs_at, all_digits, lemma_decimal_props, lemma_find_from_first,
    lemma_find_from_none, trim_start, trim_end, ws_len_front, ws_len_back, digits_value, lemma_find_from_props, lemma_valid_start_boundary, parse_usize, parse_usize_spec, push_all,
    push_decimal, push_range, trim, trim_bounds,
};

verus! {

#[verifier::external_type_specification]
#[verifier::external_body]
pub struct ExJsonValue(serde_json::Value);

#[verifier::external_type_specification]
#[verifier::external_body]
pub struct ExJsonError(serde_json::Error);

/// Whether serde_json parses these bytes as one JSON document.
pub uninterp spec fn json_accepts(text: Seq<u8>) -> bool;

/// The value serde_json builds from these bytes, where it accepts them.
pub uninterp spec fn json_value(text: Seq<u8>) -> serde_json::Value;

/// The error serde_json reports for these bytes, where it rejects them.
pub uninterp spec fn json_error(text: Seq<u8>) -> serde_json::Error;

/// Calls `serde_json::from_slice::<Value>`; its result is `Ok` exactly when
/// serde_json accepts the bytes, and then holds the value serde_json builds
/// from them, else the error it reports; both depend on the bytes alone.
#[verifier::external_body]
fn json_from_slice(bytes: &[u8]) -> (r: Result<serde_json::Value, serde_json::Error>)
    ensures
        r is Ok <==> json_accepts(bytes@),
        r matches Ok(v) ==> v == json_value(bytes@),
        r matches Err(e) ==> e == json_error(bytes@),
{
    serde_json::from_slice(bytes)
}

/// `\r\n\r\n`, the end of a header block.
pub open spec fn header_sep() -> Seq<u8> {
    seq![13u8, 10, 13, 10]
}

/// `content-length`, the header name compared without ASCII case.
pub open spec fn content_length_key() -> Seq<u8> {
    seq![99u8, 111, 110, 116, 101, 110, 116, 45, 108, 101, 110, 103, 116, 104]
}

/// The length that one header line announces: the line splits at its first
/// `:`, the name must be `Content-Length` in any ASCII case, and the trimmed
/// value must parse as a `usize`.
pub open spec fn line_content_length(line: Seq<u8>) -> Option<nat> {
    match find_from(line, seq![58u8], 0) {
        None => None,
        Some(c) => if eq_ignore_ascii_case(line.take(c), content_length_key()) {
            parse_usize_spec(trim(line.skip(c + 1)))
        } else {
            None
        },
    }
}

/// The length given by the first header line (lines split at `\n`) that
/// announces one.
pub open spec fn header_content_length(h: Seq<u8>) -> Option<nat>
    decreases h.len(),
{
    match find_from(h, seq![10u8], 0) {
        None => line_content_length(h),
        Some(j) => if 0 <= j < h.len() {
            match line_content_length(h.take(j)) {
                Some(v) => Some(v),
                None => header_content_length(h.skip(j + 1)),
            }
        } else {
            None
        },
    }
}

/// One framing step on a buffer: `None` when no complete message is there
/// yet, `Some(None)` when a header block lacks a usable `Content-Length`, and
/// `Some(Some((s, e)))` when the body of the first message is `b[s..e]`.
pub open spec fn frame_step(b: Seq<u8>) -> Option<Option<(int, int)>> {
    match find_from(b, header_sep(), 0) {
        None => None,
        Some(h) => match header_content_length(b.take(h)) {
            None => Some(None),
            Some(n) => if h + 4 + n > b.len() {
                None
            } else {
                Some(Some((h + 4, h + 4 + n)))
            },
        },
    }
}

pub proof fn lemma_frame_step_bounds(b: Seq<u8>)
    ensures
        frame_step(b) matches Some(Some((s, e))) ==> 4 <= s <= e <= b.len(),
{
    lemma_find_from_props(b, header_sep(), 0);
}

/// Why decoding a buffer of messages failed.
pub enum DecodeError {
    /// A header block had no usable `Content-Length` line.
    MissingContentLength,
    /// A body was not a JSON document.
    Json(serde_json::Error),
    /// A body would start or end inside a UTF-8 character.
    SplitsCharacter,
}

/// The kinds of `DecodeError`, without the serde_json error value.
pub enum DecodeErrorKind {
    MissingContentLength,
    Json,
    SplitsCharacter,
}

impl DecodeError {
    pub open spec fn kind(self) -> DecodeErrorKind {
        match self {
            DecodeError::MissingContentLength => DecodeErrorKind::MissingContentLength,
            DecodeError::Json(_) => DecodeErrorKind::Json,
            DecodeError::SplitsCharacter => DecodeErrorKind::SplitsCharacter,
        }
    }
}

/// What decoding a text buffer gives: the values of the framed bodies, in
/// order, and the unconsumed rest, or the first failure met.
pub open spec fn decode_spec(b: Seq<u8>) -> Result<(Seq<serde_json::Value>, Seq<u8>), DecodeErrorKind>
    decreases b.len(),
{
    match frame_step(b) {
        None => Ok((Seq::empty(), b)),
        Some(None) => Err(DecodeErrorKind::MissingContentLength),
        Some(Some((s, e))) => if !(byte_boundary(b, s) && byte_boundary(b, e)) {
            Err(DecodeErrorKind::SplitsCharacter)
        } else if !json_accepts(b.subrange(s, e)) {
            Err(DecodeErrorKind::Json)
        } else {
            proof {
                lemma_frame_step_bounds(b);
            }
            match decode_spec(b.skip(e)) {
                Ok((vs, rest)) => Ok((seq![json_value(b.subrange(s, e))] + vs, rest)),
                Err(k) => Err(k),
            }
        },
    }
}

/// The body of the first frame that serde_json rejects, where decoding
/// stops at one.
pub open spec fn rejected_body(b: Seq<u8>) -> Seq<u8>
    decreases b.len(),
{
    match frame_step(b) {
        Some(Some((s, e))) => if !(byte_boundary(b, s) && byte_boundary(b, e)) {
            Seq::empty()
        } else if !json_accepts(b.subrange(s, e)) {
            b.subrange(s, e)
        } else {
            proof {
                lemma_frame_step_bounds(b);
            }
            rejected_body(b.skip(e))
        },
        _ => Seq::empty(),
    }
}

/// What the transport reader does with its buffer: the values of the bodies
/// it hands on, in order (malformed JSON bodies are skipped), and the bytes
/// it keeps.  A header block without a usable length empties the buffer.
pub open spec fn transport_spec(b: Seq<u8>) -> (Seq<serde_json::Value>, Seq<u8>)
    decreases b.len(),
{
    match frame_step(b) {
        None => (Seq::empty(), b),
        Some(None) => (Seq::empty(), Seq::empty()),
        Some(Some((s, e))) => {
            proof {
                lemma_frame_step_bounds(b);
            }
            let (vs, rest) = transport_spec(b.skip(e));
            (if json_accepts(b.subrange(s, e)) {
                seq![json_value(b.subrange(s, e))] + vs
            } else {
                vs
            }, rest)
        },
    }
}

/// The bytes of the header that precedes a body of `len` bytes.
pub open spec fn frame_header_spec(len: nat) -> Seq<u8> {
    seq![67u8, 111, 110, 116, 101, 110, 116, 45, 76, 101, 110, 103, 116, 104, 58, 32] + decimal(
        len,
    ) + header_sep()
}

/// The frame header, split at the point where its value starts.
proof fn lemma_frame_header_parses(n: nat)
    requires
        n <= usize::MAX,
    ensures
        find_from(frame_header_spec(n), header_sep(), 0) == Some(16 + decimal(n).len() as int),
        header_content_length(frame_header_spec(n).take(16 + decimal(n).len() as int)) == Some(n),
{
    let d = decimal(n);
    lemma_decimal_props(n);
    let prefix = seq![67u8, 111, 110, 116, 101, 110, 116, 45, 76, 101, 110, 103, 116, 104, 58, 32];
    let f = frame_header_spec(n);
    let hl: int = 16 + d.len() as int;
    let h = f.take(hl);
    assert(h =~= prefix + d);
    assert forall|j: int| 0 <= j < hl implies f[j] != 13 && f[j] != 10 by {
        if j >= 16 {
            assert(f[j] == d[j - 16]);
        }
    }
    assert forall|j: int| 0 <= j < hl implies !occurs_at(f, header_sep(), j) by {
        if occurs_at(f, header_sep(), j) {
            assert(f.subrange(j, j + 4)[0] == 13);
        }
    }
    assert(f.subrange(hl, hl + 4) =~= header_sep());
    lemma_find_from_first(f, header_sep(), 0, hl);
    // no newline in the header, so it is one line
    assert forall|j: int| 0 <= j implies !occurs_at(h, seq![10u8], j) by {
        if occurs_at(h, seq![10u8], j) {
            assert(h.subrange(j, j + 1)[0] == 10);
            assert(h[j] == f[j]);
        }
    }
    lemma_find_from_none(h, seq![10u8], 0);
    // the first colon is at index 14
    assert forall|j: int| 0 <= j < 14 implies !occurs_at(h, seq![58u8], j) by {
        if occurs_at(h, seq![58u8], j) {
            assert(h.subrange(j, j + 1)[0] == 58);
        }
    }
    assert(h.subrange(14, 15) =~= seq![58u8]);
    lemma_find_from_first(h, seq![58u8], 0, 14);
    assert(h.take(14) =~= seq![67u8, 111, 110, 116, 101, 110, 116, 45, 76, 101, 110, 103, 116, 104]);
    assert(eq_ignore_ascii_case(h.take(14), content_length_key()));
    let v = h.skip(15);
    assert(v =~= seq![32u8] + d);
    assert(ws_len_front(v) == 1);
    assert(v.skip(1) =~= d);
    assert(48 <= d[0] <= 57);
    assert(ws_len_front(d) == 0);
    assert(trim_start(v) == trim_start(d));
    assert(trim_start(d) == d);
    let m = d.len();
    assert(48 <= d[m - 1] <= 57);
    if m >= 2 {
        assert(d.subrange(m - 2, m as int)[0] == d[m - 2]);
        assert(48 <= d[m - 2] <= 57);
    }
    if m >= 3 {
        assert(d.subrange(m - 3, m as int)[0] == d[m - 3]);
        assert(48 <= d[m - 3] <= 57);
    }
    assert(ws_len_back(d) == 0);
    assert(trim_end(d) == d);
    assert(parse_usize_spec(d) == Some(n));
}

/// A frame built by `frame_header` around a JSON body, followed by any
/// bytes, decodes to that body's value and then to whatever the following
/// bytes decode to.
pub proof fn frame_then_decode(payload: Seq<u8>, rest: Seq<u8>)
    requires
        payload.len() <= usize::MAX,
        json_accepts(payload),
        byte_boundary(payload + rest, 0),
        byte_boundary(rest, 0),
    ensures
        decode_spec(frame_header_spec(payload.len()) + payload + rest) == match decode_spec(rest) {
            Ok((vs, x)) => Ok((seq![json_value(payload)] + vs, x)),
            Err(e) => Err(e),
        },
        transport_spec(frame_header_spec(payload.len()) + payload + rest) == (
            seq![json_value(payload)] + transport_spec(rest).0,
            transport_spec(rest).1,
        ),
{
    let n = payload.len();
    let hdr = frame_header_spec(n);
    let full = hdr + payload + rest;
    lemma_frame_header_parses(n);
    lemma_decimal_props(n);
    let hl: int = 16 + decimal(n).len() as int;
    assert(hdr.len() == hl + 4);
    // the separator found in the header alone is the first one in the whole buffer
    lemma_find_from_props(hdr, header_sep(), 0);
    assert forall|j: int| 0 <= j < hl implies !occurs_at(full, header_sep(), j) by {
        if occurs_at(full, header_sep(), j) {
            assert(full.subrange(j, j + 4) =~= hdr.subrange(j, j + 4));
        }
    }
    assert(full.subrange(hl, hl + 4) =~= hdr.subrange(hl, hl + 4));
    lemma_find_from_first(full, header_sep(), 0, hl);
    assert(full.take(hl) =~= hdr.take(hl));
    assert(frame_step(full) == Some(Some((hl + 4, hl + 4 + n))));
    assert(full.subrange(hl + 4, hl + 4 + n) =~= payload);
    assert(full.skip(hl + 4 + n) =~= rest);
    assert(byte_boundary(full, hl + 4)) by {
        if full.len() > hl + 4 {
            assert(full[hl + 4] == (payload + rest)[0]);
        }
    }
    assert(byte_boundary(full, hl + 4 + n)) by {
        if full.len() > hl + 4 + n {
            assert(full[hl + 4 + n] == rest[0]);
        }
    }
}

/// A frame built by `frame_header`: the header, then the body.
pub open spec fn frame_spec(payload: Seq<u8>) -> Seq<u8> {
    frame_header_spec(payload.len()) + payload
}

/// A frame cut short (any proper prefix of one, the empty one included)
/// is left for later: it decodes to no message and stays as it is.
pub proof fn incomplete_frame_waits(payload: Seq<u8>, m: int)
    requires
        payload.len() <= usize::MAX,
        0 <= m < frame_spec(payload).len(),
    ensures
        decode_spec(frame_spec(payload).take(m)) == Ok::<(Seq<serde_json::Value>, Seq<u8>), DecodeErrorKind>(
            (Seq::empty(), frame_spec(payload).take(m)),
        ),
        transport_spec(frame_spec(payload).take(m)) == (Seq::<serde_json::Value>::empty(), frame_spec(payload).take(m)),
{
    let n = payload.len();
    let f = frame_header_spec(n);
    lemma_frame_header_parses(n);
    lemma_decimal_props(n);
    let hl: int = 16 + decimal(n).len() as int;
    assert(f.len() == hl + 4);
    lemma_find_from_props(f, header_sep(), 0);
    let full = frame_spec(payload);
    let t = full.take(m);
    assert forall|j: int| 0 <= j < hl implies !occurs_at(t, header_sep(), j) by {
        if occurs_at(t, header_sep(), j) {
            assert(t.subrange(j, j + 4) =~= f.subrange(j, j + 4));
        }
    }
    if m < hl + 4 {
        assert forall|j: int| 0 <= j implies !occurs_at(t, header_sep(), j) by {
            if occurs_at(t, header_sep(), j) {
                assert(j < hl);
            }
        }
        lemma_find_from_none(t, header_sep(), 0);
    } else {
        assert(t.subrange(hl, hl + 4) =~= f.subrange(hl, hl + 4));
        lemma_find_from_first(t, header_sep(), 0, hl);
        assert(t.take(hl) =~= f.take(hl));
    }
    assert(frame_step(t) is None);
}

/// Complete frames decode to their bodies' values in order, and an
/// incomplete frame after them is left as the rest.
pub proof fn frames_decode_in_order(p1: Seq<u8>, p2: Seq<u8>, p3: Seq<u8>, m: int)
    requires
        p1.len() <= usize::MAX,
        p2.len() <= usize::MAX,
        p3.len() <= usize::MAX,
        json_accepts(p1),
        json_accepts(p2),
        valid_utf8(p1),
        valid_utf8(p2),
        0 <= m < frame_spec(p3).len(),
    ensures
        decode_spec(frame_spec(p1) + frame_spec(p2) + frame_spec(p3).take(m)) == Ok::<
            (Seq<serde_json::Value>, Seq<u8>),
            DecodeErrorKind,
        >((seq![json_value(p1), json_value(p2)], frame_spec(p3).take(m))),
{
    let tail = frame_spec(p3).take(m);
    incomplete_frame_waits(p3, m);
    lemma_valid_start_boundary(p1);
    lemma_valid_start_boundary(p2);
    let f2 = frame_header_spec(p2.len());
    let f3 = frame_header_spec(p3.len());
    assert(f2[0] == 67u8);
    assert(f3[0] == 67u8);
    if m > 0 {
        assert(tail[0] == 67u8);
    }
    assert(byte_boundary(tail, 0));
    if p2.len() > 0 {
        assert((p2 + tail)[0] == p2[0]);
    } else {
        assert(p2 + tail =~= tail);
    }
    frame_then_decode(p2, tail);
    let rest = frame_spec(p2) + tail;
    assert(rest =~= f2 + p2 + tail);
    assert(rest[0] == 67u8);
    if p1.len() > 0 {
        assert((p1 + rest)[0] == p1[0]);
    } else {
        assert(p1 + rest =~= rest);
    }
    frame_then_decode(p1, rest);
    assert(frame_spec(p1) + frame_spec(p2) + tail =~= frame_header_spec(p1.len()) + p1 + rest);
    assert(seq![json_value(p1)] + (seq![json_value(p2)] + Seq::<serde_json::Value>::empty()) =~= seq![
        json_value(p1),
        json_value(p2),
    ]);
}

/// Exec counterpart of one framing step.
pub enum Framing {
    Incomplete,
    MissingLength,
    Frame { body_start: usize, body_end: usize },
}

fn is_content_length_key(k: &[u8]) -> (r: bool)
    ensures
        r == eq_ignore_ascii_case(k@, content_length_key()),
{
    let key: [u8; 14] = [99, 111, 110, 116, 101, 110, 116, 45, 108, 101, 110, 103, 116, 104];
    assert(key@ =~= content_length_key());
    bytes_eq_ignore_ascii_case(k, key.as_slice())
}

fn line_content_length_exec(line: &[u8]) -> (r: Option<usize>)
    ensures
        r matches Some(v) ==> line_content_length(line@) == Some(v as nat),
        r is None ==> line_content_length(line@) is None,
{
    let colon: [u8; 1] = [58];
    assert(colon@ =~= seq![58u8]);
    match find_bytes_from(line, colon.as_slice(), 0) {
        None => None,
        Some(c) => {
            proof {
                lemma_find_from_props(line@, seq![58u8], 0);
            }
            let key = &line[0..c];
            assert(key@ =~= line@.take(c as int));
            if is_content_length_key(key) {
                let (a, b) = trim_bounds(line, c + 1, line.len());
                assert(line@.subrange(c + 1, line@.len() as int) =~= line@.skip(c + 1));
                let r = parse_usize(line, a, b);
                r
            } else {
                None
            }
        },
    }
}

/// The `Content-Length` announced by a header block.
pub fn header_content_length_exec(h: &[u8]) -> (r: Option<usize>)
    ensures
        r matches Some(v) ==> header_content_length(h@) == Some(v as nat),
        r is None ==> header_content_length(h@) is None,
{
    let nl: [u8; 1] = [10];
    assert(nl@ =~= seq![10u8]);
    let mut start: usize = 0;
    assert(h@.skip(0) =~= h@);
    while start <= h.len()
        invariant
            start <= h@.len(),
            nl@ == seq![10u8],
            header_content_length(h@) == header_content_length(h@.skip(start as int)),
        decreases h@.len() - start,
    {
        let rest = &h[start..h.len()];
        assert(rest@ =~= h@.skip(start as int));
        match find_bytes_from(rest, nl.as_slice(), 0) {
            None => {
                return line_content_length_exec(rest);
            },
            Some(j) => {
                proof {
                    lemma_find_from_props(rest@, seq![10u8], 0);
                }
                let line = &rest[0..j];
                assert(line@ =~= rest@.take(j as int));
                match line_content_length_exec(line) {
                    Some(v) => {
                        return Some(v);
                    },
                    None => {
                        assert(rest@.skip(j + 1) =~= h@.skip(start + j + 1));
                        start = start + j + 1;
                    },
                }
            },
        }
    }
    None
}

/// One framing step on `b`, as `frame_step` states it.
pub fn frame_step_exec(b: &[u8]) -> (r: Framing)
    ensures
        r is Incomplete <==> frame_step(b@) is None,
        r is MissingLength <==> frame_step(b@) == Some(None::<(int, int)>),
        r matches Framing::Frame { body_start, body_end } ==> frame_step(b@) == Some(
            Some((body_start as int, body_end as int)),
        ),
{
    let sep: [u8; 4] = [13, 10, 13, 10];
    assert(sep@ =~= header_sep());
    proof {
        lemma_find_from_props(b@, header_sep(), 0);
    }
    match find_bytes_from(b, sep.as_slice(), 0) {
        None => Framing::Incomplete,
        Some(h) => {
            assert(occurs_at(b@, header_sep(), h as int));
            assert(header_sep().len() == 4);
            let bl = b.len();
            assert(h + 4 <= bl);
            let header = &b[0..h];
            assert(header@ =~= b@.take(h as int));
            match header_content_length_exec(header) {
                None => Framing::MissingLength,
                Some(n) => {
                    let body_start = h + 4;
                    if n > b.len() - body_start {
                        Framing::Incomplete
                    } else {
                        Framing::Frame { body_start, body_end: body_start + n }
                    }
                },
            }
        },
    }
}

/// Splits `buffer` into the LSP messages it holds.  Returns the decoded JSON
/// bodies in order and the unconsumed tail (an incomplete message), or the
/// first failure.
pub fn decode_messages(buffer: &str) -> (r: Result<(Vec<serde_json::Value>, Vec<u8>), DecodeError>)
    ensures
        match decode_spec(buffer.spec_bytes()) {
            Ok((vals, rest)) => r matches Ok((msgs, rem)) && msgs@ == vals && rem@ == rest,
            Err(k) => r matches Err(e) && e.kind() == k,
        },
        r matches Err(DecodeError::Json(e)) ==> e == json_error(rejected_body(buffer.spec_bytes())),
{
    let bytes = buffer.as_bytes();
    let mut rest: Vec<u8> = Vec::new();
    push_all(&mut rest, bytes);
    assert(rest@ =~= bytes@);
    let mut msgs: Vec<serde_json::Value> = Vec::new();
    loop
        invariant
            bytes@ == buffer.spec_bytes(),
            decode_spec(bytes@) == match decode_spec(rest@) {
                Ok((vs, x)) => Ok((msgs@ + vs, x)),
                Err(k) => Err(k),
            },
            rejected_body(bytes@) == rejected_body(rest@),
        decreases rest@.len(),
    {
        proof {
            lemma_frame_step_bounds(rest@);
        }
        match frame_step_exec(rest.as_slice()) {
            Framing::Incomplete => {
                return Ok((msgs, rest));
            },
            Framing::MissingLength => {
                return Err(DecodeError::MissingContentLength);
            },
            Framing::Frame { body_start, body_end } => {
                if !is_boundary(rest.as_slice(), body_start) || !is_boundary(
                    rest.as_slice(),
                    body_end,
                ) {
                    return Err(DecodeError::SplitsCharacter);
                }
                let body = &rest.as_slice()[body_start..body_end];
                let ghost before = msgs@;
                match json_from_slice(body) {
                    Ok(v) => {
                        msgs.push(v);
                    },
                    Err(e) => {
                        return Err(DecodeError::Json(e));
                    },
                }
                let mut next: Vec<u8> = Vec::new();
                push_range(&mut next, rest.as_slice(), body_end, rest.len());
                assert(next@ =~= rest@.skip(body_end as int));
                assert(body@ =~= rest@.subrange(body_start as int, body_end as int));
                proof {
                    match decode_spec(next@) {
                        Ok((vs, x)) => {
                            assert(msgs@ + vs =~= before + (seq![msgs@.last()] + vs));
                        },
                        Err(_) => {},
                    }
                }
                rest = next;
            },
        }
    }
}

/// The transport's reader step: takes every complete message out of
/// `buffer`, returns the bodies that parse as JSON (others are skipped), and
/// leaves the incomplete tail in `buffer`.  A header block without a usable
/// `Content-Length` makes it drop the whole buffer.
pub fn parse_messages(buffer: &mut Vec<u8>) -> (out: Vec<serde_json::Value>)
    ensures
        out@ == transport_spec(old(buffer)@).0,
        final(buffer)@ == transport_spec(old(buffer)@).1,
{
    let mut out: Vec<serde_json::Value> = Vec::new();
    loop
        invariant
            transport_spec(old(buffer)@) == ({
                let (vs, x) = transport_spec(buffer@);
                (out@ + vs, x)
            }),
        decreases buffer@.len(),
    {
        proof {
            lemma_frame_step_bounds(buffer@);
        }
        match frame_step_exec(buffer.as_slice()) {
            Framing::Incomplete => {
                return out;
            },
            Framing::MissingLength => {
                buffer.clear();
                return out;
            },
            Framing::Frame { body_start, body_end } => {
                let body = &buffer.as_slice()[body_start..body_end];
                let ghost before = out@;
                match json_from_slice(body) {
                    Ok(v) => {
                        out.push(v);
                    },
                    Err(_) => {},
                }
                let mut next: Vec<u8> = Vec::new();
                push_range(&mut next, buffer.as_slice(), body_end, buffer.len());
                assert(next@ =~= buffer@.skip(body_end as int));
                assert(body@ =~= buffer@.subrange(body_start as int, body_end as int));
                proof {
                    let vs = transport_spec(next@).0;
                    if out@.len() > before.len() {
                        assert(out@ + vs =~= before + (seq![out@.last()] + vs));
                    }
                }
                *buffer = next;
            },
        }
    }
}

/// The header `Content-Length: <len>\r\n\r\n` for a body of `len` bytes.
pub fn frame_header(len: usize) -> (out: Vec<u8>)
    ensures
        out@ == frame_header_spec(len as nat),
{
    let prefix: [u8; 16] = [67, 111, 110, 116, 101, 110, 116, 45, 76, 101, 110, 103, 116, 104, 58, 32];
    let sep: [u8; 4] = [13, 10, 13, 10];
    let mut out: Vec<u8> = Vec::new();
    push_all(&mut out, prefix.as_slice());
    push_decimal(&mut out, len);
    push_all(&mut out, sep.as_slice());
    assert(out@ =~= frame_header_spec(len as nat));
    out
}

/// A complete message: header followed by the JSON text.
pub fn encode_message(json: &str) -> (out: Vec<u8>)
    ensures
        out@ == frame_header_spec(json.spec_bytes().len()) + json.spec_bytes(),
{
    let bytes = json.as_bytes();
    let mut out = frame_header(bytes.len());
    push_all(&mut out, bytes);
    out
}

} // verus!
