//! Texts and orderings the LSP client derives from diagnostics, edits and
//! locations: the inline hint, the tooltip header, the line span of a
//! diagnostic, the order in which edits are applied and the label of a
//! location in a picker.

use vstd::prelude::*;
use vstd::string::StringSliceAdditionalSpecFns;
use vstd::utf8::encode_utf8;

use crate::reflow::{lemma_word_end, word_end, words_from, ws_at};
use crate::swap::{replace_bytes, replace_bytes_spec};
use crate::text::{
    decimal, find_bytes_from, find_from, int_text, lemma_decimal_props, push_all, push_decimal,
    push_i64, push_range, trim, trim_bounds, ws_front,
};

verus! {

/// `\r\n` and lone `\r` both become `\n`.
pub open spec fn unify_newlines(m: Seq<u8>) -> Seq<u8> {
    replace_bytes_spec(
        replace_bytes_spec(m, seq![13u8, 10u8], seq![10u8]),
        seq![13u8],
        seq![10u8],
    )
}

/// Everything before the first `\n`.
pub open spec fn first_line(m: Seq<u8>) -> Seq<u8> {
    match find_from(m, seq![10u8], 0) {
        Some(i) => m.take(i),
        None => m,
    }
}

/// The words `ws` written one after another with one space between them;
/// `started` tells whether a word was written before.
pub open spec fn join_words(ws: Seq<Seq<u8>>, started: bool) -> Seq<u8>
    decreases ws.len(),
{
    if ws.len() == 0 {
        seq![]
    } else {
        (if started {
            seq![32u8]
        } else {
            seq![]
        }) + ws[0] + join_words(ws.drop_first(), true)
    }
}

/// The one-line hint for a diagnostic message: its first line, trimmed,
/// with each run of white space made one space; none when that line is
/// blank.
pub open spec fn inline_spec(m: Seq<u8>) -> Option<Seq<u8>> {
    let first = trim(first_line(unify_newlines(m)));
    if first.len() == 0 {
        None
    } else {
        Some(join_words(words_from(first, 0), false))
    }
}

fn unify_newlines_exec(m: &[u8]) -> (r: Vec<u8>)
    ensures
        r@ == unify_newlines(m@),
{
    let crlf: Vec<u8> = vec![13u8, 10u8];
    let cr: Vec<u8> = vec![13u8];
    let lf: Vec<u8> = vec![10u8];
    assert(crlf@ =~= seq![13u8, 10u8]);
    assert(cr@ =~= seq![13u8]);
    assert(lf@ =~= seq![10u8]);
    let a = replace_bytes(m, crlf.as_slice(), lf.as_slice());
    replace_bytes(a.as_slice(), cr.as_slice(), lf.as_slice())
}

fn collapse_words(b: &[u8]) -> (out: Vec<u8>)
    ensures
        out@ == join_words(words_from(b@, 0), false),
{
    let mut out: Vec<u8> = Vec::new();
    let mut started = false;
    let mut i: usize = 0;
    while i < b.len()
        invariant
            i <= b@.len(),
            join_words(words_from(b@, 0), false) == out@ + join_words(
                words_from(b@, i as int),
                started,
            ),
        decreases b@.len() - i,
    {
        let k = ws_front(b, i, b.len());
        if k > 0 {
            i = i + k;
        } else {
            proof {
                lemma_word_end(b@, i as int);
            }
            let mut j = i;
            while j < b.len() && ws_front(b, j, b.len()) == 0
                invariant
                    i <= j <= b@.len(),
                    word_end(b@, i as int) == word_end(b@, j as int),
                decreases b@.len() - j,
            {
                j = j + 1;
            }
            let ghost w = b@.subrange(i as int, j as int);
            let ghost rest = words_from(b@, j as int);
            assert((seq![w] + rest)[0] == w);
            assert((seq![w] + rest).drop_first() =~= rest);
            let ghost before = out@;
            let ghost started0 = started;
            if started {
                out.push(32);
            }
            push_range(&mut out, b, i, j);
            started = true;
            i = j;
            assert(before + join_words(seq![w] + rest, started0) =~= out@ + join_words(
                rest,
                true,
            ));
        }
    }
    out
}

/// The inline hint for a diagnostic whose message is `message` (`None` when
/// the diagnostic has no text message).
pub fn inline_diagnostic_text(message: Option<&str>) -> (r: Option<Vec<u8>>)
    ensures
        message is None ==> r is None,
        message matches Some(m) ==> (match inline_spec(m.spec_bytes()) {
            Some(t) => r matches Some(v) && v@ == t,
            None => r is None,
        }),
{
    let m = match message {
        Some(m) => m,
        None => return None,
    };
    let u = unify_newlines_exec(m.as_bytes());
    let lf: Vec<u8> = vec![10u8];
    assert(lf@ =~= seq![10u8]);
    let end = match find_bytes_from(u.as_slice(), lf.as_slice(), 0) {
        Some(i) => {
            proof {
                crate::text::lemma_find_from_props(u@, seq![10u8], 0);
            }
            i
        },
        None => u.len(),
    };
    let ghost line = first_line(u@);
    assert(u@.subrange(0, end as int) =~= line);
    let (a, b) = trim_bounds(u.as_slice(), 0, end);
    if a == b {
        return None;
    }
    let first = &u.as_slice()[a..b];
    assert(first@ =~= trim(line));
    Some(collapse_words(first))
}

/// The code of a diagnostic: text, an integer, or none.
pub enum DiagCode {
    Text(String),
    Int(i64),
    Absent,
}

/// The text shown for a diagnostic code.
pub open spec fn code_text(c: DiagCode) -> Seq<u8> {
    match c {
        DiagCode::Text(s) => encode_utf8(s@),
        DiagCode::Int(n) => int_text(n as int),
        DiagCode::Absent => seq![],
    }
}

/// The name of a severity: 1 error, 2 warning, 3 information, else hint.
pub open spec fn severity_label(sev: i64) -> Seq<u8> {
    if sev == 1 {
        seq![69u8, 114, 114, 111, 114]
    } else if sev == 2 {
        seq![87u8, 97, 114, 110, 105, 110, 103]
    } else if sev == 3 {
        seq![73u8, 110, 102, 111]
    } else {
        seq![72u8, 105, 110, 116]
    }
}

/// ` · ` (a middle dot between spaces), which separates the header parts.
pub open spec fn header_sep() -> Seq<u8> {
    seq![32u8, 0xC2, 0xB7, 32]
}

/// The tooltip header: the severity (information when unknown), then the
/// source and the code where they are not empty.
pub open spec fn tooltip_header(sev: Option<i64>, source: Option<Seq<u8>>, code: Seq<u8>) -> Seq<
    u8,
> {
    let label = severity_label(
        match sev {
            Some(n) => n,
            None => 3,
        },
    );
    let with_src = match source {
        Some(s) => if s.len() > 0 {
            label + header_sep() + s
        } else {
            label
        },
        None => label,
    };
    if code.len() > 0 {
        with_src + header_sep() + code
    } else {
        with_src
    }
}

/// The tooltip text of a diagnostic: the header, a new line, then the
/// message with its line ends unified; none without a text message.
pub open spec fn tooltip_spec(
    sev: Option<i64>,
    source: Option<Seq<u8>>,
    code: Seq<u8>,
    message: Option<Seq<u8>>,
) -> Option<Seq<u8>> {
    match message {
        Some(m) => Some(tooltip_header(sev, source, code) + seq![10u8] + unify_newlines(m)),
        None => None,
    }
}

fn push_label(out: &mut Vec<u8>, sev: i64)
    ensures
        final(out)@ == old(out)@ + severity_label(sev),
{
    let l: Vec<u8> = if sev == 1 {
        vec![69u8, 114, 114, 111, 114]
    } else if sev == 2 {
        vec![87u8, 97, 114, 110, 105, 110, 103]
    } else if sev == 3 {
        vec![73u8, 110, 102, 111]
    } else {
        vec![72u8, 105, 110, 116]
    };
    assert(l@ =~= severity_label(sev));
    push_all(out, l.as_slice());
}

fn push_sep(out: &mut Vec<u8>)
    ensures
        final(out)@ == old(out)@ + header_sep(),
{
    out.push(32);
    out.push(0xC2);
    out.push(0xB7);
    out.push(32);
    assert(out@ =~= old(out)@ + header_sep());
}

/// The tooltip text of a diagnostic with severity `severity` (when it is an
/// integer), source `source`, code `code` and message `message`.
pub fn diagnostic_tooltip_text(
    severity: Option<i64>,
    source: Option<&str>,
    code: &DiagCode,
    message: Option<&str>,
) -> (r: Option<Vec<u8>>)
    ensures
        match tooltip_spec(
            severity,
            match source {
                Some(s) => Some(s.spec_bytes()),
                None => None,
            },
            code_text(*code),
            match message {
                Some(m) => Some(m.spec_bytes()),
                None => None,
            },
        ) {
            Some(t) => r matches Some(v) && v@ == t,
            None => r is None,
        },
{
    let m = match message {
        Some(m) => m,
        None => return None,
    };
    let mut out: Vec<u8> = Vec::new();
    let sev = match severity {
        Some(n) => n,
        None => 3,
    };
    push_label(&mut out, sev);
    let ghost label = out@;
    assert(label == severity_label(
        match severity {
            Some(n) => n,
            None => 3,
        },
    ));
    match source {
        Some(s) => {
            if s.as_bytes().len() > 0 {
                push_sep(&mut out);
                push_all(&mut out, s.as_bytes());
                assert(out@ == label + header_sep() + s.spec_bytes());
            }
            assert(out@ == tooltip_header(severity, Some(s.spec_bytes()), seq![]));
        },
        None => {
            assert(out@ == tooltip_header(severity, None, seq![]));
        },
    }
    let ghost src_v: Option<Seq<u8>> = match source {
        Some(s) => Some(s.spec_bytes()),
        None => None,
    };
    assert(out@ =~= tooltip_header(severity, src_v, seq![]));
    let mut c: Vec<u8> = Vec::new();
    match code {
        DiagCode::Text(t) => {
            push_all(&mut c, t.as_str().as_bytes());
        },
        DiagCode::Int(n) => {
            push_i64(&mut c, *n);
        },
        DiagCode::Absent => {},
    }
    assert(c@ == code_text(*code));
    if c.len() > 0 {
        push_sep(&mut out);
        push_all(&mut out, c.as_slice());
    }
    assert(out@ =~= tooltip_header(severity, src_v, c@));
    out.push(10);
    let u = unify_newlines_exec(m.as_bytes());
    push_all(&mut out, u.as_slice());
    assert(out@ =~= tooltip_header(severity, src_v, c@) + seq![10u8] + unify_newlines(
        m.spec_bytes(),
    ));
    Some(out)
}

/// The first and last editor line (1-based) a diagnostic covers, from the
/// 0-based lines of its range's start and end; a missing start line counts
/// as 0 and a missing end as the start.  `None` without a range.
pub fn diagnostic_line_range(range: Option<(Option<i64>, Option<i64>)>) -> (r: Option<(i64, i64)>)
    requires
        range matches Some((s, e)) ==> (s matches Some(a) ==> a < i64::MAX) && (e matches Some(b)
            ==> b < i64::MAX),
    ensures
        range is None ==> r is None,
        range matches Some((s, e)) ==> ({
            let a: int = match s {
                Some(x) => x as int,
                None => 0,
            };
            let b: int = match e {
                Some(y) => y as int,
                None => a,
            };
            r == Some(((a + 1) as i64, (b + 1) as i64))
        }),
{
    match range {
        None => None,
        Some((s, e)) => {
            let a = match s {
                Some(x) => x,
                None => 0,
            };
            let b = match e {
                Some(y) => y,
                None => a,
            };
            Some((a + 1, b + 1))
        },
    }
}

/// Whether an edit starting at `(a_line, a_char)` is applied before one
/// starting at `(b_line, b_char)`: edits go from the end of the document to
/// its start, so later positions first.
pub open spec fn applied_before(a_line: i64, a_char: i64, b_line: i64, b_char: i64) -> bool {
    a_line > b_line || (a_line == b_line && a_char > b_char)
}

/// The order in which text edits are applied (later start positions first).
pub fn edit_applied_before(a_line: i64, a_char: i64, b_line: i64, b_char: i64) -> (r: bool)
    ensures
        r == applied_before(a_line, a_char, b_line, b_char),
{
    if a_line == b_line {
        a_char > b_char
    } else {
        a_line > b_line
    }
}

/// The edit order is a strict total order on start positions: no edit comes
/// before itself, of two edits at different positions exactly one comes
/// first, and it is transitive.  So a sort by it is well defined, and edits
/// never shift the positions of edits still to be applied.
pub proof fn edit_order_is_strict(
    a_line: i64,
    a_char: i64,
    b_line: i64,
    b_char: i64,
    c_line: i64,
    c_char: i64,
)
    ensures
        !applied_before(a_line, a_char, a_line, a_char),
        (a_line, a_char) != (b_line, b_char) ==> (applied_before(a_line, a_char, b_line, b_char)
            != applied_before(b_line, b_char, a_line, a_char)),
        applied_before(a_line, a_char, b_line, b_char) && applied_before(
            b_line,
            b_char,
            c_line,
            c_char,
        ) ==> applied_before(a_line, a_char, c_line, c_char),
{
}

/// The order of the positioned semantic tokens of a line: by position, then
/// by length.
pub open spec fn token_order(a_pos: i64, a_len: i64, b_pos: i64, b_len: i64) -> bool {
    a_pos < b_pos || (a_pos == b_pos && a_len < b_len)
}

/// Whether a semantic token at `a_pos` of `a_len` bytes is merged before one
/// at `b_pos` of `b_len`.
pub fn token_before(a_pos: i64, a_len: i64, b_pos: i64, b_len: i64) -> (r: bool)
    ensures
        r == token_order(a_pos, a_len, b_pos, b_len),
{
    if a_pos == b_pos {
        a_len < b_len
    } else {
        a_pos < b_pos
    }
}

/// The token order is a strict order, total on tokens that differ in
/// position or length.
pub proof fn token_order_is_strict(a: (i64, i64), b: (i64, i64), c: (i64, i64))
    ensures
        !token_order(a.0, a.1, a.0, a.1),
        a != b ==> token_order(a.0, a.1, b.0, b.1) != token_order(b.0, b.1, a.0, a.1),
        token_order(a.0, a.1, b.0, b.1) && token_order(b.0, b.1, c.0, c.1) ==> token_order(
            a.0,
            a.1,
            c.0,
            c.1,
        ),
{
}

/// `d` padded on the left with `0` to three digits.
pub open spec fn pad3(d: Seq<u8>) -> Seq<u8> {
    if d.len() < 3 {
        Seq::new((3 - d.len()) as nat, |i: int| 48u8) + d
    } else {
        d
    }
}

/// The label of the `index`-th location in a picker: the index in three
/// digits, the file's base name, and the 1-based line and column.
pub open spec fn location_label(index: nat, base: Seq<u8>, line: int, col: int) -> Seq<u8> {
    pad3(decimal(index)) + seq![32u8] + base + seq![58u8] + int_text(line) + seq![58u8] + int_text(
        col,
    )
}

/// The picker label of a location: `index`, the base name of its file, and
/// its 0-based start line and character (missing ones count as 0), shown
/// 1-based.
pub fn location_item_text(index: usize, base: &[u8], line: Option<i64>, character: Option<i64>) -> (r:
    Vec<u8>)
    requires
        line matches Some(l) ==> l < i64::MAX,
        character matches Some(c) ==> c < i64::MAX,
    ensures
        r@ == location_label(
            index as nat,
            base@,
            (match line {
                Some(l) => l as int,
                None => 0,
            }) + 1,
            (match character {
                Some(c) => c as int,
                None => 0,
            }) + 1,
        ),
{
    let mut digits: Vec<u8> = Vec::new();
    push_decimal(&mut digits, index);
    proof {
        lemma_decimal_props(index as nat);
    }
    let mut out: Vec<u8> = Vec::new();
    if digits.len() < 3 {
        let mut k = digits.len();
        while k < 3
            invariant
                digits@.len() <= k <= 3,
                out@ == Seq::new((k - digits@.len()) as nat, |i: int| 48u8),
            decreases 3 - k,
        {
            out.push(48);
            k = k + 1;
            assert(out@ =~= Seq::new((k - digits@.len()) as nat, |i: int| 48u8));
        }
    }
    push_all(&mut out, digits.as_slice());
    assert(out@ =~= pad3(decimal(index as nat)));
    out.push(32);
    push_all(&mut out, base);
    out.push(58);
    let l = match line {
        Some(l) => l,
        None => 0,
    };
    let c = match character {
        Some(c) => c,
        None => 0,
    };
    push_i64(&mut out, l + 1);
    out.push(58);
    push_i64(&mut out, c + 1);
    out
}

} // verus!
