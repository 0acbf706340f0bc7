//! Project search and replace: plain, fuzzy and regex matching on lines,
//! result previews, replace-all and the two-way swap.

use vstd::prelude::*;
use vstd::utf8::encode_utf8;
use vstd::std_specs::iter::IteratorSpec;
use vstd::string::{StrSliceExecFns, StringExecFns, StringSliceAdditionalSpecFns};

use vstd::utf8::{encode_utf8_valid_utf8, is_ascii_chars, is_ascii_chars_encode_utf8, valid_utf8, valid_utf8_concat};

use crate::text::{
    lemma_valid_subrange, byte_boundary, find_bytes_from, find_from, lemma_find_from_props, occurs_at, push_all,
    push_range, is_boundary,
};

verus! {

broadcast use {vstd::string::axiom_spec_iter, vstd::string::next_postcondition};

/// The lower-case form that `str::to_lowercase` gives of a string.
pub uninterp spec fn lowercase(s: Seq<char>) -> Seq<char>;

/// The ASCII lower-case form of a char: `A`..=`Z` become `a`..=`z`.
pub open spec fn ascii_lower_char(c: char) -> char {
    if 'A' <= c <= 'Z' {
        ((c as u32) + 32) as char
    } else {
        c
    }
}

/// Calls `str::to_lowercase`; the result is named `lowercase`.  The
/// standard library maps every char to one or more chars, so a non-empty
/// string stays non-empty; the Unicode lower-case mapping of an ASCII char
/// is its ASCII lower-case form, one char for one.
///  Like every `String`, the result holds at most `isize::MAX` bytes.
#[verifier::external_body]
fn str_to_lowercase(s: &str) -> (r: String)
    ensures
        r@ == lowercase(s@),
        s@.len() > 0 ==> r@.len() > 0,
        encode_utf8(r@).len() <= isize::MAX,
        is_ascii_chars(s@) ==> r@.len() == s@.len() && forall|i: int|
            0 <= i < s@.len() ==> #[trigger] r@[i] == ascii_lower_char(s@[i]),
{
    s.to_lowercase()
}

/// The text a case-insensitive or case-sensitive search looks at.
pub open spec fn lower_chars(t: Seq<char>, no_case: bool) -> Seq<char> {
    if no_case {
        lowercase(t)
    } else {
        t
    }
}

/// `text`, lower-cased when `no_case` is set.
pub fn lower_if(text: &str, no_case: bool) -> (r: String)
    requires
        text.spec_bytes().len() <= isize::MAX,
    ensures
        r@ == lower_chars(text@, no_case),
        text@.len() > 0 ==> r@.len() > 0,
        encode_utf8(r@).len() <= isize::MAX,
        is_ascii_chars(text@) ==> is_ascii_chars(r@) && encode_utf8(r@).len() == text.spec_bytes().len(),
{
    proof {
        if is_ascii_chars(text@) {
            is_ascii_chars_encode_utf8(text@);
        }
    }
    if no_case {
        let r = str_to_lowercase(text);
        proof {
            if is_ascii_chars(text@) {
                assert forall|i: int| 0 <= i < r@.len() implies '\0' <= #[trigger] r@[i] <= '\u{7f}' by {
                    assert(r@[i] == ascii_lower_char(text@[i]));
                    assert('\0' <= text@[i] <= '\u{7f}');
                }
                is_ascii_chars_encode_utf8(r@);
            }
        }
        r
    } else {
        text.to_owned()
    }
}

/// Greedy subsequence match of `q[k..]` against `h[i..]`: the index just
/// past the char of `h` that completes the match.
pub open spec fn fuzzy_from(h: Seq<char>, q: Seq<char>, i: int, k: int) -> Option<int>
    decreases h.len() - i,
{
    if i < 0 || i >= h.len() || k < 0 || k >= q.len() {
        None
    } else if h[i] == q[k] {
        if k + 1 == q.len() {
            Some(i + 1)
        } else {
            fuzzy_from(h, q, i + 1, k + 1)
        }
    } else {
        fuzzy_from(h, q, i + 1, k)
    }
}

/// The 1-based char column at which `query` is completed as a subsequence
/// of `line` (both lower-cased when `no_case`); `None` for an empty query.
pub open spec fn fuzzy_spec(line: Seq<char>, query: Seq<char>, no_case: bool) -> Option<int> {
    let q = lower_chars(query, no_case);
    if q.len() == 0 {
        None
    } else {
        fuzzy_from(lower_chars(line, no_case), q, 0, 0)
    }
}

/// Fuzzy match: the chars of `query` appear in `line` in order.  Returns the
/// 1-based char index of the char that completes the match.
pub fn fuzzy_match_line(line: &str, query: &str, no_case: bool) -> (r: Option<usize>)
    requires
        line.spec_bytes().len() <= isize::MAX,
        query.spec_bytes().len() <= isize::MAX,
    ensures
        r matches Some(c) ==> fuzzy_spec(line@, query@, no_case) == Some(c as int),
        r is None ==> fuzzy_spec(line@, query@, no_case) is None,
{
    let hay = lower_if(line, no_case);
    let needle = lower_if(query, no_case);
    let ghost h = hay@;
    let ghost q = needle@;
    let hlen = hay.as_str().unicode_len();
    let qlen = needle.as_str().unicode_len();
    let mut qchars = needle.as_str().chars();
    let mut current = match qchars.next() {
        Some(c) => c,
        None => {
            return None;
        },
    };
    let mut k: usize = 0;
    let mut hchars = hay.as_str().chars();
    let mut idx: usize = 0;
    assert(h.skip(0) =~= h);
    loop
        invariant
            h == lower_chars(line@, no_case),
            q == lower_chars(query@, no_case),
            q.len() > 0,
            hlen == h.len(),
            qlen == q.len(),
            k < q.len(),
            current == q[k as int],
            qchars.remaining() == q.skip(k + 1),
            idx <= h.len(),
            hchars.remaining() == h.skip(idx as int),
            fuzzy_spec(line@, query@, no_case) == fuzzy_from(h, q, idx as int, k as int),
        decreases h.len() - idx,
    {
        match hchars.next() {
            None => {
                return None;
            },
            Some(ch) => {
                assert(ch == h[idx as int]);
                if ch == current {
                    match qchars.next() {
                        Some(next) => {
                            assert(q.skip(k + 1).drop_first() =~= q.skip(k + 2));
                            current = next;
                            k = k + 1;
                        },
                        None => {
                            assert(k + 1 == q.len());
                            return Some(idx + 1);
                        },
                    }
                }
                assert(h.skip(idx as int).drop_first() =~= h.skip(idx + 1));
                idx = idx + 1;
            },
        }
    }
}

/// Why a search or replace step could not go on: the text would be cut
/// outside its bounds or inside a UTF-8 character (where `str` slicing
/// panics).
pub enum SliceError {
    BadCut,
}

/// The preview shown for a hit at byte column `start_col` (1-based): at most
/// 256 bytes starting up to 80 bytes before the hit, with `...` marking cut
/// ends.  `None` when the cut is not a valid `str` slice.
pub open spec fn preview_spec(l: Seq<u8>, start_col: int) -> Option<Seq<u8>> {
    let start_index = if start_col - 80 > 1 { start_col - 80 } else { 1 };
    let limit = 256 + start_index - 1;
    let end = if l.len() < limit { l.len() as int } else { limit };
    let from = if start_index > 1 { start_index - 1 } else { 0 };
    if !slice_ok_spec(l, from, end) {
        None
    } else {
        let body = l.subrange(from, end);
        let head = if start_index > 1 { seq![46u8, 46, 46] + body } else { body };
        Some(if l.len() > limit { head + seq![46u8, 46, 46] } else { head })
    }
}

pub open spec fn slice_ok_spec(l: Seq<u8>, a: int, b: int) -> bool {
    0 <= a <= b <= l.len() && byte_boundary(l, a) && byte_boundary(l, b)
}

/// The preview text of a search hit; see `preview_spec`.
pub fn preview_text(line: &str, start_col: usize) -> (r: Result<Vec<u8>, SliceError>)
    requires
        line.spec_bytes().len() <= isize::MAX,
    ensures
        r matches Ok(t) ==> preview_spec(line.spec_bytes(), start_col as int) == Some(t@),
        r is Err ==> preview_spec(line.spec_bytes(), start_col as int) is None,
{
    let l = line.as_bytes();
    if start_col >= 81 && start_col - 81 > l.len() {
        return Err(SliceError::BadCut);
    }
    let start_index: usize = if start_col >= 81 && start_col - 80 > 1 {
        start_col - 80
    } else {
        1
    };
    let limit = 256 + start_index - 1;
    let end = if l.len() < limit {
        l.len()
    } else {
        limit
    };
    let from = if start_index > 1 {
        start_index - 1
    } else {
        0
    };
    if from > end || !is_boundary(l, from) || !is_boundary(l, end) {
        return Err(SliceError::BadCut);
    }
    let mut out: Vec<u8> = Vec::new();
    if start_index > 1 {
        out.push(46);
        out.push(46);
        out.push(46);
    }
    push_range(&mut out, l, from, end);
    if l.len() > limit {
        out.push(46);
        out.push(46);
        out.push(46);
    }
    proof {
        let ghost body = l@.subrange(from as int, end as int);
        if start_index > 1 {
            if l@.len() > limit {
                assert(out@ =~= seq![46u8, 46, 46] + body + seq![46u8, 46, 46]);
            } else {
                assert(out@ =~= seq![46u8, 46, 46] + body);
            }
        } else {
            if l@.len() > limit {
                assert(out@ =~= body + seq![46u8, 46, 46]);
            } else {
                assert(out@ =~= body);
            }
        }
    }
    Ok(out)
}

/// The bytes searched for `t`: its UTF-8 encoding, lower-cased first when
/// `no_case`.
pub open spec fn search_bytes(t: Seq<char>, no_case: bool) -> Seq<u8> {
    encode_utf8(lower_chars(t, no_case))
}

/// Plain find from the 1-based byte column `start`: `None` when the search
/// would start outside the text or inside a character, else the 1-based
/// `(start, end)` columns of the first occurrence, if any.
pub open spec fn plain_find_spec(hay: Seq<u8>, needle: Seq<u8>, start: int) -> Option<
    Option<(int, int)>,
> {
    let from = if start >= 1 { start - 1 } else { 0 };
    if !(from <= hay.len() && byte_boundary(hay, from)) {
        None
    } else {
        match find_from(hay, needle, from) {
            None => Some(None),
            Some(i) => Some(Some((start + (i - from), start + (i - from) + needle.len()))),
        }
    }
}

fn plain_find_bytes(hay: &[u8], needle: &[u8], start: usize) -> (r: Result<
    Option<(usize, usize)>,
    SliceError,
>)
    requires
        hay@.len() <= isize::MAX,
    ensures
        r matches Ok(o) ==> plain_find_spec(hay@, needle@, start as int) == Some(
            match o {
                Some((a, b)) => Some((a as int, b as int)),
                None => None::<(int, int)>,
            },
        ),
        r is Err ==> plain_find_spec(hay@, needle@, start as int) is None,
{
    let from = if start >= 1 {
        start - 1
    } else {
        0
    };
    if from > hay.len() || !is_boundary(hay, from) {
        return Err(SliceError::BadCut);
    }
    proof {
        lemma_find_from_props(hay@, needle@, from as int);
    }
    match find_bytes_from(hay, needle, from) {
        None => Ok(None),
        Some(i) => {
            let s = start + (i - from);
            Ok(Some((s, s + needle.len())))
        },
    }
}

/// Finds `query` in `content` from the 1-based byte column `start`,
/// comparing lower-cased text when `no_case`.  Returns the 1-based
/// `(start, end)` columns of the match.
pub fn plain_find(content: &str, query: &str, no_case: bool, start: usize) -> (r: Result<
    Option<(usize, usize)>,
    SliceError,
>)
    requires
        content.spec_bytes().len() <= isize::MAX,
        query.spec_bytes().len() <= isize::MAX,
    ensures
        r matches Ok(o) ==> plain_find_spec(
            search_bytes(content@, no_case),
            search_bytes(query@, no_case),
            start as int,
        ) == Some(
            match o {
                Some((a, b)) => Some((a as int, b as int)),
                None => None::<(int, int)>,
            },
        ),
        r is Err ==> plain_find_spec(
            search_bytes(content@, no_case),
            search_bytes(query@, no_case),
            start as int,
        ) is None,
{
    let hay = lower_if(content, no_case);
    let needle = lower_if(query, no_case);
    plain_find_bytes(hay.as_str().as_bytes(), needle.as_str().as_bytes(), start)
}

/// Replace-all from 1-based column `pos`: the rebuilt text and the number of
/// replacements, or `None` where a cut would fall outside the text or inside
/// a character.  Matches are looked up in `hay`; the kept text is cut from
/// `c`.
pub open spec fn replace_plain_from(
    c: Seq<u8>,
    hay: Seq<u8>,
    needle: Seq<u8>,
    rep: Seq<u8>,
    pos: int,
) -> Option<(Seq<u8>, nat)>
    decreases hay.len() + 2 - pos,
{
    if pos < 1 || needle.len() == 0 {
        None
    } else {
        match plain_find_spec(hay, needle, pos) {
            None => None,
            Some(None) => if slice_ok_spec(c, pos - 1, c.len() as int) {
                Some((c.skip(pos - 1), 0))
            } else {
                None
            },
            Some(Some((s, e))) => if !slice_ok_spec(c, pos - 1, s - 1) {
                None
            } else {
                proof {
                    lemma_find_from_props(hay, needle, pos - 1);
                }
                match replace_plain_from(c, hay, needle, rep, e) {
                    Some((t, k)) => Some((c.subrange(pos - 1, s - 1) + rep + t, k + 1)),
                    None => None,
                }
            },
        }
    }
}

/// Bytes that are all ASCII.
pub open spec fn ascii_bytes(b: Seq<u8>) -> bool {
    forall|i: int| 0 <= i < b.len() ==> #[trigger] b[i] < 128
}

proof fn lemma_ascii_chars_bytes(t: Seq<char>)
    requires
        is_ascii_chars(t),
    ensures
        ascii_bytes(encode_utf8(t)),
{
    is_ascii_chars_encode_utf8(t);
    assert forall|i: int| 0 <= i < encode_utf8(t).len() implies #[trigger] encode_utf8(t)[i] < 128 by {
        let c = t[i];
        assert('\0' <= c <= '\u{7f}');
        let u = c as u32;
        assert(u < 128);
        assert(u < 128 ==> (u as u8) < 128) by (bit_vector);
        assert(encode_utf8(t)[i] == t[i] as u8);
    }
}

/// On ASCII text every cut is at a character boundary, so replacing from
/// any column inside the text succeeds.
proof fn lemma_replace_plain_ascii(c: Seq<u8>, hay: Seq<u8>, needle: Seq<u8>, rep: Seq<u8>, pos: int)
    requires
        ascii_bytes(c),
        ascii_bytes(hay),
        c.len() == hay.len(),
        needle.len() > 0,
        1 <= pos <= hay.len() + 1,
    ensures
        replace_plain_from(c, hay, needle, rep, pos) is Some,
    decreases hay.len() + 2 - pos,
{
    let from = pos - 1;
    if from < hay.len() {
        assert(hay[from] < 128);
        assert(c[from] < 128);
    }
    lemma_find_from_props(hay, needle, from);
    match find_from(hay, needle, from) {
        None => {},
        Some(i) => {
            let s = pos + (i - from);
            let e = s + needle.len();
            if s - 1 < c.len() {
                assert(c[s - 1] < 128);
            }
            lemma_replace_plain_ascii(c, hay, needle, rep, e);
        },
    }
}

proof fn lemma_valid_after_prefix(n: Seq<u8>, b: Seq<u8>)
    requires
        valid_utf8(n),
        valid_utf8(n + b),
    ensures
        valid_utf8(b),
    decreases n.len(),
{
    if n.len() == 0 {
        assert(n + b =~= b);
    } else {
        let x = n + b;
        let k = vstd::utf8::length_of_first_scalar(n);
        assert(n.len() >= k);
        assert forall|j: int| 0 <= j < k implies x[j] == n[j] by {}
        assert(x[0] == n[0]);
        if k >= 2 {
            assert(x[1] == n[1]);
        }
        if k >= 3 {
            assert(x[2] == n[2]);
        }
        if k >= 4 {
            assert(x[3] == n[3]);
        }
        assert(vstd::utf8::length_of_first_scalar(x) == k);
        assert(vstd::utf8::pop_first_scalar(x) =~= vstd::utf8::pop_first_scalar(n) + b);
        lemma_valid_after_prefix(vstd::utf8::pop_first_scalar(n), b);
    }
}

/// In valid UTF-8 text, a valid UTF-8 needle found at a character boundary
/// ends at one too, so a case-sensitive replace from a boundary succeeds.
proof fn lemma_replace_plain_utf8(c: Seq<u8>, needle: Seq<u8>, rep: Seq<u8>, pos: int)
    requires
        valid_utf8(c),
        valid_utf8(needle),
        needle.len() > 0,
        1 <= pos <= c.len() + 1,
        byte_boundary(c, pos - 1),
    ensures
        replace_plain_from(c, c, needle, rep, pos) is Some,
    decreases c.len() + 2 - pos,
{
    let from = pos - 1;
    lemma_find_from_props(c, needle, from);
    match find_from(c, needle, from) {
        None => {},
        Some(i) => {
            crate::text::lemma_valid_start_boundary(needle);
            assert(c.subrange(i, i + needle.len()) == needle);
            assert(c[i] == needle[0]);
            assert(byte_boundary(c, i));
            let e = i + needle.len();
            if e < c.len() {
                crate::text::lemma_boundary_is_char_boundary(c, i);
                vstd::utf8::valid_utf8_split(c, i);
                let rest = c.subrange(e, c.len() as int);
                assert(c.subrange(i, c.len() as int) =~= needle + rest);
                lemma_valid_after_prefix(needle, rest);
                crate::text::lemma_valid_start_boundary(rest);
                assert(rest[0] == c[e]);
            }
            assert(byte_boundary(c, e));
            lemma_replace_plain_utf8(c, needle, rep, e + 1);
        },
    }
}

/// How many times `needle` occurs in `hay` from byte `from` on, counting
/// non-overlapping occurrences from the left.
pub open spec fn count_occurrences(hay: Seq<u8>, needle: Seq<u8>, from: int) -> nat
    decreases hay.len() + 1 - from,
{
    if needle.len() == 0 || from < 0 {
        0
    } else {
        match find_from(hay, needle, from) {
            Some(i) => if from <= i && i + needle.len() <= hay.len() {
                1 + count_occurrences(hay, needle, i + needle.len())
            } else {
                0
            },
            None => 0,
        }
    }
}

/// The count of a plain replace-all from column `pos` is the number of
/// non-overlapping occurrences of the needle in the searched text from there.
pub proof fn replace_plain_counts_occurrences(c: Seq<u8>, hay: Seq<u8>, needle: Seq<u8>, rep: Seq<u8>, pos: int)
    requires
        pos >= 1,
    ensures
        replace_plain_from(c, hay, needle, rep, pos) matches Some((t, k)) ==> k == count_occurrences(
            hay,
            needle,
            pos - 1,
        ),
    decreases hay.len() + 2 - pos,
{
    if needle.len() > 0 {
        lemma_find_from_props(hay, needle, pos - 1);
        match find_from(hay, needle, pos - 1) {
            Some(i) => {
                if i + needle.len() + 1 <= hay.len() + 1 {
                    replace_plain_counts_occurrences(c, hay, needle, rep, i + needle.len() + 1);
                }
            },
            None => {},
        }
    }
}

/// Replaces every non-overlapping occurrence of `query` in `content` with
/// `replace`, scanning left to right.  Returns the new text and the number
/// of replacements.
pub fn replace_all_plain(content: &str, query: &str, replace: &str, no_case: bool) -> (r: Result<
    (Vec<u8>, usize),
    SliceError,
>)
    requires
        query@.len() > 0,
        content.spec_bytes().len() <= isize::MAX,
        query.spec_bytes().len() <= isize::MAX,
    ensures
        match replace_plain_from(
            content.spec_bytes(),
            search_bytes(content@, no_case),
            search_bytes(query@, no_case),
            replace.spec_bytes(),
            1,
        ) {
            Some((t, k)) => r matches Ok((out, n)) && out@ == t && n == k,
            None => r is Err,
        },
        r matches Ok((out, n)) ==> valid_utf8(out@) && n <= content.spec_bytes().len(),
        r matches Ok((out, n)) ==> n * search_bytes(query@, no_case).len() <= search_bytes(
            content@,
            no_case,
        ).len(),
        r matches Ok((out, n)) ==> ((!no_case || is_ascii_chars(content@) && is_ascii_chars(
            query@,
        )) ==> n * query.spec_bytes().len() <= content.spec_bytes().len()),
        (!no_case || is_ascii_chars(content@)) ==> r is Ok,
{
    let hay_s = lower_if(content, no_case);
    let needle_s = lower_if(query, no_case);
    let c = content.as_bytes();
    let hay = hay_s.as_str().as_bytes();
    let needle = needle_s.as_str().as_bytes();
    let rep = replace.as_bytes();
    assert(needle@.len() > 0);
    let ghost full = replace_plain_from(c@, hay@, needle@, rep@, 1);
    proof {
        if is_ascii_chars(content@) {
            lemma_ascii_chars_bytes(content@);
            lemma_ascii_chars_bytes(hay_s@);
            lemma_replace_plain_ascii(c@, hay@, needle@, rep@, 1);
        }
        if !no_case {
            encode_utf8_valid_utf8(query@);
            encode_utf8_valid_utf8(content@);
            assert(hay@ == c@);
            crate::text::lemma_valid_start_boundary(c@);
            lemma_replace_plain_utf8(c@, needle@, rep@, 1);
        }
    }
    proof {
        encode_utf8_valid_utf8(content@);
        encode_utf8_valid_utf8(replace@);
    }
    let mut out: Vec<u8> = Vec::new();
    assert(valid_utf8(out@)) by {
        assert(out@ =~= c@.subrange(0, 0));
        lemma_valid_subrange(c@, 0, 0);
    }
    let mut count: usize = 0;
    let mut pos: usize = 1;
    loop
        invariant
            1 <= pos <= hay@.len() + 1,
            count < pos,
            count * needle@.len() <= pos - 1,
            (!no_case || is_ascii_chars(content@) && is_ascii_chars(query@)) ==> hay@.len()
                == c@.len() && needle@.len() == query.spec_bytes().len(),
            hay@.len() <= isize::MAX,
            needle@.len() > 0,
            c@ == content.spec_bytes(),
            valid_utf8(c@),
            valid_utf8(rep@),
            valid_utf8(out@),
            hay@ == search_bytes(content@, no_case),
            needle@ == search_bytes(query@, no_case),
            rep@ == replace.spec_bytes(),
            full == replace_plain_from(c@, hay@, needle@, rep@, 1),
            (!no_case || is_ascii_chars(content@)) ==> full is Some,
            full == match replace_plain_from(c@, hay@, needle@, rep@, pos as int) {
                Some((t, k)) => Some((out@ + t, (k + count) as nat)),
                None => None,
            },
        decreases hay@.len() + 2 - pos,
    {
        match plain_find_bytes(hay, needle, pos) {
            Err(e) => {
                return Err(e);
            },
            Ok(None) => {
                if pos - 1 > c.len() || !is_boundary(c, pos - 1) {
                    return Err(SliceError::BadCut);
                }
                let ghost before = out@;
                push_range(&mut out, c, pos - 1, c.len());
                assert(c@.subrange(pos - 1, c@.len() as int) =~= c@.skip(pos - 1));
                proof {
                    lemma_valid_subrange(c@, pos - 1, c@.len() as int);
                    valid_utf8_concat(before, c@.subrange(pos - 1, c@.len() as int));
                }
                return Ok((out, count));
            },
            Ok(Some((s, e))) => {
                proof {
                    lemma_find_from_props(hay@, needle@, pos - 1);
                }
                if pos > s || s - 1 > c.len() || !is_boundary(c, pos - 1) || !is_boundary(
                    c,
                    s - 1,
                ) {
                    return Err(SliceError::BadCut);
                }
                let ghost before = out@;
                push_range(&mut out, c, pos - 1, s - 1);
                push_all(&mut out, rep);
                assert(out@ =~= before + (c@.subrange(pos - 1, s - 1) + rep@));
                proof {
                    lemma_valid_subrange(c@, pos - 1, s - 1);
                    valid_utf8_concat(c@.subrange(pos - 1, s - 1), rep@);
                    valid_utf8_concat(before, c@.subrange(pos - 1, s - 1) + rep@);
                }
                assert((count + 1) * needle@.len() == count * needle@.len() + needle@.len())
                    by (nonlinear_arith);
                count = count + 1;
                pos = e;
            },
        }
    }
}

#[verifier::external_type_specification]
#[verifier::external_body]
pub struct ExRegex(pcre2::bytes::Regex);

#[verifier::external_type_specification]
#[verifier::external_body]
pub struct ExPcreError(pcre2::Error);

/// Whether PCRE2 compiles this pattern.
pub uninterp spec fn pcre_compiles(pattern: Seq<char>) -> bool;

/// The overall match that PCRE2 reports for `pattern` searched in `subject`
/// from byte offset `start`, as byte offsets `(start, end)`; `None` when it
/// reports no match or stops with an error.
pub uninterp spec fn pcre_find(pattern: Seq<char>, subject: Seq<u8>, start: int) -> Option<(int, int)>;

/// A compiled pattern together with the pattern text it was compiled from.
pub struct CompiledRegex {
    re: pcre2::bytes::Regex,
    pattern: Ghost<Seq<char>>,
}

impl View for CompiledRegex {
    type V = Seq<char>;

    closed spec fn view(&self) -> Seq<char> {
        self.pattern@
    }
}

/// The error PCRE2 reports for a pattern it does not compile.
pub uninterp spec fn pcre_error(pattern: Seq<char>) -> pcre2::Error;

/// Calls `pcre2::bytes::Regex::new`; it succeeds exactly when PCRE2
/// compiles the pattern, and otherwise gives the error PCRE2 reports for
/// it, which depends on the pattern alone.
#[verifier::external_body]
fn pcre_regex_new(pattern: &str) -> (r: Result<pcre2::bytes::Regex, pcre2::Error>)
    ensures
        r is Ok <==> pcre_compiles(pattern@),
        r matches Err(e) ==> e == pcre_error(pattern@),
{
    pcre2::bytes::Regex::new(pattern)
}

/// Compiles `pattern`.
pub fn compile_regex(pattern: &str) -> (r: Result<CompiledRegex, pcre2::Error>)
    ensures
        r is Ok <==> pcre_compiles(pattern@),
        r matches Ok(re) ==> re@ == pattern@,
        r matches Err(e) ==> e == pcre_error(pattern@),
{
    match pcre_regex_new(pattern) {
        Ok(re) => Ok(CompiledRegex { re, pattern: Ghost(pattern@) }),
        Err(e) => Err(e),
    }
}

/// Calls `Regex::captures_read_at` and reads capture group 0; a search
/// error counts as no match.  The result is named `pcre_find` of the
/// regex's pattern, the subject and the start offset; as the crate documents,
/// the positions are byte indices into the subject.
#[verifier::external_body]
fn pcre_find_at(re: &CompiledRegex, subject: &[u8], start: usize) -> (r: Option<(usize, usize)>)
    requires
        start <= subject@.len(),
    ensures
        r matches Some((a, b)) ==> pcre_find(re@, subject@, start as int) == Some(
            (a as int, b as int),
        ) && a <= subject@.len() && b <= subject@.len(),
        r is None ==> pcre_find(re@, subject@, start as int) is None,
{
    let mut locs = re.re.capture_locations();
    re.re.captures_read_at(&mut locs, subject, start).ok().flatten()?;
    locs.get(0)
}

/// The 1-based byte column at which `re` first matches `line`.
pub fn regex_find_start(re: &CompiledRegex, line: &str) -> (r: Option<usize>)
    requires
        line.spec_bytes().len() <= isize::MAX,
    ensures
        r matches Some(c) ==> pcre_find(re@, line.spec_bytes(), 0) matches Some((a, b)) && c
            == a + 1,
        r is None ==> pcre_find(re@, line.spec_bytes(), 0) is None,
{
    match pcre_find_at(re, line.as_bytes(), 0) {
        Some((a, _)) => Some(a + 1),
        None => None,
    }
}

/// The pattern compiled for a regex replace: `(?i:query)` when
/// case-insensitive.
pub open spec fn regex_pattern(query: Seq<char>, no_case: bool) -> Seq<char> {
    if no_case {
        seq!['(', '?', 'i', ':'] + query + seq![')']
    } else {
        query
    }
}

/// Regex replace-all from 1-based column `pos` over the content bytes `c`:
/// the rebuilt text and the number of replacements, or `None` where the
/// text would be cut outside its bounds or inside a character.  An empty
/// match keeps the byte after it and moves on by one.
pub open spec fn replace_regex_from(pat: Seq<char>, c: Seq<u8>, rep: Seq<u8>, pos: int) -> Option<
    (Seq<u8>, nat),
>
    decreases c.len() + 2 - pos,
{
    if pos < 1 || pos - 1 > c.len() {
        None
    } else {
        match pcre_find(pat, c, pos - 1) {
            None => if byte_boundary(c, pos - 1) {
                Some((c.skip(pos - 1), 0))
            } else {
                None
            },
            Some((a, b)) => {
                let s = a + 1;
                let e = b + 1;
                if !slice_ok_spec(c, pos - 1, s - 1) {
                    None
                } else if e > s && e - 1 > c.len() {
                    None
                } else if e > s {
                    match replace_regex_from(pat, c, rep, e) {
                        Some((t, k)) => Some((c.subrange(pos - 1, s - 1) + rep + t, k + 1)),
                        None => None,
                    }
                } else if !slice_ok_spec(c, s - 1, s) {
                    None
                } else {
                    match replace_regex_from(pat, c, rep, s + 1) {
                        Some((t, k)) => Some(
                            (c.subrange(pos - 1, s - 1) + rep + c.subrange(s - 1, s) + t, k + 1),
                        ),
                        None => None,
                    }
                }
            },
        }
    }
}

/// Replacing a text by itself, case-sensitively, leaves the content as it
/// was: from any start column at a character boundary, the rebuilt text is
/// the rest of the content.
pub proof fn replace_with_itself_is_identity(c: Seq<u8>, q: Seq<u8>, pos: int)
    requires
        q.len() > 0,
        1 <= pos <= c.len() + 1,
        byte_boundary(c, pos - 1),
    ensures
        replace_plain_from(c, c, q, q, pos) matches Some((t, _)) ==> t == c.skip(pos - 1),
    decreases c.len() + 2 - pos,
{
    lemma_find_from_props(c, q, pos - 1);
    match find_from(c, q, pos - 1) {
        None => {},
        Some(i) => {
            let s = i + 1;
            let e = s + q.len();
            if slice_ok_spec(c, pos - 1, s - 1) {
                if e <= c.len() + 1 && byte_boundary(c, e - 1) {
                    replace_with_itself_is_identity(c, q, e);
                    if let Some((t, _)) = replace_plain_from(c, c, q, q, e) {
                        assert(c.subrange(pos - 1, s - 1) + q + t =~= c.skip(pos - 1)) by {
                            assert(c.subrange(i, i + q.len()) == q);
                        }
                    }
                } else {
                    assert(replace_plain_from(c, c, q, q, e) is None) by {
                        if e <= c.len() + 1 {
                            assert(!byte_boundary(c, e - 1));
                        }
                    }
                }
            }
        },
    }
}

/// Without any occurrence of the query, replace-all gives back the content
/// unchanged and counts nothing.
pub proof fn replace_without_match_is_identity(c: Seq<u8>, hay: Seq<u8>, q: Seq<u8>, rep: Seq<u8>)
    requires
        q.len() > 0,
        byte_boundary(c, 0),
        byte_boundary(hay, 0),
        find_from(hay, q, 0) is None,
    ensures
        replace_plain_from(c, hay, q, rep, 1) == Some((c, 0nat)),
{
    assert(c.skip(0) =~= c);
}

/// Why a replace failed.
pub enum ReplaceError {
    /// The pattern did not compile.
    Regex(pcre2::Error),
    /// The text would be cut outside its bounds or inside a character.
    BadCut,
    /// A swap was asked for without its second query.
    MissingSwapQuery,
}

fn regex_replace_with(re: &CompiledRegex, content: &str, replace: &str) -> (r: Result<
    (Vec<u8>, usize),
    ReplaceError,
>)
    requires
        content.spec_bytes().len() <= isize::MAX,
    ensures
        match replace_regex_from(re@, content.spec_bytes(), replace.spec_bytes(), 1) {
            Some((t, k)) => r matches Ok((out, n)) && out@ == t && n == k,
            None => r matches Err(ReplaceError::BadCut),
        },
        r matches Ok((out, n)) ==> valid_utf8(out@) && n <= content.spec_bytes().len(),
{
    let c = content.as_bytes();
    let rep = replace.as_bytes();
    let ghost full = replace_regex_from(re@, c@, rep@, 1);
    proof {
        encode_utf8_valid_utf8(content@);
        encode_utf8_valid_utf8(replace@);
    }
    let mut out: Vec<u8> = Vec::new();
    assert(valid_utf8(out@)) by {
        assert(out@ =~= c@.subrange(0, 0));
        lemma_valid_subrange(c@, 0, 0);
    }
    let mut count: usize = 0;
    let mut pos: usize = 1;
    loop
        invariant
            1 <= pos,
            count < pos,
            c@.len() <= isize::MAX,
            c@ == content.spec_bytes(),
            rep@ == replace.spec_bytes(),
            valid_utf8(c@),
            valid_utf8(rep@),
            valid_utf8(out@),
            full == replace_regex_from(re@, c@, rep@, 1),
            full == match replace_regex_from(re@, c@, rep@, pos as int) {
                Some((t, k)) => Some((out@ + t, (k + count) as nat)),
                None => None,
            },
        decreases c@.len() + 2 - pos,
    {
        if pos - 1 > c.len() {
            return Err(ReplaceError::BadCut);
        }
        match pcre_find_at(re, c, pos - 1) {
            None => {
                if !is_boundary(c, pos - 1) {
                    return Err(ReplaceError::BadCut);
                }
                let ghost before = out@;
                push_range(&mut out, c, pos - 1, c.len());
                assert(c@.subrange(pos - 1, c@.len() as int) =~= c@.skip(pos - 1));
                proof {
                    lemma_valid_subrange(c@, pos - 1, c@.len() as int);
                    valid_utf8_concat(before, c@.subrange(pos - 1, c@.len() as int));
                }
                return Ok((out, count));
            },
            Some((a, b)) => {
                if a < pos - 1 || a > c.len() || !is_boundary(c, pos - 1) || !is_boundary(c, a) {
                    return Err(ReplaceError::BadCut);
                }
                let s = a + 1;
                let ghost before = out@;
                push_range(&mut out, c, pos - 1, s - 1);
                push_all(&mut out, rep);
                assert(out@ =~= before + (c@.subrange(pos - 1, s - 1) + rep@));
                proof {
                    lemma_valid_subrange(c@, pos - 1, s - 1);
                    valid_utf8_concat(c@.subrange(pos - 1, s - 1), rep@);
                    valid_utf8_concat(before, c@.subrange(pos - 1, s - 1) + rep@);
                }
                count = count + 1;
                if b > a {
                    if b > c.len() {
                        return Err(ReplaceError::BadCut);
                    }
                    pos = b + 1;
                } else {
                    if a >= c.len() || !is_boundary(c, s) {
                        return Err(ReplaceError::BadCut);
                    }
                    let ghost before2 = out@;
                    push_range(&mut out, c, s - 1, s);
                    assert(out@ =~= before2 + c@.subrange(s - 1, s as int));
                    proof {
                        lemma_valid_subrange(c@, s - 1, s as int);
                        valid_utf8_concat(before2, c@.subrange(s - 1, s as int));
                    }
                    assert(out@ =~= before + (c@.subrange(pos - 1, s - 1) + rep@ + c@.subrange(
                        s - 1,
                        s as int,
                    )));
                    pos = s + 1;
                }
            },
        }
    }
}

/// Regex replace-all: compiles `query` (wrapped as `(?i:query)` when
/// `no_case`) and replaces every match in `content` with `replace`.  An
/// empty match keeps the byte after it.  Returns the new text and the
/// number of replacements.
pub fn replace_all_regex(content: &str, query: &str, replace: &str, no_case: bool) -> (r: Result<
    (Vec<u8>, usize),
    ReplaceError,
>)
    requires
        content.spec_bytes().len() <= isize::MAX,
    ensures
        !pcre_compiles(regex_pattern(query@, no_case)) <==> r matches Err(ReplaceError::Regex(_)),
        pcre_compiles(regex_pattern(query@, no_case)) ==> match replace_regex_from(
            regex_pattern(query@, no_case),
            content.spec_bytes(),
            replace.spec_bytes(),
            1,
        ) {
            Some((t, k)) => r matches Ok((out, n)) && out@ == t && n == k,
            None => r matches Err(ReplaceError::BadCut),
        },
        r matches Ok((out, n)) ==> valid_utf8(out@) && n <= content.spec_bytes().len(),
        r matches Err(ReplaceError::Regex(e)) ==> e == pcre_error(regex_pattern(query@, no_case)),
{
    let compiled = if no_case {
        let mut p = String::from_str("(?i:");
        p.append(query);
        p.append(")");
        proof {
            reveal_strlit("(?i:");
            reveal_strlit(")");
            assert(p@ =~= regex_pattern(query@, no_case));
        }
        compile_regex(p.as_str())
    } else {
        compile_regex(query)
    };
    match compiled {
        Err(e) => Err(ReplaceError::Regex(e)),
        Ok(re) => regex_replace_with(&re, content, replace),
    }
}

} // verus!
