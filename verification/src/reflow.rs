//! Paragraph reflow: word wrapping to a column limit, and rewrapping a
//! comment block while keeping its line prefixes.

use vstd::prelude::*;
use vstd::string::StringSliceAdditionalSpecFns;

use crate::swap::{replace_bytes, replace_bytes_spec};
use crate::text::{
    find_bytes_from, find_from, lemma_find_from_first, lemma_find_from_props, occurs_at, push_all, push_range, ws_front, ws_len_front,
};

verus! {

/// The byte length of the white space character (as `char::is_whitespace`
/// knows it) that starts at byte `i` of `b`, or 0.
pub open spec fn ws_at(b: Seq<u8>, i: int) -> nat {
    ws_len_front(b.subrange(i, b.len() as int))
}

/// The end of the word that starts at `i`: the first white space or the end.
pub open spec fn word_end(b: Seq<u8>, i: int) -> int
    decreases b.len() - i,
{
    if i < 0 || i >= b.len() || ws_at(b, i) > 0 {
        i
    } else {
        word_end(b, i + 1)
    }
}

pub proof fn lemma_word_end(b: Seq<u8>, i: int)
    requires
        0 <= i <= b.len(),
    ensures
        i <= word_end(b, i) <= b.len(),
        i < b.len() && ws_at(b, i) == 0 ==> i < word_end(b, i),
        word_end(b, i) == b.len() || ws_at(b, word_end(b, i)) > 0,
    decreases b.len() - i,
{
    if i < b.len() && ws_at(b, i) == 0 {
        lemma_word_end(b, i + 1);
    }
}

/// The words of `b` from byte `i` on, as `str::split_whitespace` cuts them.
pub open spec fn words_from(b: Seq<u8>, i: int) -> Seq<Seq<u8>>
    decreases b.len() - i,
{
    if i < 0 || i >= b.len() {
        seq![]
    } else if ws_at(b, i) > 0 {
        words_from(b, i + ws_at(b, i))
    } else {
        proof {
            lemma_word_end(b, i);
        }
        seq![b.subrange(i, word_end(b, i))] + words_from(b, word_end(b, i))
    }
}

/// The text written for the words `ws` when the current line already holds
/// `n` counted bytes and `started` tells whether a word was written before:
/// a word that would pass `limit` starts a new line, other words are
/// separated by one space.
pub open spec fn wrap_rest(ws: Seq<Seq<u8>>, n: int, started: bool, limit: int) -> Seq<u8>
    decreases ws.len(),
{
    if ws.len() == 0 {
        seq![]
    } else {
        let w = ws[0];
        let brk = started && n + w.len() > limit;
        let sep = if brk {
            seq![10u8]
        } else if started {
            seq![32u8]
        } else {
            seq![]
        };
        let n0 = if brk {
            0
        } else {
            n
        };
        (sep + w) + wrap_rest(ws.drop_first(), n0 + w.len() + 1, true, limit)
    }
}

/// The words of `b` wrapped at `limit` columns.
pub open spec fn wrap_spec(b: Seq<u8>, limit: int) -> Seq<u8> {
    wrap_rest(words_from(b, 0), 0, false, limit)
}

fn ws_len(b: &[u8], i: usize) -> (r: usize)
    requires
        i <= b@.len(),
    ensures
        r == ws_at(b@, i as int),
        r <= 3,
{
    ws_front(b, i, b.len())
}

fn find_word_end(b: &[u8], i: usize) -> (j: usize)
    requires
        i <= b@.len(),
    ensures
        j == word_end(b@, i as int),
{
    let mut j = i;
    while j < b.len() && ws_len(b, j) == 0
        invariant
            i <= j <= b@.len(),
            word_end(b@, i as int) == word_end(b@, j as int),
        decreases b@.len() - j,
    {
        j = j + 1;
    }
    j
}

/// Word-wraps the bytes `b` at `limit` columns.
pub fn wrap_bytes(b: &[u8], limit: usize) -> (out: Vec<u8>)
    requires
        b@.len() <= isize::MAX,
    ensures
        out@ == wrap_spec(b@, limit as int),
{
    let mut out: Vec<u8> = Vec::new();
    let mut n: usize = 0;
    let mut started = false;
    let mut i: usize = 0;
    while i < b.len()
        invariant
            i <= b@.len() <= isize::MAX,
            n <= i || (n == i + 1 && (i == b@.len() || ws_at(b@, i as int) > 0)),
            wrap_spec(b@, limit as int) == out@ + wrap_rest(
                words_from(b@, i as int),
                n as int,
                started,
                limit as int,
            ),
        decreases b@.len() - i,
    {
        let k = ws_len(b, i);
        if k > 0 {
            i = i + k;
        } else {
            let j = find_word_end(b, i);
            proof {
                lemma_word_end(b@, i as int);
            }
            let ghost w = b@.subrange(i as int, j as int);
            let ghost rest = words_from(b@, j as int);
            assert((seq![w] + rest)[0] == w);
            assert((seq![w] + rest).drop_first() =~= rest);
            let wl = j - i;
            let ghost old_out = out@;
            let ghost old_n = n;
            let ghost old_started = started;
            if started && n + wl > limit {
                out.push(10);
                n = 0;
            } else if started {
                out.push(32);
            }
            let ghost mid = out@;
            push_range(&mut out, b, i, j);
            assert(out@ == mid + w);
            n = n + wl + 1;
            started = true;
            i = j;
            assert(out@ + wrap_rest(rest, n as int, true, limit as int) =~= old_out + wrap_rest(
                seq![w] + rest,
                old_n as int,
                old_started,
                limit as int,
            ));
        }
    }
    out
}

/// A line of wrapped text: no new line in it, and at most `limit` bytes
/// unless it is one word (no space in it).
pub open spec fn line_fits(l: Seq<u8>, limit: int) -> bool {
    &&& forall|k: int| 0 <= k < l.len() ==> #[trigger] l[k] != 10
    &&& (l.len() <= limit || forall|k: int| 0 <= k < l.len() ==> #[trigger] l[k] != 32)
}

/// Every line of `t` (the pieces between new lines) fits `limit`.
pub open spec fn lines_fit(t: Seq<u8>, limit: int) -> bool
    decreases t.len(),
{
    match find_from(t, seq![10u8], 0) {
        None => line_fits(t, limit),
        Some(i) => {
            proof {
                lemma_find_from_props(t, seq![10u8], 0);
            }
            line_fits(t.take(i), limit) && lines_fit(t.skip(i + 1), limit)
        },
    }
}

/// A word: not empty, without new line or space.
pub open spec fn is_word(w: Seq<u8>) -> bool {
    w.len() > 0 && forall|k: int| 0 <= k < w.len() ==> #[trigger] w[k] != 10 && w[k] != 32
}

proof fn lemma_words_are_words(b: Seq<u8>, i: int)
    requires
        0 <= i <= b.len(),
    ensures
        forall|k: int| 0 <= k < words_from(b, i).len() ==> is_word(#[trigger] words_from(b, i)[k]),
    decreases b.len() - i,
{
    if i < b.len() {
        if ws_at(b, i) > 0 {
            let k = ws_at(b, i);
            assert(k <= b.len() - i);
            assert(words_from(b, i) == words_from(b, i + k));
            lemma_words_are_words(b, i + k);
        } else {
            lemma_word_end(b, i);
            let j = word_end(b, i);
            lemma_words_are_words(b, j);
            let w = b.subrange(i, j);
            lemma_word_bytes(b, i);
            assert(is_word(w));
            let ws = words_from(b, i);
            assert(ws == seq![w] + words_from(b, j));
        }
    }
}

proof fn lemma_word_bytes(b: Seq<u8>, i: int)
    requires
        0 <= i <= b.len(),
    ensures
        forall|k: int| i <= k < word_end(b, i) ==> #[trigger] b[k] != 10 && b[k] != 32,
    decreases b.len() - i,
{
    if i < b.len() && ws_at(b, i) == 0 {
        lemma_word_bytes(b, i + 1);
        assert(b.subrange(i, b.len() as int)[0] == b[i]);
    }
}

proof fn lemma_lines_fit_cons(cur: Seq<u8>, x: Seq<u8>, limit: int)
    requires
        line_fits(cur, limit),
        lines_fit(x, limit),
    ensures
        lines_fit(cur + seq![10u8] + x, limit),
{
    let t = cur + seq![10u8] + x;
    assert(occurs_at(t, seq![10u8], cur.len() as int)) by {
        assert(t.subrange(cur.len() as int, cur.len() + 1int) =~= seq![10u8]);
    }
    assert forall|j: int| 0 <= j < cur.len() implies !occurs_at(t, seq![10u8], j) by {
        if occurs_at(t, seq![10u8], j) {
            assert(t.subrange(j, j + 1)[0] == t[j]);
            assert(t[j] == cur[j]);
        }
    }
    lemma_find_from_first(t, seq![10u8], 0, cur.len() as int);
    assert(t.take(cur.len() as int) =~= cur);
    assert(t.skip(cur.len() + 1int) =~= x);
}

proof fn lemma_line_fits_no_newline(cur: Seq<u8>, limit: int)
    requires
        line_fits(cur, limit),
    ensures
        lines_fit(cur, limit),
{
    lemma_find_from_props(cur, seq![10u8], 0);
    if let Some(i) = find_from(cur, seq![10u8], 0) {
        assert(cur.subrange(i, i + 1)[0] == cur[i]);
    }
}

/// The invariant of wrapping: the current line `cur` fits and `n` counts it
/// (one more than its length once a word was written).
proof fn lemma_wrap_rest_fits(ws: Seq<Seq<u8>>, cur: Seq<u8>, n: int, started: bool, limit: int)
    requires
        forall|k: int| 0 <= k < ws.len() ==> is_word(#[trigger] ws[k]),
        line_fits(cur, limit),
        started ==> n == cur.len() + 1,
        !started ==> n == 0 && cur.len() == 0,
    ensures
        lines_fit(cur + wrap_rest(ws, n, started, limit), limit),
    decreases ws.len(),
{
    if ws.len() == 0 {
        assert(cur + wrap_rest(ws, n, started, limit) =~= cur);
        lemma_line_fits_no_newline(cur, limit);
    } else {
        let w = ws[0];
        let rest = ws.drop_first();
        assert forall|k: int| 0 <= k < rest.len() implies is_word(#[trigger] rest[k]) by {
            assert(rest[k] == ws[k + 1]);
        }
        assert(is_word(w));
        let brk = started && n + w.len() > limit;
        let n1 = (if brk {
            0
        } else {
            n
        }) + w.len() + 1;
        let tail = wrap_rest(rest, n1, true, limit);
        if brk {
            assert(line_fits(w, limit));
            lemma_wrap_rest_fits(rest, w, n1, true, limit);
            lemma_lines_fit_cons(cur, w + tail, limit);
            assert(cur + wrap_rest(ws, n, started, limit) =~= cur + seq![10u8] + (w + tail));
        } else if started {
            let c2 = cur + seq![32u8] + w;
            assert(line_fits(c2, limit)) by {
                assert forall|k: int| 0 <= k < c2.len() implies #[trigger] c2[k] != 10 by {
                    if k < cur.len() {
                        assert(c2[k] == cur[k]);
                    } else if k > cur.len() {
                        assert(c2[k] == w[k - cur.len() - 1]);
                    }
                }
            }
            lemma_wrap_rest_fits(rest, c2, n1, true, limit);
            assert(cur + wrap_rest(ws, n, started, limit) =~= c2 + tail);
        } else {
            assert(line_fits(w, limit));
            lemma_wrap_rest_fits(rest, w, n1, true, limit);
            assert(cur + wrap_rest(ws, n, started, limit) =~= w + tail);
        }
    }
}

/// Word wrapping keeps every line within the limit, except a line that
/// holds a single word longer than the limit.
pub proof fn wrapped_lines_fit(b: Seq<u8>, limit: int)
    ensures
        lines_fit(wrap_spec(b, limit), limit),
{
    lemma_words_are_words(b, 0);
    lemma_wrap_rest_fits(words_from(b, 0), seq![], 0, false, limit);
    assert(Seq::<u8>::empty() + wrap_spec(b, limit) =~= wrap_spec(b, limit));
}

proof fn lemma_ws_at_shift(p: Seq<u8>, q: Seq<u8>, j: int)
    requires
        0 <= j <= q.len(),
    ensures
        ws_at(p + q, p.len() + j) == ws_at(q, j),
{
    assert((p + q).subrange(p.len() + j, (p + q).len() as int) =~= q.subrange(j, q.len() as int));
}

proof fn lemma_word_end_shift(p: Seq<u8>, q: Seq<u8>, j: int)
    requires
        0 <= j <= q.len(),
    ensures
        word_end(p + q, p.len() + j) == p.len() + word_end(q, j),
    decreases q.len() - j,
{
    lemma_ws_at_shift(p, q, j);
    if j < q.len() && ws_at(q, j) == 0 {
        lemma_word_end_shift(p, q, j + 1);
    }
}

proof fn lemma_ws_at_bound(b: Seq<u8>, i: int)
    requires
        0 <= i <= b.len(),
    ensures
        ws_at(b, i) <= b.len() - i,
{
}

/// The words of `p + q` after `p` are the words of `q`.
proof fn lemma_words_shift(p: Seq<u8>, q: Seq<u8>, j: int)
    requires
        0 <= j <= q.len(),
    ensures
        words_from(p + q, p.len() + j) == words_from(q, j),
    decreases q.len() - j,
{
    if j < q.len() {
        lemma_ws_at_shift(p, q, j);
        lemma_ws_at_bound(q, j);
        if ws_at(q, j) > 0 {
            lemma_words_shift(p, q, j + ws_at(q, j));
        } else {
            lemma_word_end(q, j);
            lemma_word_end_shift(p, q, j);
            let e = word_end(q, j);
            assert((p + q).subrange(p.len() + j, p.len() + e) =~= q.subrange(j, e));
            lemma_words_shift(p, q, e);
        }
    }
}

/// What `ws_len_front` reads of a word followed by a new line or a space
/// does not reach past that byte.
proof fn lemma_ws_sep_tail(u: Seq<u8>, x: u8, r: Seq<u8>)
    requires
        u.len() > 0,
        x == 10 || x == 32,
    ensures
        ws_len_front(u + seq![x] + r) == ws_len_front(u + seq![x]),
{
    let a = u + seq![x] + r;
    let c = u + seq![x];
    assert(a[0] == c[0]);
    assert(a[1] == c[1]);
    if u.len() >= 2 {
        assert(a[2] == c[2]);
    } else {
        assert(c[1] == x);
        assert(a[1] == x);
    }
}

/// A byte string on which no white space starts, even when a new line or a
/// space follows it.
pub open spec fn ws_free(u: Seq<u8>) -> bool {
    &&& ws_len_front(u) == 0
    &&& ws_len_front(u + seq![10u8]) == 0
    &&& ws_len_front(u + seq![32u8]) == 0
}

proof fn lemma_ws_prefix(u: Seq<u8>, y: Seq<u8>)
    requires
        u.len() > 0,
        ws_len_front(u + y) == 0,
    ensures
        ws_free(u),
{
    let a = u + y;
    let c1 = u + seq![10u8];
    let c2 = u + seq![32u8];
    assert(a[0] == u[0]);
    assert(c1[0] == u[0] && c2[0] == u[0]);
    if u.len() >= 2 {
        assert(a[1] == u[1] && c1[1] == u[1] && c2[1] == u[1]);
    }
    if u.len() >= 3 {
        assert(a[2] == u[2] && c1[2] == u[2] && c2[2] == u[2]);
    }
    if u.len() == 2 {
        assert(c1[2] == 10 && c2[2] == 32);
    }
    if u.len() == 1 {
        assert(c1[1] == 10 && c2[1] == 32);
    }
}

/// A word none of whose suffixes starts white space, whatever separator
/// follows it.
pub open spec fn clean_word(w: Seq<u8>) -> bool {
    w.len() > 0 && forall|k: int| 0 <= k < w.len() ==> ws_free(#[trigger] w.skip(k))
}

proof fn lemma_word_positions(b: Seq<u8>, i: int)
    requires
        0 <= i <= b.len(),
    ensures
        forall|k: int| i <= k < word_end(b, i) ==> #[trigger] ws_at(b, k) == 0,
    decreases b.len() - i,
{
    if i < b.len() && ws_at(b, i) == 0 {
        lemma_word_positions(b, i + 1);
    }
}

proof fn lemma_words_clean(b: Seq<u8>, i: int)
    requires
        0 <= i <= b.len(),
    ensures
        forall|k: int| 0 <= k < words_from(b, i).len() ==> clean_word(#[trigger] words_from(b, i)[k]),
    decreases b.len() - i,
{
    if i < b.len() {
        lemma_ws_at_bound(b, i);
        if ws_at(b, i) > 0 {
            assert(words_from(b, i) == words_from(b, i + ws_at(b, i)));
            lemma_words_clean(b, i + ws_at(b, i));
        } else {
            lemma_word_end(b, i);
            lemma_word_positions(b, i);
            let e = word_end(b, i);
            let w = b.subrange(i, e);
            assert forall|k: int| 0 <= k < w.len() implies ws_free(#[trigger] w.skip(k)) by {
                assert(b.subrange(i + k, b.len() as int) =~= w.skip(k) + b.subrange(
                    e,
                    b.len() as int,
                ));
                assert(ws_at(b, i + k) == 0);
                lemma_ws_prefix(w.skip(k), b.subrange(e, b.len() as int));
            }
            lemma_words_clean(b, e);
            assert(words_from(b, i) == seq![w] + words_from(b, e));
            assert forall|k: int| 0 <= k < words_from(b, i).len() implies clean_word(
                #[trigger] words_from(b, i)[k],
            ) by {
                if k > 0 {
                    assert(words_from(b, i)[k] == words_from(b, e)[k - 1]);
                }
            }
        }
    }
}

proof fn lemma_word_end_at(t: Seq<u8>, k: int, e: int)
    requires
        0 <= k <= e <= t.len(),
        forall|j: int| k <= j < e ==> #[trigger] ws_at(t, j) == 0,
        e == t.len() || ws_at(t, e) > 0,
    ensures
        word_end(t, k) == e,
    decreases e - k,
{
    if k < e {
        lemma_word_end_at(t, k + 1, e);
    }
}

/// Wrapped text after a word starts with its separator, if anything follows.
proof fn lemma_wrap_starts_with_sep(ws: Seq<Seq<u8>>, n: int, limit: int)
    ensures
        wrap_rest(ws, n, true, limit).len() == 0 || wrap_rest(ws, n, true, limit)[0] == 10
            || wrap_rest(ws, n, true, limit)[0] == 32,
{
}

/// The words of a clean word followed by wrapped text `t` (empty or starting
/// with a separator) are that word, then the words of `t`.
proof fn lemma_words_of_word_then(w: Seq<u8>, t: Seq<u8>)
    requires
        clean_word(w),
        t.len() == 0 || t[0] == 10 || t[0] == 32,
    ensures
        words_from(w + t, 0) == seq![w] + words_from(t, 0),
{
    let a = w + t;
    assert forall|j: int| 0 <= j < w.len() implies #[trigger] ws_at(a, j) == 0 by {
        assert(a.subrange(j, a.len() as int) =~= w.skip(j) + t);
        assert(ws_free(w.skip(j)));
        if t.len() > 0 {
            let x = t[0];
            assert(t =~= seq![x] + t.skip(1));
            assert(w.skip(j) + t =~= w.skip(j) + seq![x] + t.skip(1));
            lemma_ws_sep_tail(w.skip(j), x, t.skip(1));
        } else {
            assert(w.skip(j) + t =~= w.skip(j));
        }
    }
    if t.len() > 0 {
        assert(a.subrange(w.len() as int, a.len() as int)[0] == t[0]);
    }
    lemma_word_end_at(a, 0, w.len() as int);
    assert(a.subrange(0, w.len() as int) =~= w);
    lemma_words_shift(w, t, 0);
}

/// The words of wrapped text are the words it was made from.
proof fn lemma_wrap_words(ws: Seq<Seq<u8>>, n: int, started: bool, limit: int)
    requires
        forall|k: int| 0 <= k < ws.len() ==> clean_word(#[trigger] ws[k]),
    ensures
        words_from(wrap_rest(ws, n, started, limit), 0) == ws,
    decreases ws.len(),
{
    if ws.len() > 0 {
        let w = ws[0];
        let rest = ws.drop_first();
        assert forall|k: int| 0 <= k < rest.len() implies clean_word(#[trigger] rest[k]) by {
            assert(rest[k] == ws[k + 1]);
        }
        assert(clean_word(w));
        let brk = started && n + w.len() > limit;
        let n1 = (if brk {
            0
        } else {
            n
        }) + w.len() + 1;
        let t = wrap_rest(rest, n1, true, limit);
        lemma_wrap_words(rest, n1, true, limit);
        lemma_wrap_starts_with_sep(rest, n1, limit);
        lemma_words_of_word_then(w, t);
        assert(seq![w] + rest =~= ws);
        if started {
            let x: u8 = if brk {
                10
            } else {
                32
            };
            let out = wrap_rest(ws, n, started, limit);
            assert(out =~= seq![x] + (w + t));
            assert(ws_at(out, 0) == 1) by {
                assert(out.subrange(0, out.len() as int)[0] == x);
            }
            lemma_words_shift(seq![x], w + t, 0);
        } else {
            assert(wrap_rest(ws, n, started, limit) =~= w + t);
        }
    }
}

/// Wrapping changes only the white space between words: the words of the
/// result are the words of the text.
pub proof fn wrapping_keeps_words(b: Seq<u8>, limit: int)
    ensures
        words_from(wrap_spec(b, limit), 0) == words_from(b, 0),
{
    lemma_words_clean(b, 0);
    lemma_wrap_words(words_from(b, 0), 0, false, limit);
}

/// `text` word-wrapped at `limit` columns: its words, as
/// `str::split_whitespace` cuts them, separated by one space, with a new line
/// before a word that would make the line longer than `limit`.
pub fn wordwrap_text(text: &str, limit: usize) -> (out: Vec<u8>)
    requires
        text.spec_bytes().len() <= isize::MAX,
    ensures
        out@ == wrap_spec(text.spec_bytes(), limit as int),
{
    wrap_bytes(text.as_bytes(), limit)
}

/// ASCII letters and digits (`%w` of Lua patterns in the C locale).
pub open spec fn is_alnum(x: u8) -> bool {
    (48 <= x <= 57) || (65 <= x <= 90) || (97 <= x <= 122)
}

/// Bytes that may make up a line prefix such as `// `, `-- ` or `# `:
/// anything but letters, digits, new lines, brackets and quotes.
pub open spec fn in_prefix_set(x: u8) -> bool {
    !(is_alnum(x) || x == 10 || x == 91 || x == 93 || x == 40 || x == 41 || x == 123 || x == 125
        || x == 96 || x == 39 || x == 34)
}

/// C `isspace` (`%s` of Lua patterns): space, tab, line feed, vertical tab,
/// form feed, carriage return.
pub open spec fn is_c_space(x: u8) -> bool {
    x == 32 || (9 <= x <= 13)
}

/// The end of the run of prefix bytes that starts at `i`.
pub open spec fn prefix_run_end(b: Seq<u8>, i: int) -> int
    decreases b.len() - i,
{
    if i < 0 || i >= b.len() || !in_prefix_set(b[i]) {
        i
    } else {
        prefix_run_end(b, i + 1)
    }
}

/// The end of the run of new lines that starts at `i`.
pub open spec fn newline_run_end(b: Seq<u8>, i: int) -> int
    decreases b.len() - i,
{
    if i < 0 || i >= b.len() || b[i] != 10 {
        i
    } else {
        newline_run_end(b, i + 1)
    }
}

pub proof fn lemma_run_ends(b: Seq<u8>, i: int)
    requires
        0 <= i <= b.len(),
    ensures
        i <= prefix_run_end(b, i) <= b.len(),
        i <= newline_run_end(b, i) <= b.len(),
    decreases b.len() - i,
{
    if i < b.len() {
        lemma_run_ends(b, i + 1);
    }
}

/// The length of the first line's prefix: leading new lines, then prefix
/// bytes.
pub open spec fn prefix1_len(b: Seq<u8>) -> int {
    prefix_run_end(b, newline_run_end(b, 0))
}

/// The prefix written after each new line: the prefix bytes after the first
/// new line that follows the first prefix, or the first prefix when there
/// are none.
pub open spec fn prefix2_spec(b: Seq<u8>) -> Seq<u8> {
    let p = prefix1_len(b);
    match find_from(b, seq![10u8], p) {
        Some(q) => {
            let s = b.subrange(q + 1, prefix_run_end(b, q + 1));
            if s.len() > 0 {
                s
            } else {
                b.take(p)
            }
        },
        None => b.take(p),
    }
}

/// Where the trailing run of spaces of `b` begins.
pub open spec fn space_suffix_start(b: Seq<u8>) -> int
    decreases b.len(),
{
    if b.len() > 0 && is_c_space(b.last()) {
        space_suffix_start(b.drop_last())
    } else {
        b.len() as int
    }
}

pub proof fn lemma_space_suffix_start(b: Seq<u8>)
    ensures
        0 <= space_suffix_start(b) <= b.len(),
    decreases b.len(),
{
    if b.len() > 0 && is_c_space(b.last()) {
        lemma_space_suffix_start(b.drop_last());
    }
}

/// `c` from `i` on with the prefix bytes after each new line removed.
pub open spec fn strip_from(c: Seq<u8>, i: int) -> Seq<u8>
    decreases c.len() - i,
{
    if i < 0 || i >= c.len() {
        seq![]
    } else if c[i] == 10 {
        proof {
            lemma_run_ends(c, i + 1);
        }
        seq![10u8] + strip_from(c, prefix_run_end(c, i + 1))
    } else {
        seq![c[i]] + strip_from(c, i + 1)
    }
}

/// The first zero byte at or after `i`, or the end.
pub open spec fn zero_end(d: Seq<u8>, i: int) -> int
    decreases d.len() - i,
{
    if i < 0 || i >= d.len() || d[i] == 0 {
        i
    } else {
        zero_end(d, i + 1)
    }
}

pub proof fn lemma_zero_end(d: Seq<u8>, i: int)
    requires
        0 <= i <= d.len(),
    ensures
        i <= zero_end(d, i) <= d.len(),
        zero_end(d, i) < d.len() ==> d[zero_end(d, i)] == 0,
    decreases d.len() - i,
{
    if i < d.len() && d[i] != 0 {
        lemma_zero_end(d, i + 1);
    }
}

/// The non-empty pieces of `d` between zero bytes, from `i` on.
pub open spec fn blocks_from(d: Seq<u8>, i: int) -> Seq<Seq<u8>>
    decreases d.len() - i + 1,
{
    if i < 0 || i > d.len() {
        seq![]
    } else {
        proof {
            lemma_zero_end(d, i);
        }
        let j = zero_end(d, i);
        let seg = d.subrange(i, j);
        let tail = if j < d.len() {
            blocks_from(d, j + 1)
        } else {
            seq![]
        };
        if seg.len() > 0 {
            seq![seg] + tail
        } else {
            tail
        }
    }
}

/// The blocks each wrapped at `limit`, separated by blank lines.
pub open spec fn join_rest(segs: Seq<Seq<u8>>, first: bool, limit: int) -> Seq<u8>
    decreases segs.len(),
{
    if segs.len() == 0 {
        seq![]
    } else {
        (if first {
            seq![]
        } else {
            seq![10u8, 10u8]
        }) + wrap_spec(segs[0], limit) + join_rest(segs.drop_first(), false, limit)
    }
}

/// The reflowed paragraph: the first prefix, the body (its line prefixes
/// removed, split into blocks at blank lines, each block wrapped to the
/// line limit less the first prefix) with the second prefix after each new
/// line, then the trailing spaces.
pub open spec fn reflow_spec(b: Seq<u8>, line_limit: int) -> Seq<u8> {
    let p = prefix1_len(b);
    let t = space_suffix_start(b);
    let body = if p < t {
        b.subrange(p, t)
    } else {
        seq![]
    };
    let d = replace_bytes_spec(strip_from(body, 0), seq![10u8, 10u8], seq![0u8]);
    let limit = if line_limit >= p {
        line_limit - p
    } else {
        0
    };
    let joined = join_rest(blocks_from(d, 0), true, limit);
    b.take(p) + replace_bytes_spec(joined, seq![10u8], seq![10u8] + prefix2_spec(b)) + b.subrange(
        t,
        b.len() as int,
    )
}

fn is_prefix_byte(x: u8) -> (r: bool)
    ensures
        r == in_prefix_set(x),
{
    !((48 <= x && x <= 57) || (65 <= x && x <= 90) || (97 <= x && x <= 122) || x == 10 || x == 91
        || x == 93 || x == 40 || x == 41 || x == 123 || x == 125 || x == 96 || x == 39 || x == 34)
}

fn prefix_end(b: &[u8], i: usize) -> (j: usize)
    requires
        i <= b@.len(),
    ensures
        j == prefix_run_end(b@, i as int),
{
    let mut j = i;
    while j < b.len() && is_prefix_byte(b[j])
        invariant
            i <= j <= b@.len(),
            prefix_run_end(b@, i as int) == prefix_run_end(b@, j as int),
        decreases b@.len() - j,
    {
        j = j + 1;
    }
    j
}

fn newline_end(b: &[u8], i: usize) -> (j: usize)
    requires
        i <= b@.len(),
    ensures
        j == newline_run_end(b@, i as int),
{
    let mut j = i;
    while j < b.len() && b[j] == 10
        invariant
            i <= j <= b@.len(),
            newline_run_end(b@, i as int) == newline_run_end(b@, j as int),
        decreases b@.len() - j,
    {
        j = j + 1;
    }
    j
}

fn space_start(b: &[u8]) -> (t: usize)
    ensures
        t == space_suffix_start(b@),
{
    let mut t = b.len();
    assert(b@.take(t as int) =~= b@);
    while t > 0 && (b[t - 1] == 32 || (9 <= b[t - 1] && b[t - 1] <= 13))
        invariant
            t <= b@.len(),
            space_suffix_start(b@) == space_suffix_start(b@.take(t as int)),
        decreases t,
    {
        assert(b@.take(t as int).drop_last() =~= b@.take(t - 1));
        t = t - 1;
    }
    t
}

pub proof fn lemma_strip_len(c: Seq<u8>, i: int)
    requires
        0 <= i <= c.len(),
    ensures
        strip_from(c, i).len() <= c.len() - i,
    decreases c.len() - i,
{
    if i < c.len() {
        if c[i] == 10 {
            lemma_run_ends(c, i + 1);
            lemma_strip_len(c, prefix_run_end(c, i + 1));
        } else {
            lemma_strip_len(c, i + 1);
        }
    }
}

pub proof fn lemma_replace_shrinks(h: Seq<u8>, n: Seq<u8>, r: Seq<u8>)
    requires
        r.len() <= n.len(),
    ensures
        replace_bytes_spec(h, n, r).len() <= h.len(),
    decreases h.len(),
{
    if n.len() > 0 {
        lemma_find_from_props(h, n, 0);
        if let Some(i) = find_from(h, n, 0) {
            lemma_replace_shrinks(h.skip(i + n.len()), n, r);
        }
    }
}

fn strip_lines(c: &[u8]) -> (out: Vec<u8>)
    ensures
        out@ == strip_from(c@, 0),
{
    let mut out: Vec<u8> = Vec::new();
    let mut i: usize = 0;
    while i < c.len()
        invariant
            i <= c@.len(),
            strip_from(c@, 0) == out@ + strip_from(c@, i as int),
        decreases c@.len() - i,
    {
        let ghost before = out@;
        let ghost i0 = i as int;
        if c[i] == 10 {
            out.push(10);
            proof {
                lemma_run_ends(c@, i + 1);
            }
            i = prefix_end(c, i + 1);
            assert(strip_from(c@, i0) == seq![10u8] + strip_from(c@, i as int));
            assert(before + strip_from(c@, i0) =~= out@ + strip_from(c@, i as int));
        } else {
            out.push(c[i]);
            i = i + 1;
            assert(strip_from(c@, i0) == seq![c@[i0]] + strip_from(c@, i as int));
            assert(before + strip_from(c@, i0) =~= out@ + strip_from(c@, i as int));
        }
    }
    out
}

fn zero_idx(d: &[u8], i: usize) -> (j: usize)
    requires
        i <= d@.len(),
    ensures
        j == zero_end(d@, i as int),
{
    let mut j = i;
    while j < d.len() && d[j] != 0
        invariant
            i <= j <= d@.len(),
            zero_end(d@, i as int) == zero_end(d@, j as int),
        decreases d@.len() - j,
    {
        j = j + 1;
    }
    j
}

/// Wraps each non-empty zero-separated block of `d` and joins the results
/// with blank lines.
fn wrap_blocks(d: &[u8], limit: usize) -> (out: Vec<u8>)
    requires
        d@.len() <= isize::MAX,
    ensures
        out@ == join_rest(blocks_from(d@, 0), true, limit as int),
{
    let mut out: Vec<u8> = Vec::new();
    let mut first = true;
    let mut i: usize = 0;
    let mut done = false;
    while !done
        invariant
            i <= d@.len() <= isize::MAX,
            !done ==> join_rest(blocks_from(d@, 0), true, limit as int) == out@ + join_rest(
                blocks_from(d@, i as int),
                first,
                limit as int,
            ),
            done ==> join_rest(blocks_from(d@, 0), true, limit as int) == out@,
        decreases 2 * (d@.len() - i) + (if done {
            0int
        } else {
            1int
        }),
    {
        let j = zero_idx(d, i);
        proof {
            lemma_zero_end(d@, i as int);
        }
        let ghost seg = d@.subrange(i as int, j as int);
        let ghost tail = if j < d@.len() {
            blocks_from(d@, j + 1)
        } else {
            seq![]
        };
        let ghost before = out@;
        let ghost first0 = first;
        assert(blocks_from(d@, i as int) == if seg.len() > 0 {
            seq![seg] + tail
        } else {
            tail
        });
        if j > i {
            let sub = &d[i..j];
            assert(sub@ =~= seg);
            let w = wrap_bytes(sub, limit);
            if !first {
                out.push(10);
                out.push(10);
            }
            push_all(&mut out, w.as_slice());
            first = false;
            assert((seq![seg] + tail)[0] == seg);
            assert((seq![seg] + tail).drop_first() =~= tail);
            assert(before + join_rest(seq![seg] + tail, first0, limit as int) =~= out@ + join_rest(
                tail,
                false,
                limit as int,
            ));
        }
        if j < d.len() {
            i = j + 1;
        } else {
            done = true;
            assert(out@ + join_rest(tail, first, limit as int) =~= out@);
        }
    }
    out
}

fn prefix2(b: &[u8], p: usize) -> (r: Vec<u8>)
    requires
        p == prefix1_len(b@),
    ensures
        r@ == prefix2_spec(b@),
{
    proof {
        lemma_run_ends(b@, 0);
        lemma_run_ends(b@, newline_run_end(b@, 0));
        lemma_find_from_props(b@, seq![10u8], p as int);
    }
    let bl = b.len();
    let nl: Vec<u8> = vec![10u8];
    assert(nl@ =~= seq![10u8]);
    let mut r: Vec<u8> = Vec::new();
    match find_bytes_from(b, nl.as_slice(), p) {
        Some(q) => {
            assert(find_from(b@, seq![10u8], p as int) == Some(q as int));
            assert(occurs_at(b@, seq![10u8], q as int));
            proof {
                lemma_run_ends(b@, q + 1);
            }
            let e = prefix_end(b, q + 1);
            if e > q + 1 {
                push_range(&mut r, b, q + 1, e);
            } else {
                push_range(&mut r, b, 0, p);
            }
        },
        None => {
            push_range(&mut r, b, 0, p);
        },
    }
    r
}

/// Rewraps a selected paragraph to `line_limit` columns, keeping the
/// comment prefix of its first line and of its following lines, and its
/// trailing white space.
pub fn reflow_text(text: &str, line_limit: usize) -> (out: Vec<u8>)
    requires
        text.spec_bytes().len() <= isize::MAX,
    ensures
        out@ == reflow_spec(text.spec_bytes(), line_limit as int),
{
    let b = text.as_bytes();
    proof {
        lemma_run_ends(b@, 0);
        lemma_run_ends(b@, newline_run_end(b@, 0));
        lemma_space_suffix_start(b@);
    }
    let p = prefix_end(b, newline_end(b, 0));
    let t = space_start(b);
    let stripped = if p < t {
        let body = &b[p..t];
        assert(body@ =~= b@.subrange(p as int, t as int));
        strip_lines(body)
    } else {
        assert(strip_from(seq![], 0) =~= Seq::<u8>::empty());
        Vec::new()
    };
    let ghost body_v = if p < t {
        b@.subrange(p as int, t as int)
    } else {
        seq![]
    };
    proof {
        lemma_strip_len(body_v, 0);
        lemma_replace_shrinks(stripped@, seq![10u8, 10u8], seq![0u8]);
    }
    let nn: Vec<u8> = vec![10u8, 10u8];
    let zz: Vec<u8> = vec![0u8];
    assert(nn@ =~= seq![10u8, 10u8]);
    assert(zz@ =~= seq![0u8]);
    let d = replace_bytes(stripped.as_slice(), nn.as_slice(), zz.as_slice());
    let limit = if line_limit >= p {
        line_limit - p
    } else {
        0
    };
    let joined = wrap_blocks(d.as_slice(), limit);
    let pre2 = prefix2(b, p);
    let mut rep: Vec<u8> = vec![10u8];
    push_all(&mut rep, pre2.as_slice());
    let nl: Vec<u8> = vec![10u8];
    assert(nl@ =~= seq![10u8]);
    let body_out = replace_bytes(joined.as_slice(), nl.as_slice(), rep.as_slice());
    let mut out: Vec<u8> = Vec::new();
    push_range(&mut out, b, 0, p);
    push_all(&mut out, body_out.as_slice());
    push_range(&mut out, b, t, b.len());
    assert(b@.subrange(0, p as int) =~= b@.take(p as int));
    out
}

/// Rewrapping keeps the first line's prefix at the start and the trailing
/// white space at the end.
pub proof fn reflow_keeps_prefix_and_trailing(b: Seq<u8>, line_limit: int)
    ensures
        reflow_spec(b, line_limit).take(prefix1_len(b)) == b.take(prefix1_len(b)),
        reflow_spec(b, line_limit).skip(
            reflow_spec(b, line_limit).len() - (b.len() - space_suffix_start(b)),
        ) == b.skip(space_suffix_start(b)),
{
    lemma_run_ends(b, 0);
    lemma_run_ends(b, newline_run_end(b, 0));
    lemma_space_suffix_start(b);
    let r = reflow_spec(b, line_limit);
    let p = prefix1_len(b);
    let t = space_suffix_start(b);
    let p2 = prefix2_spec(b);
    let body = if p < t {
        b.subrange(p, t)
    } else {
        seq![]
    };
    let d = replace_bytes_spec(strip_from(body, 0), seq![10u8, 10u8], seq![0u8]);
    let limit = if line_limit >= p {
        line_limit - p
    } else {
        0
    };
    let mid = replace_bytes_spec(
        join_rest(blocks_from(d, 0), true, limit),
        seq![10u8],
        seq![10u8] + p2,
    );
    assert(r == b.take(p) + mid + b.subrange(t, b.len() as int));
    assert(r.take(p) =~= b.take(p));
    assert(r.skip(r.len() - (b.len() - t)) =~= b.skip(t));
}

/// A line of reflowed text fits `limit`, unless all it holds after its
/// prefix (its leading run of prefix bytes) is one word: no space there.
pub open spec fn line_fits_after_prefix(l: Seq<u8>, limit: int) -> bool {
    l.len() <= limit || forall|k: int| prefix_run_end(l, 0) <= k < l.len() ==> #[trigger] l[k] != 32
}

/// Every line of `t` (the pieces between new lines) fits `limit` in the
/// sense of `line_fits_after_prefix`.
pub open spec fn lines_fit_after_prefix(t: Seq<u8>, limit: int) -> bool
    decreases t.len(),
{
    match find_from(t, seq![10u8], 0) {
        None => line_fits_after_prefix(t, limit),
        Some(i) => {
            proof {
                lemma_find_from_props(t, seq![10u8], 0);
            }
            line_fits_after_prefix(t.take(i), limit) && lines_fit_after_prefix(t.skip(i + 1), limit)
        },
    }
}

/// A line that is `pre` followed by a wrapped line fitting `m`.
spec fn prefixed_line(l: Seq<u8>, pre: Seq<u8>, m: int) -> bool {
    pre.len() <= l.len() && l.take(pre.len() as int) == pre && line_fits(l.skip(pre.len() as int), m)
}

spec fn lines_prefixed(t: Seq<u8>, pre: Seq<u8>, m: int) -> bool
    decreases t.len(),
{
    match find_from(t, seq![10u8], 0) {
        None => prefixed_line(t, pre, m),
        Some(i) => {
            proof {
                lemma_find_from_props(t, seq![10u8], 0);
            }
            prefixed_line(t.take(i), pre, m) && lines_prefixed(t.skip(i + 1), pre, m)
        },
    }
}

spec fn all_prefix_bytes(s: Seq<u8>) -> bool {
    forall|k: int| 0 <= k < s.len() ==> in_prefix_set(#[trigger] s[k])
}

/// No new line in `s`.
pub open spec fn no_newline(s: Seq<u8>) -> bool {
    forall|k: int| 0 <= k < s.len() ==> #[trigger] s[k] != 10
}

/// The first new line of `cur + [10] + x` is the one after `cur`.
proof fn lemma_first_newline_after(cur: Seq<u8>, x: Seq<u8>)
    requires
        no_newline(cur),
    ensures
        find_from(cur + seq![10u8] + x, seq![10u8], 0) == Some(cur.len() as int),
        (cur + seq![10u8] + x).take(cur.len() as int) == cur,
        (cur + seq![10u8] + x).skip(cur.len() + 1int) == x,
{
    let t = cur + seq![10u8] + x;
    assert(occurs_at(t, seq![10u8], cur.len() as int)) by {
        assert(t.subrange(cur.len() as int, cur.len() + 1int) =~= seq![10u8]);
    }
    assert forall|j: int| 0 <= j < cur.len() implies !occurs_at(t, seq![10u8], j) by {
        if occurs_at(t, seq![10u8], j) {
            assert(t.subrange(j, j + 1)[0] == t[j]);
            assert(t[j] == cur[j]);
        }
    }
    lemma_find_from_first(t, seq![10u8], 0, cur.len() as int);
    assert(t.take(cur.len() as int) =~= cur);
    assert(t.skip(cur.len() + 1int) =~= x);
}

/// Text without a new line has none to find.
proof fn lemma_no_newline_found(t: Seq<u8>)
    requires
        no_newline(t),
    ensures
        find_from(t, seq![10u8], 0) is None,
{
    lemma_find_from_props(t, seq![10u8], 0);
    if let Some(i) = find_from(t, seq![10u8], 0) {
        assert(t.subrange(i, i + 1)[0] == t[i]);
    }
}

/// Before the first new line of `t` there is none.
proof fn lemma_before_first_newline(t: Seq<u8>)
    ensures
        find_from(t, seq![10u8], 0) matches Some(i) ==> 0 <= i < t.len() && t[i] == 10 && no_newline(t.take(i)),
        find_from(t, seq![10u8], 0) is None ==> no_newline(t),
{
    lemma_find_from_props(t, seq![10u8], 0);
    match find_from(t, seq![10u8], 0) {
        Some(i) => {
            assert(t.subrange(i, i + 1)[0] == t[i]);
            assert forall|k: int| 0 <= k < t.take(i).len() implies #[trigger] t.take(i)[k] != 10 by {
                if t[k] == 10 {
                    assert(t.subrange(k, k + 1) =~= seq![10u8]);
                    assert(occurs_at(t, seq![10u8], k));
                }
            }
        },
        None => {
            assert forall|k: int| 0 <= k < t.len() implies #[trigger] t[k] != 10 by {
                if t[k] == 10 {
                    assert(t.subrange(k, k + 1) =~= seq![10u8]);
                    assert(occurs_at(t, seq![10u8], k));
                }
            }
        },
    }
}

proof fn lemma_lines_fit_concat(x: Seq<u8>, y: Seq<u8>, limit: int)
    requires
        lines_fit(x, limit),
        lines_fit(y, limit),
    ensures
        lines_fit(x + seq![10u8] + y, limit),
    decreases x.len(),
{
    lemma_before_first_newline(x);
    match find_from(x, seq![10u8], 0) {
        None => {
            lemma_lines_fit_cons(x, y, limit);
        },
        Some(i) => {
            let a = x.take(i);
            let r = x.skip(i + 1);
            lemma_lines_fit_concat(r, y, limit);
            lemma_lines_fit_cons(a, r + seq![10u8] + y, limit);
            assert(x =~= a + seq![10u8] + r);
            assert(x + seq![10u8] + y =~= a + seq![10u8] + (r + seq![10u8] + y));
        },
    }
}

proof fn lemma_lines_fit_tail(t: Seq<u8>, limit: int)
    requires
        lines_fit(t, limit),
        t.len() > 0,
        t[0] == 10,
    ensures
        lines_fit(t.skip(1), limit),
{
    assert(t.subrange(0, 1) =~= seq![10u8]);
    lemma_find_from_first(t, seq![10u8], 0, 0);
}

proof fn lemma_join_lines_fit(segs: Seq<Seq<u8>>, first: bool, limit: int)
    ensures
        lines_fit(join_rest(segs, first, limit), limit),
        !first && segs.len() > 0 ==> join_rest(segs, first, limit).len() > 0 && join_rest(
            segs,
            first,
            limit,
        )[0] == 10,
    decreases segs.len(),
{
    if segs.len() == 0 {
        lemma_no_newline_found(Seq::<u8>::empty());
    } else {
        let w = wrap_spec(segs[0], limit);
        let j = join_rest(segs.drop_first(), false, limit);
        lemma_join_lines_fit(segs.drop_first(), false, limit);
        wrapped_lines_fit(segs[0], limit);
        if j.len() == 0 {
            assert(w + j =~= w);
        } else {
            lemma_lines_fit_tail(j, limit);
            lemma_lines_fit_concat(w, j.skip(1), limit);
            assert(w + j =~= w + seq![10u8] + j.skip(1));
        }
        let e = Seq::<u8>::empty();
        lemma_no_newline_found(e);
        assert(line_fits(e, limit));
        if first {
            assert(join_rest(segs, first, limit) =~= w + j);
        } else {
            lemma_lines_fit_cons(e, w + j, limit);
            lemma_lines_fit_cons(e, e + seq![10u8] + (w + j), limit);
            assert(join_rest(segs, first, limit) =~= e + seq![10u8] + (e + seq![10u8] + (w + j)));
        }
    }
}

proof fn lemma_prefixed_cons(cur: Seq<u8>, x: Seq<u8>, pre: Seq<u8>, m: int)
    requires
        no_newline(cur),
        prefixed_line(cur, pre, m),
        lines_prefixed(x, pre, m),
    ensures
        lines_prefixed(cur + seq![10u8] + x, pre, m),
{
    lemma_first_newline_after(cur, x);
}

/// Putting `pre` before every line of wrapped text.
proof fn lemma_prefix_lines(j: Seq<u8>, pre: Seq<u8>, m: int)
    requires
        lines_fit(j, m),
        no_newline(pre),
    ensures
        lines_prefixed(pre + replace_bytes_spec(j, seq![10u8], seq![10u8] + pre), pre, m),
    decreases j.len(),
{
    lemma_before_first_newline(j);
    match find_from(j, seq![10u8], 0) {
        None => {
            let l = pre + j;
            assert(no_newline(l)) by {
                assert forall|k: int| 0 <= k < l.len() implies #[trigger] l[k] != 10 by {
                    if k < pre.len() {
                        assert(l[k] == pre[k]);
                    } else {
                        assert(l[k] == j[k - pre.len()]);
                    }
                }
            }
            lemma_no_newline_found(l);
            assert(l.take(pre.len() as int) =~= pre);
            assert(l.skip(pre.len() as int) =~= j);
        },
        Some(i) => {
            let a = j.take(i);
            let r = j.skip(i + 1);
            lemma_prefix_lines(r, pre, m);
            let cur = pre + a;
            assert(no_newline(cur)) by {
                assert forall|k: int| 0 <= k < cur.len() implies #[trigger] cur[k] != 10 by {
                    if k < pre.len() {
                        assert(cur[k] == pre[k]);
                    } else {
                        assert(cur[k] == a[k - pre.len()]);
                    }
                }
            }
            assert(cur.take(pre.len() as int) =~= pre);
            assert(cur.skip(pre.len() as int) =~= a);
            let rest = pre + replace_bytes_spec(r, seq![10u8], seq![10u8] + pre);
            lemma_prefixed_cons(cur, rest, pre, m);
            assert(pre + replace_bytes_spec(j, seq![10u8], seq![10u8] + pre) =~= cur + seq![10u8] + rest);
        },
    }
}

proof fn lemma_prefix_run_covers(pre: Seq<u8>, x: Seq<u8>, i: int)
    requires
        0 <= i <= pre.len(),
        all_prefix_bytes(pre),
    ensures
        prefix_run_end(pre + x, i) >= pre.len(),
    decreases pre.len() - i,
{
    let s = pre + x;
    if i == pre.len() {
        lemma_run_ends(s, i);
    } else {
        assert(s[i] == pre[i]);
        lemma_prefix_run_covers(pre, x, i + 1);
    }
}

proof fn lemma_prefixed_line_fits(l: Seq<u8>, pre: Seq<u8>, m: int, limit: int)
    requires
        prefixed_line(l, pre, m),
        all_prefix_bytes(pre),
        m >= 0,
        m == 0 || m + pre.len() <= limit,
    ensures
        line_fits_after_prefix(l, limit),
{
    let x = l.skip(pre.len() as int);
    assert(l =~= pre + x);
    lemma_prefix_run_covers(pre, x, 0);
    if !(l.len() <= limit) {
        assert forall|k: int| prefix_run_end(l, 0) <= k < l.len() implies #[trigger] l[k] != 32 by {
            assert(l[k] == x[k - pre.len()]);
        }
    }
}

proof fn lemma_prefixed_lines_fit(t: Seq<u8>, pre: Seq<u8>, m: int, limit: int)
    requires
        lines_prefixed(t, pre, m),
        all_prefix_bytes(pre),
        m >= 0,
        m == 0 || m + pre.len() <= limit,
    ensures
        lines_fit_after_prefix(t, limit),
    decreases t.len(),
{
    lemma_find_from_props(t, seq![10u8], 0);
    match find_from(t, seq![10u8], 0) {
        None => {
            lemma_prefixed_line_fits(t, pre, m, limit);
        },
        Some(i) => {
            lemma_prefixed_line_fits(t.take(i), pre, m, limit);
            lemma_prefixed_lines_fit(t.skip(i + 1), pre, m, limit);
        },
    }
}

proof fn lemma_newlines_then(s: Seq<u8>, u: Seq<u8>, limit: int)
    requires
        forall|k: int| 0 <= k < s.len() ==> #[trigger] s[k] == 10,
        lines_fit_after_prefix(u, limit),
    ensures
        lines_fit_after_prefix(s + u, limit),
    decreases s.len(),
{
    if s.len() > 0 {
        let e = Seq::<u8>::empty();
        lemma_newlines_then(s.drop_first(), u, limit);
        lemma_first_newline_after(e, s.drop_first() + u);
        assert(s + u =~= e + seq![10u8] + (s.drop_first() + u));
    } else {
        assert(s + u =~= u);
    }
}

proof fn lemma_prefix_run_bytes(b: Seq<u8>, i: int)
    requires
        0 <= i <= b.len(),
    ensures
        all_prefix_bytes(b.subrange(i, prefix_run_end(b, i))),
    decreases b.len() - i,
{
    lemma_run_ends(b, i);
    if i < b.len() && in_prefix_set(b[i]) {
        lemma_prefix_run_bytes(b, i + 1);
        let j = prefix_run_end(b, i);
        assert forall|k: int| 0 <= k < j - i implies in_prefix_set(#[trigger] b.subrange(i, j)[k]) by {
            if k > 0 {
                assert(b.subrange(i, j)[k] == b.subrange(i + 1, j)[k - 1]);
            }
        }
    }
}

proof fn lemma_newline_run_bytes(b: Seq<u8>, i: int)
    requires
        0 <= i <= b.len(),
    ensures
        forall|k: int| i <= k < newline_run_end(b, i) ==> #[trigger] b[k] == 10,
    decreases b.len() - i,
{
    if i < b.len() && b[i] == 10 {
        lemma_newline_run_bytes(b, i + 1);
    }
}

/// Reflowing keeps every line within the line limit, its prefix included,
/// unless all the line holds after its prefix is one word.  This holds for
/// a paragraph without trailing white space (which is kept as it is, after
/// the last line) whose second prefix is a single line no longer than the
/// first prefix with its leading new lines.
pub proof fn reflowed_lines_fit(b: Seq<u8>, line_limit: int)
    requires
        space_suffix_start(b) == b.len(),
        no_newline(prefix2_spec(b)),
        prefix2_spec(b).len() <= prefix1_len(b),
    ensures
        lines_fit_after_prefix(reflow_spec(b, line_limit), line_limit),
{
    let n0 = newline_run_end(b, 0);
    let p = prefix1_len(b);
    lemma_run_ends(b, 0);
    lemma_run_ends(b, n0);
    lemma_newline_run_bytes(b, 0);
    lemma_prefix_run_bytes(b, n0);
    let pre1 = b.subrange(n0, p);
    let p2 = prefix2_spec(b);
    let t = space_suffix_start(b);
    let body = if p < t {
        b.subrange(p, t)
    } else {
        seq![]
    };
    let d = replace_bytes_spec(strip_from(body, 0), seq![10u8, 10u8], seq![0u8]);
    let limit = if line_limit >= p {
        line_limit - p
    } else {
        0
    };
    let joined = join_rest(blocks_from(d, 0), true, limit);
    let mid = replace_bytes_spec(joined, seq![10u8], seq![10u8] + p2);
    assert(reflow_spec(b, line_limit) == b.take(p) + mid + b.subrange(t, b.len() as int));
    assert(b.subrange(t, b.len() as int) =~= Seq::<u8>::empty());
    let lead = b.take(n0);
    assert(b.take(p) =~= lead + pre1);
    assert(reflow_spec(b, line_limit) =~= lead + (pre1 + mid));
    assert forall|k: int| 0 <= k < lead.len() implies #[trigger] lead[k] == 10 by {
        assert(lead[k] == b[k]);
    }
    // the second prefix is made of prefix bytes
    assert(all_prefix_bytes(p2)) by {
        lemma_find_from_props(b, seq![10u8], p);
        match find_from(b, seq![10u8], p) {
            Some(q) => {
                lemma_run_ends(b, q + 1);
                lemma_prefix_run_bytes(b, q + 1);
                if b.subrange(q + 1, prefix_run_end(b, q + 1)).len() == 0 {
                    if n0 > 0 {
                        assert(p2[0] == b[0]);
                    }
                    assert(b.take(p) =~= pre1);
                }
            },
            None => {
                if n0 > 0 {
                    assert(p2[0] == b[0]);
                }
                assert(b.take(p) =~= pre1);
            },
        }
    }
    assert(no_newline(pre1)) by {
        assert forall|k: int| 0 <= k < pre1.len() implies #[trigger] pre1[k] != 10 by {
            assert(in_prefix_set(pre1[k]));
        }
    }
    lemma_join_lines_fit(blocks_from(d, 0), true, limit);
    lemma_before_first_newline(joined);
    let u = pre1 + mid;
    match find_from(joined, seq![10u8], 0) {
        None => {
            lemma_prefix_lines(joined, pre1, limit);
            assert(mid == joined);
            lemma_prefixed_lines_fit(u, pre1, limit, line_limit);
        },
        Some(i) => {
            let a = joined.take(i);
            let r = joined.skip(i + 1);
            let rest = p2 + replace_bytes_spec(r, seq![10u8], seq![10u8] + p2);
            assert(mid =~= a + (seq![10u8] + p2) + replace_bytes_spec(r, seq![10u8], seq![10u8] + p2));
            lemma_prefix_lines(r, p2, limit);
            lemma_prefixed_lines_fit(rest, p2, limit, line_limit);
            let cur = pre1 + a;
            assert(cur.take(pre1.len() as int) =~= pre1);
            assert(cur.skip(pre1.len() as int) =~= a);
            assert(no_newline(cur)) by {
                assert forall|k: int| 0 <= k < cur.len() implies #[trigger] cur[k] != 10 by {
                    if k < pre1.len() {
                        assert(cur[k] == pre1[k]);
                    } else {
                        assert(cur[k] == a[k - pre1.len()]);
                    }
                }
            }
            lemma_prefixed_line_fits(cur, pre1, limit, line_limit);
            lemma_first_newline_after(cur, rest);
            assert(u =~= cur + seq![10u8] + rest);
        },
    }
    lemma_newlines_then(lead, u, line_limit);
}

} // verus!
