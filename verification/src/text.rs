//! Byte-level text helpers shared by the other modules: char boundaries,
//! substring search, ASCII case folding, whitespace trimming and decimal
//! numbers.

use vstd::prelude::*;
use vstd::utf8::{
    is_char_boundary, is_char_boundary_iff_not_is_continuation_byte,
    is_char_boundary_start_end_of_seq, is_continuation_byte, length_of_first_scalar,
    pop_first_scalar, valid_utf8, valid_utf8_split, decode_utf8, encode_utf8,
};

verus! {

/// A UTF-8 continuation byte (`10xxxxxx`).
pub open spec fn is_cont_byte(b: u8) -> bool {
    128 <= b < 192
}

/// Whether `i` is a position at which a `str` may be cut: the end of the
/// text, or any index whose byte is not a continuation byte.
pub open spec fn byte_boundary(s: Seq<u8>, i: int) -> bool {
    i == s.len() || (0 <= i < s.len() && !is_cont_byte(s[i]))
}

/// In valid UTF-8, a byte boundary is a character boundary in vstd's sense.
pub proof fn lemma_boundary_is_char_boundary(b: Seq<u8>, i: int)
    requires
        valid_utf8(b),
        byte_boundary(b, i),
    ensures
        is_char_boundary(b, i),
{
    if i == b.len() {
        is_char_boundary_start_end_of_seq(b);
    } else {
        is_char_boundary_iff_not_is_continuation_byte(b, i);
        let x = b[i];
        assert(is_continuation_byte(x) == is_cont_byte(x));
    }
}

/// ASCII bytes are valid UTF-8.
pub proof fn lemma_ascii_valid(b: Seq<u8>)
    requires
        forall|i: int| 0 <= i < b.len() ==> #[trigger] b[i] < 128,
    ensures
        valid_utf8(b),
    decreases b.len(),
{
    if b.len() > 0 {
        let p = pop_first_scalar(b);
        assert(p =~= b.subrange(1, b.len() as int));
        assert forall|i: int| 0 <= i < p.len() implies #[trigger] p[i] < 128 by {
            assert(p[i] == b[i + 1]);
        }
        lemma_ascii_valid(p);
    }
}

/// Valid UTF-8 never starts with a continuation byte.
pub proof fn lemma_valid_start_boundary(b: Seq<u8>)
    requires
        valid_utf8(b),
    ensures
        byte_boundary(b, 0),
{
    if b.len() > 0 {
        is_char_boundary_iff_not_is_continuation_byte(b, 0);
    }
}

/// In valid UTF-8 the byte after an ASCII byte starts a character.
pub proof fn lemma_after_ascii_boundary(b: Seq<u8>, k: int)
    requires
        valid_utf8(b),
        0 <= k < b.len(),
        b[k] < 128,
    ensures
        byte_boundary(b, k + 1),
    decreases b.len(),
{
    let l = length_of_first_scalar(b);
    let p = pop_first_scalar(b);
    assert(1 <= l <= b.len());
    assert(p.len() == b.len() - l);
    if k < l {
        assert(k == 0 && l == 1);
        if p.len() > 0 {
            lemma_valid_start_boundary(p);
            assert(p[0] == b[1]);
        }
    } else {
        lemma_after_ascii_boundary(p, k - l);
        if k + 1 < b.len() {
            assert(p[k - l + 1] == b[k + 1]);
        }
    }
}

/// A piece of valid UTF-8 cut at two byte boundaries is valid UTF-8.
pub proof fn lemma_valid_subrange(b: Seq<u8>, i: int, j: int)
    requires
        valid_utf8(b),
        0 <= i <= j <= b.len(),
        byte_boundary(b, i),
        byte_boundary(b, j),
    ensures
        valid_utf8(b.subrange(i, j)),
{
    lemma_boundary_is_char_boundary(b, i);
    valid_utf8_split(b, i);
    let t = b.subrange(i, b.len() as int);
    assert(byte_boundary(t, j - i)) by {
        if j < b.len() {
            assert(t[j - i] == b[j]);
        }
    }
    lemma_boundary_is_char_boundary(t, j - i);
    valid_utf8_split(t, j - i);
    assert(t.subrange(0, j - i) =~= b.subrange(i, j));
}

/// Whether `needle` occurs in `hay` at index `i`.
pub open spec fn occurs_at(hay: Seq<u8>, needle: Seq<u8>, i: int) -> bool {
    0 <= i && i + needle.len() <= hay.len() && hay.subrange(i, i + needle.len()) == needle
}

/// The first index `>= from` at which `needle` occurs in `hay`.
pub open spec fn find_from(hay: Seq<u8>, needle: Seq<u8>, from: int) -> Option<int>
    decreases hay.len() + 1 - from,
{
    if from < 0 || from + needle.len() > hay.len() {
        None
    } else if occurs_at(hay, needle, from) {
        Some(from)
    } else {
        find_from(hay, needle, from + 1)
    }
}

pub proof fn lemma_find_from_props(hay: Seq<u8>, needle: Seq<u8>, from: int)
    requires
        0 <= from,
    ensures
        find_from(hay, needle, from) matches Some(i) ==> from <= i && occurs_at(hay, needle, i)
            && forall|j: int| from <= j < i ==> !occurs_at(hay, needle, j),
        find_from(hay, needle, from) is None ==> forall|j: int|
            from <= j ==> !occurs_at(hay, needle, j),
    decreases hay.len() + 1 - from,
{
    if from + needle.len() > hay.len() {
    } else if occurs_at(hay, needle, from) {
    } else {
        lemma_find_from_props(hay, needle, from + 1);
    }
}

pub proof fn lemma_find_from_first(hay: Seq<u8>, needle: Seq<u8>, from: int, k: int)
    requires
        0 <= from <= k,
        occurs_at(hay, needle, k),
        forall|j: int| from <= j < k ==> !occurs_at(hay, needle, j),
    ensures
        find_from(hay, needle, from) == Some(k),
    decreases k - from,
{
    if from < k {
        lemma_find_from_first(hay, needle, from + 1, k);
    }
}

pub proof fn lemma_find_from_none(hay: Seq<u8>, needle: Seq<u8>, from: int)
    requires
        0 <= from,
        forall|j: int| from <= j ==> !occurs_at(hay, needle, j),
    ensures
        find_from(hay, needle, from) is None,
    decreases hay.len() + 1 - from,
{
    if from + needle.len() <= hay.len() {
        lemma_find_from_none(hay, needle, from + 1);
    }
}

/// Whether `needle` occurs at index `i` (executable).
pub fn bytes_occur_at(hay: &[u8], needle: &[u8], i: usize) -> (r: bool)
    ensures
        r == occurs_at(hay@, needle@, i as int),
{
    let hl = hay.len();
    if i > hl || needle.len() > hl - i {
        return false;
    }
    let mut k: usize = 0;
    while k < needle.len()
        invariant
            hl == hay@.len(),
            i + needle@.len() <= hay@.len(),
            k <= needle@.len(),
            forall|j: int| 0 <= j < k ==> hay@[i + j] == needle@[j],
        decreases needle@.len() - k,
    {
        if hay[i + k] != needle[k] {
            assert(hay@.subrange(i as int, i + needle@.len())[k as int] != needle@[k as int]);
            return false;
        }
        k = k + 1;
    }
    assert(hay@.subrange(i as int, i + needle@.len()) =~= needle@);
    true
}

/// First occurrence of `needle` in `hay` at or after `from`.
pub fn find_bytes_from(hay: &[u8], needle: &[u8], from: usize) -> (r: Option<usize>)
    ensures
        r matches Some(i) ==> find_from(hay@, needle@, from as int) == Some(i as int),
        r is None ==> find_from(hay@, needle@, from as int) is None,
{
    let mut i = from;
    proof {
        lemma_find_from_props(hay@, needle@, from as int);
    }
    while i <= hay.len() && needle.len() <= hay.len() - i
        invariant
            from <= i,
            find_from(hay@, needle@, from as int) == find_from(hay@, needle@, i as int),
        decreases hay@.len() + 1 - i,
    {
        if needle.len() == 0 {
            assert(hay@.subrange(i as int, i as int) =~= needle@);
        }
        if bytes_occur_at(hay, needle, i) {
            return Some(i);
        }
        i = i + 1;
    }
    None
}

/// ASCII lower-casing of one byte.
pub open spec fn ascii_lower(b: u8) -> u8 {
    if 65 <= b <= 90 { (b + 32) as u8 } else { b }
}

pub fn to_ascii_lower(b: u8) -> (r: u8)
    ensures
        r == ascii_lower(b),
{
    if 65 <= b && b <= 90 {
        b + 32
    } else {
        b
    }
}

/// Case-insensitive ASCII equality of two byte strings.
pub open spec fn eq_ignore_ascii_case(a: Seq<u8>, b: Seq<u8>) -> bool {
    a.len() == b.len() && forall|i: int| 0 <= i < a.len() ==> ascii_lower(a[i]) == ascii_lower(b[i])
}

pub fn bytes_eq_ignore_ascii_case(a: &[u8], b: &[u8]) -> (r: bool)
    ensures
        r == eq_ignore_ascii_case(a@, b@),
{
    if a.len() != b.len() {
        return false;
    }
    let mut i: usize = 0;
    while i < a.len()
        invariant
            a@.len() == b@.len(),
            i <= a@.len(),
            forall|j: int| 0 <= j < i ==> ascii_lower(a@[j]) == ascii_lower(b@[j]),
        decreases a@.len() - i,
    {
        if to_ascii_lower(a[i]) != to_ascii_lower(b[i]) {
            return false;
        }
        i = i + 1;
    }
    true
}

/// The byte length of the whitespace character (in the sense of
/// `char::is_whitespace`) that `s` starts with, or 0.
pub open spec fn ws_len_front(s: Seq<u8>) -> nat {
    if s.len() >= 1 && (s[0] == 32 || (9 <= s[0] <= 13)) {
        1
    } else if s.len() >= 2 && s[0] == 0xC2 && (s[1] == 0x85 || s[1] == 0xA0) {
        2
    } else if s.len() >= 3 && ((s[0] == 0xE1 && s[1] == 0x9A && s[2] == 0x80) || (s[0] == 0xE2
        && s[1] == 0x80 && ((0x80 <= s[2] <= 0x8A) || s[2] == 0xA8 || s[2] == 0xA9 || s[2]
        == 0xAF)) || (s[0] == 0xE2 && s[1] == 0x81 && s[2] == 0x9F) || (s[0] == 0xE3 && s[1]
        == 0x80 && s[2] == 0x80)) {
        3
    } else {
        0
    }
}

/// The byte length of the whitespace character that `s` ends with, or 0.
pub open spec fn ws_len_back(s: Seq<u8>) -> nat {
    let n = s.len();
    if n >= 1 && (s[n - 1] == 32 || (9 <= s[n - 1] <= 13)) {
        1
    } else if n >= 2 && ws_len_front(s.subrange(n - 2, n as int)) == 2 {
        2
    } else if n >= 3 && ws_len_front(s.subrange(n - 3, n as int)) == 3 {
        3
    } else {
        0
    }
}

/// `s` without its leading whitespace.
pub open spec fn trim_start(s: Seq<u8>) -> Seq<u8>
    decreases s.len(),
{
    if ws_len_front(s) == 0 {
        s
    } else {
        trim_start(s.skip(ws_len_front(s) as int))
    }
}

/// `s` without its trailing whitespace.
pub open spec fn trim_end(s: Seq<u8>) -> Seq<u8>
    decreases s.len(),
{
    if ws_len_back(s) == 0 {
        s
    } else {
        trim_end(s.take(s.len() - ws_len_back(s)))
    }
}

/// `s` without leading and trailing whitespace, as `str::trim` gives it.
pub open spec fn trim(s: Seq<u8>) -> Seq<u8> {
    trim_end(trim_start(s))
}

pub fn ws_front(s: &[u8], from: usize, to: usize) -> (r: usize)
    requires
        from <= to <= s@.len(),
    ensures
        r == ws_len_front(s@.subrange(from as int, to as int)),
{
    let ghost t = s@.subrange(from as int, to as int);
    let n = to - from;
    if n >= 1 && (s[from] == 32 || (9 <= s[from] && s[from] <= 13)) {
        return 1;
    }
    if n >= 2 && s[from] == 0xC2 && (s[from + 1] == 0x85 || s[from + 1] == 0xA0) {
        return 2;
    }
    if n >= 3 {
        let a = s[from];
        let b = s[from + 1];
        let c = s[from + 2];
        if (a == 0xE1 && b == 0x9A && c == 0x80) || (a == 0xE2 && b == 0x80 && ((0x80 <= c && c
            <= 0x8A) || c == 0xA8 || c == 0xA9 || c == 0xAF)) || (a == 0xE2 && b == 0x81 && c
            == 0x9F) || (a == 0xE3 && b == 0x80 && c == 0x80) {
            return 3;
        }
    }
    0
}

pub fn ws_back(s: &[u8], from: usize, to: usize) -> (r: usize)
    requires
        from <= to <= s@.len(),
    ensures
        r == ws_len_back(s@.subrange(from as int, to as int)),
{
    let ghost t = s@.subrange(from as int, to as int);
    let n = to - from;
    if n >= 1 && (s[to - 1] == 32 || (9 <= s[to - 1] && s[to - 1] <= 13)) {
        return 1;
    }
    if n >= 2 {
        let w = ws_front(s, to - 2, to);
        assert(t.subrange(t.len() - 2, t.len() as int) =~= s@.subrange(to - 2, to as int));
        if w == 2 {
            return 2;
        }
    }
    if n >= 3 {
        let w = ws_front(s, to - 3, to);
        assert(t.subrange(t.len() - 3, t.len() as int) =~= s@.subrange(to - 3, to as int));
        if w == 3 {
            return 3;
        }
    }
    0
}

/// The bounds `(a, b)` of `trim(s[from..to])` inside `s`.
pub fn trim_bounds(s: &[u8], from: usize, to: usize) -> (r: (usize, usize))
    requires
        from <= to <= s@.len(),
    ensures
        from <= r.0 <= r.1 <= to,
        s@.subrange(r.0 as int, r.1 as int) == trim(s@.subrange(from as int, to as int)),
{
    let mut a = from;
    let mut done = false;
    while !done
        invariant
            from <= a <= to <= s@.len(),
            trim_start(s@.subrange(from as int, to as int)) == trim_start(
                s@.subrange(a as int, to as int),
            ),
            done ==> ws_len_front(s@.subrange(a as int, to as int)) == 0,
        decreases 2 * (to - a) + (if done { 0int } else { 1int }),
    {
        let w = ws_front(s, a, to);
        if w == 0 {
            done = true;
        } else {
            assert(s@.subrange(a as int, to as int).skip(w as int) =~= s@.subrange(
                a + w,
                to as int,
            ));
            a = a + w;
        }
    }
    assert(trim_start(s@.subrange(a as int, to as int)) == s@.subrange(a as int, to as int));
    let mut b = to;
    let mut done2 = false;
    while !done2
        invariant
            from <= a <= b <= to <= s@.len(),
            trim_start(s@.subrange(from as int, to as int)) == s@.subrange(a as int, to as int),
            trim_end(s@.subrange(a as int, to as int)) == trim_end(
                s@.subrange(a as int, b as int),
            ),
            done2 ==> ws_len_back(s@.subrange(a as int, b as int)) == 0,
        decreases 2 * (b - a) + (if done2 { 0int } else { 1int }),
    {
        let w = ws_back(s, a, b);
        if w == 0 {
            done2 = true;
        } else {
            assert(s@.subrange(a as int, b as int).take(b - a - w) =~= s@.subrange(
                a as int,
                b - w,
            ));
            b = b - w;
        }
    }
    assert(trim_end(s@.subrange(a as int, b as int)) == s@.subrange(a as int, b as int));
    (a, b)
}

/// The value of a string of ASCII decimal digits.
pub open spec fn digits_value(d: Seq<u8>) -> nat
    decreases d.len(),
{
    if d.len() == 0 {
        0
    } else {
        digits_value(d.drop_last()) * 10 + (d.last() - 48) as nat
    }
}

pub open spec fn all_digits(d: Seq<u8>) -> bool {
    forall|i: int| 0 <= i < d.len() ==> 48 <= #[trigger] d[i] <= 57
}

/// What `str::parse::<usize>` gives: an optional `+` and at least one
/// digit, with a value that fits in `usize`.
pub open spec fn parse_usize_spec(s: Seq<u8>) -> Option<nat> {
    let d = if s.len() > 0 && s[0] == 43 { s.skip(1) } else { s };
    if d.len() > 0 && all_digits(d) && digits_value(d) <= usize::MAX {
        Some(digits_value(d))
    } else {
        None
    }
}

pub proof fn lemma_digits_value_prefix(d: Seq<u8>, k: int)
    requires
        0 <= k <= d.len(),
        all_digits(d),
    ensures
        digits_value(d.take(k)) <= digits_value(d),
    decreases d.len() - k,
{
    if k < d.len() {
        lemma_digits_value_prefix(d, k + 1);
        assert(d.take(k + 1).drop_last() =~= d.take(k));
        assert(48 <= d[k]);
    } else {
        assert(d.take(k) =~= d);
    }
}

/// Parses `s[from..to]` as `str::parse::<usize>` does.
pub fn parse_usize(s: &[u8], from: usize, to: usize) -> (r: Option<usize>)
    requires
        from <= to <= s@.len(),
    ensures
        r matches Some(v) ==> parse_usize_spec(s@.subrange(from as int, to as int)) == Some(
            v as nat,
        ),
        r is None ==> parse_usize_spec(s@.subrange(from as int, to as int)) is None,
{
    let ghost t = s@.subrange(from as int, to as int);
    let mut start = from;
    if to > from && s[from] == 43 {
        start = from + 1;
    }
    let ghost d = s@.subrange(start as int, to as int);
    assert(d =~= (if t.len() > 0 && t[0] == 43 { t.skip(1) } else { t }));
    if start == to {
        assert(d.len() == 0);
        return None;
    }
    let mut v: usize = 0;
    let mut i = start;
    while i < to
        invariant
            from <= start <= i <= to <= s@.len(),
            d == s@.subrange(start as int, to as int),
            d.len() > 0,
            parse_usize_spec(s@.subrange(from as int, to as int)) == (if d.len() > 0 && all_digits(
                d,
            ) && digits_value(d) <= usize::MAX {
                Some(digits_value(d))
            } else {
                None
            }),
            all_digits(d.take(i - start)),
            v == digits_value(d.take(i - start)),
        decreases to - i,
    {
        let c = s[i];
        assert(d.take(i - start + 1).drop_last() =~= d.take(i - start));
        assert(d[i - start] == c);
        assert(d.take(i - start + 1).last() == c);
        if c < 48 || c > 57 {
            assert(d[i - start] == c);
            return None;
        }
        let dv = (c - 48) as usize;
        if v > (usize::MAX - dv) / 10 {
            proof {
                assert(all_digits(d.take(i - start + 1))) by {
                    assert forall|j: int| 0 <= j < i - start + 1 implies 48 <= #[trigger] d.take(
                        i - start + 1,
                    )[j] <= 57 by {
                        if j < i - start {
                            assert(d.take(i - start + 1)[j] == d.take(i - start)[j]);
                        }
                    }
                }
                assert(digits_value(d.take(i - start + 1)) > usize::MAX) by (nonlinear_arith)
                    requires
                        v > (usize::MAX - dv) / 10,
                        digits_value(d.take(i - start + 1)) == v * 10 + dv,
                        dv <= 9,
                ;
                if all_digits(d) {
                    lemma_digits_value_prefix(d, i - start + 1);
                }
            }
            return None;
        }
        proof {
            assert(v * 10 + dv <= usize::MAX) by (nonlinear_arith)
                requires
                    v <= (usize::MAX - dv) / 10,
                    dv <= 9,
            ;
        }
        v = v * 10 + dv;
        i = i + 1;
        assert(all_digits(d.take(i - start))) by {
            assert forall|j: int| 0 <= j < i - start implies 48 <= #[trigger] d.take(
                i - start,
            )[j] <= 57 by {
                if j < i - start - 1 {
                    assert(d.take(i - start)[j] == d.take(i - start - 1)[j]);
                }
            }
        }
    }
    assert(d.take(i - start) =~= d);
    Some(v)
}

/// Decimal digits of `n`, most significant first.
pub open spec fn decimal(n: nat) -> Seq<u8>
    decreases n,
{
    if n < 10 {
        seq![(48 + n) as u8]
    } else {
        decimal(n / 10) + seq![(48 + n % 10) as u8]
    }
}

pub proof fn lemma_decimal_props(n: nat)
    ensures
        decimal(n).len() > 0,
        all_digits(decimal(n)),
        digits_value(decimal(n)) == n,
        decimal(n)[0] != 43,
    decreases n,
{
    if n >= 10 {
        lemma_decimal_props(n / 10);
        let d = decimal(n);
        assert(d.drop_last() =~= decimal(n / 10));
        assert(n == (n / 10) * 10 + n % 10) by (nonlinear_arith);
        assert(d.last() == (48 + n % 10) as u8);
        assert(d.last() as int == 48 + n % 10);
        assert(digits_value(d) == digits_value(d.drop_last()) * 10 + (d.last() - 48) as nat);
    } else {
        let d = decimal(n);
        assert(d.drop_last() =~= Seq::<u8>::empty());
        assert(digits_value(d) == digits_value(d.drop_last()) * 10 + (d.last() - 48) as nat);
        assert forall|i: int| 0 <= i < d.len() implies 48 <= #[trigger] d[i] <= 57 by {
            if i < d.len() - 1 {
                assert(d[i] == decimal(n / 10)[i]);
            }
        }
    }
}

/// Appends the decimal digits of `n` to `out`.
pub fn push_decimal(out: &mut Vec<u8>, n: usize)
    ensures
        final(out)@ == old(out)@ + decimal(n as nat),
{
    push_decimal_u64(out, n as u64);
}

/// Appends the decimal digits of `n` to `out`.
pub fn push_decimal_u64(out: &mut Vec<u8>, n: u64)
    ensures
        final(out)@ == old(out)@ + decimal(n as nat),
    decreases n,
{
    if n < 10 {
        out.push(48 + n as u8);
        assert(decimal(n as nat) =~= seq![(48 + n) as u8]);
    } else {
        push_decimal_u64(out, n / 10);
        out.push(48 + (n % 10) as u8);
    }
}

/// An integer in decimal, with a leading `-` when negative.
pub open spec fn int_text(n: int) -> Seq<u8> {
    if n < 0 {
        seq![45u8] + decimal((-n) as nat)
    } else {
        decimal(n as nat)
    }
}

/// Appends `n` in decimal to `out`.
pub fn push_i64(out: &mut Vec<u8>, n: i64)
    ensures
        final(out)@ == old(out)@ + int_text(n as int),
{
    if n < 0 {
        out.push(45);
        let m: u64 = if n == i64::MIN {
            9223372036854775808u64
        } else {
            (-n) as u64
        };
        push_decimal_u64(out, m);
    } else {
        push_decimal_u64(out, n as u64);
    }
}

/// Appends all of `src` to `out`.
pub fn push_all(out: &mut Vec<u8>, src: &[u8])
    ensures
        final(out)@ == old(out)@ + src@,
{
    let mut i: usize = 0;
    while i < src.len()
        invariant
            i <= src@.len(),
            out@ == old(out)@ + src@.take(i as int),
        decreases src@.len() - i,
    {
        out.push(src[i]);
        i = i + 1;
        assert(src@.take(i as int) =~= src@.take(i - 1) + seq![src@[i - 1]]);
    }
    assert(src@.take(i as int) =~= src@);
}

/// Appends `src[a..b]` to `out`.
pub fn push_range(out: &mut Vec<u8>, src: &[u8], a: usize, b: usize)
    requires
        a <= b <= src@.len(),
    ensures
        final(out)@ == old(out)@ + src@.subrange(a as int, b as int),
{
    let mut i: usize = a;
    while i < b
        invariant
            a <= i <= b <= src@.len(),
            out@ == old(out)@ + src@.subrange(a as int, i as int),
        decreases b - i,
    {
        out.push(src[i]);
        i = i + 1;
        assert(src@.subrange(a as int, i as int) =~= src@.subrange(a as int, i - 1) + seq![
            src@[i - 1],
        ]);
    }
}

/// Whether `a` and `b` hold the same bytes.
pub fn same_bytes(a: &[u8], b: &[u8]) -> (r: bool)
    ensures
        r == (a@ == b@),
{
    if a.len() != b.len() {
        return false;
    }
    let mut i: usize = 0;
    while i < a.len()
        invariant
            i <= a@.len() == b@.len(),
            forall|k: int| 0 <= k < i ==> a@[k] == b@[k],
        decreases a@.len() - i,
    {
        if a[i] != b[i] {
            return false;
        }
        i = i + 1;
    }
    assert(a@ =~= b@);
    true
}

/// Whether index `i` of `s` is a char boundary (executable).
pub fn is_boundary(s: &[u8], i: usize) -> (r: bool)
    ensures
        r == byte_boundary(s@, i as int),
{
    if i == s.len() {
        true
    } else if i < s.len() {
        !(128 <= s[i] && s[i] < 192)
    } else {
        false
    }
}

/// Calls `String::from_utf8_lossy`, which leaves valid UTF-8 unchanged.
/// Like every `String`, the result holds at most `isize::MAX` bytes.
#[verifier::external_body]
pub(crate) fn utf8_to_string(bytes: &[u8]) -> (r: String)
    requires
        valid_utf8(bytes@),
    ensures
        r@ == decode_utf8(bytes@),
        encode_utf8(r@).len() <= isize::MAX,
{
    String::from_utf8_lossy(bytes).into_owned()
}

} // verus!
