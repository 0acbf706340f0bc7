//! Column conversions between the editor (1-based byte columns) and LSP
//! (0-based character offsets), and file base names.

use vstd::prelude::*;
use vstd::string::{StrSliceExecFns, StringSliceAdditionalSpecFns};
use vstd::utf8::{
    decode_utf8, decode_utf8_encode_utf8, decode_utf8_split, encode_utf8, encode_utf8_decode_utf8,
    encode_utf8_valid_utf8,
};

use crate::text::{byte_boundary, lemma_boundary_is_char_boundary, lemma_valid_start_boundary};

verus! {

/// The byte index at which a 1-based byte column stops the prefix that is
/// counted: `col - 1`, at least 0 and at most the length.
pub open spec fn byte_col_end(len: int, col: int) -> int {
    let e = if col > 0 { col - 1 } else { 0 };
    if e < len { e } else { len }
}

/// The number of chars in the text before the 1-based byte column `col`:
/// the count `r` of leading chars whose encoding is the byte prefix.
pub fn byte_to_utf8_char(text: &str, col: usize) -> (r: usize)
    requires
        byte_boundary(text.spec_bytes(), byte_col_end(text.spec_bytes().len() as int, col as int)),
    ensures
        r <= text@.len(),
        encode_utf8(text@.take(r as int)) == text.spec_bytes().take(
            byte_col_end(text.spec_bytes().len() as int, col as int),
        ),
{
    let len = text.as_bytes().len();
    let e = if col > 0 {
        col - 1
    } else {
        0
    };
    let end = if e < len {
        e
    } else {
        len
    };
    assert(end == byte_col_end(text.spec_bytes().len() as int, col as int));
    proof {
        encode_utf8_valid_utf8(text@);
        lemma_boundary_is_char_boundary(text.spec_bytes(), end as int);
    }
    let (head, tail) = text.split_at(end);
    proof {
        let b = text.spec_bytes();
        decode_utf8_split(b, end as int);
        encode_utf8_decode_utf8(text@);
        encode_utf8_decode_utf8(head@);
        encode_utf8_decode_utf8(tail@);
        assert(head.spec_bytes() == b.subrange(0, end as int));
        assert(b.take(end as int) =~= b.subrange(0, end as int));
        assert(text@ == decode_utf8(b.subrange(0, end as int)) + decode_utf8(
            b.subrange(end as int, b.len() as int),
        ));
        assert(head@ == decode_utf8(b.subrange(0, end as int)));
        assert(text@.take(head@.len() as int) =~= head@);
    }
    head.unicode_len()
}

/// The 1-based byte column of the character at 0-based index `char_idx`;
/// one past the end (`len + 1`) when the index is at or beyond the last char.
pub open spec fn char_to_byte_col(chars: Seq<char>, k: int) -> int {
    if k >= chars.len() {
        encode_utf8(chars).len() + 1int
    } else {
        encode_utf8(chars.take(k)).len() + 1int
    }
}

/// Converts a 0-based character offset to a 1-based byte column.
pub fn utf8_char_to_byte(text: &str, char_idx: usize) -> (r: usize)
    requires
        text.spec_bytes().len() <= isize::MAX,
    ensures
        r == char_to_byte_col(text@, char_idx as int),
{
    if char_idx == 0 {
        proof {
            assert(text@.take(0) =~= Seq::<char>::empty());
            if text@.len() == 0 {
                assert(text@ =~= Seq::<char>::empty());
            }
        }
        return 1;
    }
    let n = text.unicode_len();
    if char_idx >= n {
        return text.len() + 1;
    }
    let prefix = text.substring_char(0, char_idx);
    assert(prefix@ =~= text@.take(char_idx as int));
    proof {
        lemma_encode_concat(text@.take(char_idx as int), text@.skip(char_idx as int));
        assert(text@.take(char_idx as int) + text@.skip(char_idx as int) =~= text@);
    }
    prefix.len() + 1
}

pub proof fn lemma_encode_concat(a: Seq<char>, b: Seq<char>)
    ensures
        encode_utf8(a + b) == encode_utf8(a) + encode_utf8(b),
    decreases a.len(),
{
    if a.len() > 0 {
        lemma_encode_concat(a.drop_first(), b);
        assert((a + b).drop_first() =~= a.drop_first() + b);
        assert((a + b)[0] == a[0]);
    } else {
        assert(a + b =~= b);
    }
}

/// Converting a character offset to a byte column and counting the chars
/// before that column gives the offset back (at most the number of chars),
/// and the column always falls on a character boundary.
pub proof fn char_byte_column_roundtrip(chars: Seq<char>, k: nat, r: nat)
    ensures
        byte_boundary(
            encode_utf8(chars),
            byte_col_end(encode_utf8(chars).len() as int, char_to_byte_col(chars, k as int)),
        ),
        r <= chars.len() && encode_utf8(chars.take(r as int)) == encode_utf8(chars).take(
            byte_col_end(encode_utf8(chars).len() as int, char_to_byte_col(chars, k as int)),
        ) ==> r == (if k < chars.len() { k } else { chars.len() }),
{
    let b = encode_utf8(chars);
    let kk: int = if k < chars.len() { k as int } else { chars.len() as int };
    lemma_encode_concat(chars.take(kk), chars.skip(kk));
    assert(chars.take(kk) + chars.skip(kk) =~= chars);
    let end = encode_utf8(chars.take(kk)).len() as int;
    assert(byte_col_end(b.len() as int, char_to_byte_col(chars, k as int)) == end) by {
        if k >= chars.len() {
            assert(chars.take(kk) =~= chars);
        }
    }
    assert(b.take(end) =~= encode_utf8(chars.take(kk)));
    let s = encode_utf8(chars.skip(kk));
    encode_utf8_valid_utf8(chars.skip(kk));
    lemma_valid_start_boundary(s);
    if end < b.len() {
        assert(b[end] == s[0]);
    }
    if r <= chars.len() && encode_utf8(chars.take(r as int)) == b.take(end) {
        encode_utf8_decode_utf8(chars.take(r as int));
        encode_utf8_decode_utf8(chars.take(kk));
        assert(chars.take(r as int).len() == chars.take(kk).len());
    }
}

/// Whether a byte separates path components (`/` or `\`).
pub open spec fn is_sep(b: u8) -> bool {
    b == 47 || b == 92
}

/// The last component of a path: what follows its last `/` or `\`.
pub open spec fn basename_spec(p: Seq<u8>) -> Seq<u8>
    decreases p.len(),
{
    if p.len() == 0 {
        p
    } else if is_sep(p.last()) {
        seq![]
    } else {
        basename_spec(p.drop_last()).push(p.last())
    }
}

/// The last component of `path`.
pub fn basename(path: &str) -> (r: Vec<u8>)
    ensures
        r@ == basename_spec(path.spec_bytes()),
{
    let b = path.as_bytes();
    let mut start = b.len();
    assert(b@.take(start as int) =~= b@);
    assert(b@.subrange(start as int, b@.len() as int) =~= Seq::<u8>::empty());
    assert(b@ + Seq::<u8>::empty() =~= b@);
    while start > 0 && !(b[start - 1] == 47 || b[start - 1] == 92)
        invariant
            start <= b@.len(),
            basename_spec(b@) == basename_spec(b@.take(start as int)) + b@.subrange(
                start as int,
                b@.len() as int,
            ),
        decreases start,
    {
        assert(b@.take(start as int).drop_last() =~= b@.take(start - 1));
        assert(b@.subrange(start - 1, b@.len() as int) =~= seq![b@[start - 1]] + b@.subrange(
            start as int,
            b@.len() as int,
        ));
        assert(basename_spec(b@.take(start as int)) =~= basename_spec(b@.take(start - 1)).push(
            b@[start - 1],
        ));
        start = start - 1;
    }
    assert(basename_spec(b@.take(start as int)) =~= Seq::<u8>::empty()) by {
        if start > 0 {
            assert(b@.take(start as int).last() == b@[start - 1]);
        }
    }
    let mut out: Vec<u8> = Vec::new();
    crate::text::push_range(&mut out, b, start, b.len());
    assert(out@ =~= basename_spec(b@));
    out
}

} // verus!
