//! Turning a selection into a double-quoted string literal with escapes.

use vstd::prelude::*;
use vstd::string::StringSliceAdditionalSpecFns;

verus! {

/// A lowercase hexadecimal digit for `0 <= n < 16`.
pub open spec fn hex_char(n: u8) -> char {
    if n < 10 {
        (48 + n) as char
    } else {
        (87 + n) as char
    }
}

/// What one byte of the selection becomes inside the quotes.  A byte of 128
/// or more is written as the character with that code point.
pub open spec fn escape_byte(b: u8) -> Seq<char> {
    if b == 92 {
        seq!['\\', '\\']
    } else if b == 34 {
        seq!['\\', '"']
    } else if b == 10 {
        seq!['\\', 'n']
    } else if b == 13 {
        seq!['\\', 'r']
    } else if b == 9 {
        seq!['\\', 't']
    } else if b == 8 {
        seq!['\\', 'b']
    } else if b <= 31 || b == 127 {
        seq!['\\', 'x', hex_char(b / 16), hex_char(b % 16)]
    } else {
        seq![b as char]
    }
}

/// The escapes of all bytes, in order.
pub open spec fn escape_all(b: Seq<u8>) -> Seq<char>
    decreases b.len(),
{
    if b.len() == 0 {
        seq![]
    } else {
        escape_all(b.drop_last()) + escape_byte(b.last())
    }
}

/// The quoted literal for these bytes.
pub open spec fn quote_spec(b: Seq<u8>) -> Seq<char> {
    seq!['"'] + escape_all(b) + seq!['"']
}

fn hex_digit(n: u8) -> (c: char)
    requires
        n < 16,
    ensures
        c == hex_char(n),
{
    if n < 10 {
        (48 + n) as char
    } else {
        (87 + n) as char
    }
}

fn push_escaped(out: &mut Vec<char>, b: u8)
    ensures
        final(out)@ == old(out)@ + escape_byte(b),
{
    if b == 92 {
        out.push('\\');
        out.push('\\');
    } else if b == 34 {
        out.push('\\');
        out.push('"');
    } else if b == 10 {
        out.push('\\');
        out.push('n');
    } else if b == 13 {
        out.push('\\');
        out.push('r');
    } else if b == 9 {
        out.push('\\');
        out.push('t');
    } else if b == 8 {
        out.push('\\');
        out.push('b');
    } else if b <= 31 || b == 127 {
        out.push('\\');
        out.push('x');
        out.push(hex_digit(b / 16));
        out.push(hex_digit(b % 16));
    } else {
        out.push(b as char);
    }
}

/// `text` between double quotes, with `\`, `"`, and control bytes escaped.
pub fn escape_for_quote(text: &str) -> (r: Vec<char>)
    ensures
        r@ == quote_spec(text.spec_bytes()),
{
    let b = text.as_bytes();
    let mut out: Vec<char> = Vec::new();
    out.push('"');
    let mut i: usize = 0;
    while i < b.len()
        invariant
            i <= b@.len(),
            out@ == seq!['"'] + escape_all(b@.take(i as int)),
        decreases b@.len() - i,
    {
        assert(b@.take(i + 1).drop_last() =~= b@.take(i as int));
        push_escaped(&mut out, b[i]);
        i = i + 1;
        assert(out@ =~= seq!['"'] + escape_all(b@.take(i as int)));
    }
    assert(b@.take(b@.len() as int) =~= b@);
    out.push('"');
    assert(out@ =~= quote_spec(b@));
    out
}

} // verus!
