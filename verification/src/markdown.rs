//! Small decisions of the markdown preview: how many lines a code block
//! takes, and the shell command that opens a clicked link.

use vstd::prelude::*;
use vstd::string::StringSliceAdditionalSpecFns;

use crate::swap::{replace_bytes, replace_bytes_spec};
use crate::text::push_all;

verus! {

/// The number of `\n` bytes in `b`.
pub open spec fn count_newlines(b: Seq<u8>) -> nat
    decreases b.len(),
{
    if b.len() == 0 {
        0
    } else {
        count_newlines(b.drop_last()) + if b.last() == 10 {
            1nat
        } else {
            0nat
        }
    }
}

pub proof fn lemma_count_newlines_bound(b: Seq<u8>)
    ensures
        count_newlines(b) <= b.len(),
    decreases b.len(),
{
    if b.len() > 0 {
        lemma_count_newlines_bound(b.drop_last());
    }
}

/// The lines a code block with this text takes: one more than its new
/// lines.
pub fn code_block_line_count(text: &str) -> (r: usize)
    requires
        text.spec_bytes().len() < usize::MAX,
    ensures
        r == count_newlines(text.spec_bytes()) + 1,
{
    let b = text.as_bytes();
    let mut n: usize = 0;
    let mut i: usize = 0;
    while i < b.len()
        invariant
            i <= b@.len(),
            b@.len() < usize::MAX,
            n == count_newlines(b@.take(i as int)),
        decreases b@.len() - i,
    {
        assert(b@.take(i + 1).drop_last() =~= b@.take(i as int));
        proof {
            lemma_count_newlines_bound(b@.take(i as int));
        }
        if b[i] == 10 {
            n = n + 1;
        }
        i = i + 1;
    }
    assert(b@.take(i as int) =~= b@);
    proof {
        lemma_count_newlines_bound(b@);
    }
    n + 1
}

/// `open` (macOS) or `xdg-open`, then the link in single quotes with each
/// `'` written as `'\''`.
pub open spec fn open_command_spec(href: Seq<u8>, has_open: bool) -> Seq<u8> {
    let program = if has_open {
        seq![111u8, 112, 101, 110]
    } else {
        seq![120u8, 100, 103, 45, 111, 112, 101, 110]
    };
    program + seq![32u8, 39u8] + replace_bytes_spec(href, seq![39u8], seq![39u8, 92, 39, 39])
        + seq![39u8]
}

/// The shell command that opens `href`; `has_open` tells whether an `open`
/// program exists on this system.
pub fn open_url_command(href: &str, has_open: bool) -> (r: Vec<u8>)
    ensures
        r@ == open_command_spec(href.spec_bytes(), has_open),
{
    let quote: Vec<u8> = vec![39u8];
    let escaped_quote: Vec<u8> = vec![39u8, 92, 39, 39];
    assert(quote@ =~= seq![39u8]);
    assert(escaped_quote@ =~= seq![39u8, 92, 39, 39]);
    let escaped = replace_bytes(href.as_bytes(), quote.as_slice(), escaped_quote.as_slice());
    let mut out: Vec<u8> = if has_open {
        vec![111u8, 112, 101, 110]
    } else {
        vec![120u8, 100, 103, 45, 111, 112, 101, 110]
    };
    out.push(32);
    out.push(39);
    push_all(&mut out, escaped.as_slice());
    out.push(39);
    assert(out@ =~= open_command_spec(href.spec_bytes(), has_open));
    out
}

} // verus!
