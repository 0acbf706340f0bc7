//! Path globs of the project search and replace views, turned into anchored
//! regular expressions, and the flags of the project's ignore patterns.

use vstd::prelude::*;
use vstd::string::StringSliceAdditionalSpecFns;

use crate::project_model::normalize_spec;

verus! {

/// Bytes that stand for themselves in a glob but are special in a regular
/// expression: `\ + ^ $ ( ) . | [ ] { }`.
pub open spec fn is_regex_meta(x: u8) -> bool {
    x == 92 || x == 43 || x == 94 || x == 36 || x == 40 || x == 41 || x == 46 || x == 124 || x
        == 91 || x == 93 || x == 123 || x == 125
}

/// The expression for the glob `g` from byte `i` on: `**` matches anything,
/// `*` anything but `/`, `?` any one character; other characters match
/// themselves.
pub open spec fn glob_from(g: Seq<u8>, i: int) -> Seq<u8>
    decreases g.len() - i,
{
    if i < 0 || i >= g.len() {
        seq![]
    } else if i + 1 < g.len() && g[i] == 42 && g[i + 1] == 42 {
        seq![46u8, 42u8] + glob_from(g, i + 2)
    } else if g[i] == 42 {
        seq![91u8, 94u8, 47u8, 93u8, 42u8] + glob_from(g, i + 1)
    } else if g[i] == 63 {
        seq![46u8] + glob_from(g, i + 1)
    } else if is_regex_meta(g[i]) {
        seq![92u8, g[i]] + glob_from(g, i + 1)
    } else {
        seq![g[i]] + glob_from(g, i + 1)
    }
}

/// The anchored expression for the whole glob.
pub open spec fn glob_spec(g: Seq<u8>) -> Seq<u8> {
    seq![94u8] + glob_from(g, 0) + seq![36u8]
}

fn is_meta(x: u8) -> (r: bool)
    ensures
        r == is_regex_meta(x),
{
    x == 92 || x == 43 || x == 94 || x == 36 || x == 40 || x == 41 || x == 46 || x == 124 || x
        == 91 || x == 93 || x == 123 || x == 125
}

fn glob_bytes(g: &[u8]) -> (out: Vec<u8>)
    ensures
        out@ == glob_spec(g@),
{
    let mut out: Vec<u8> = Vec::new();
    out.push(94);
    let mut i: usize = 0;
    while i < g.len()
        invariant
            i <= g@.len(),
            glob_spec(g@) == out@ + glob_from(g@, i as int) + seq![36u8],
        decreases g@.len() - i,
    {
        let ghost before = out@;
        let ghost i0 = i as int;
        if i + 1 < g.len() && g[i] == 42 && g[i + 1] == 42 {
            out.push(46);
            out.push(42);
            i = i + 2;
        } else if g[i] == 42 {
            out.push(91);
            out.push(94);
            out.push(47);
            out.push(93);
            out.push(42);
            i = i + 1;
        } else if g[i] == 63 {
            out.push(46);
            i = i + 1;
        } else if is_meta(g[i]) {
            out.push(92);
            out.push(g[i]);
            i = i + 1;
        } else {
            out.push(g[i]);
            i = i + 1;
        }
        assert(before + glob_from(g@, i0) =~= out@ + glob_from(g@, i as int));
    }
    out.push(36);
    assert(glob_spec(g@) =~= out@);
    out
}

/// The anchored regular expression for a path glob.
pub fn glob_to_lua_pattern(glob: &str) -> (out: Vec<u8>)
    ensures
        out@ == glob_spec(glob.spec_bytes()),
{
    glob_bytes(glob.as_bytes())
}

/// The expression the search views match relative paths against: the glob
/// with its separators written as `/`, then converted.
pub fn path_glob_pattern(glob: &str) -> (out: Vec<u8>)
    ensures
        out@ == glob_spec(normalize_spec(glob.spec_bytes())),
{
    let g = crate::project_model::normalize_path(glob);
    glob_bytes(g.as_slice())
}

/// `s` without the run of byte `b` at its end.
pub open spec fn strip_trailing(s: Seq<u8>, b: u8) -> Seq<u8>
    decreases s.len(),
{
    if s.len() > 0 && s.last() == b {
        strip_trailing(s.drop_last(), b)
    } else {
        s
    }
}

/// Whether byte `b` occurs in `s`.
pub open spec fn has_byte(s: Seq<u8>, b: u8) -> bool {
    exists|k: int| 0 <= k < s.len() && #[trigger] s[k] == b
}

/// An ignore pattern is matched against whole paths when it holds a `/`
/// before its trailing `$`s and `/`s.
pub open spec fn uses_path_spec(p: Seq<u8>) -> bool {
    has_byte(p, 47) && has_byte(strip_trailing(strip_trailing(p, 36), 47), 47)
}

/// An ignore pattern matches directories only when it ends with `/` or `/$`.
pub open spec fn matches_dir_spec(p: Seq<u8>) -> bool {
    (p.len() >= 1 && p.last() == 47) || (p.len() >= 2 && p[p.len() - 2] == 47 && p.last() == 36)
}

fn strip_end(s: &[u8], to: usize, b: u8) -> (r: usize)
    requires
        to <= s@.len(),
    ensures
        r <= to,
        s@.take(r as int) == strip_trailing(s@.take(to as int), b),
{
    let mut e = to;
    while e > 0 && s[e - 1] == b
        invariant
            e <= to <= s@.len(),
            strip_trailing(s@.take(to as int), b) == strip_trailing(s@.take(e as int), b),
        decreases e,
    {
        assert(s@.take(e as int).drop_last() =~= s@.take(e - 1));
        e = e - 1;
    }
    e
}

fn find_byte(s: &[u8], to: usize, b: u8) -> (r: bool)
    requires
        to <= s@.len(),
    ensures
        r == has_byte(s@.take(to as int), b),
{
    let mut i: usize = 0;
    while i < to
        invariant
            i <= to <= s@.len(),
            forall|k: int| 0 <= k < i ==> s@[k] != b,
        decreases to - i,
    {
        if s[i] == b {
            assert(s@.take(to as int)[i as int] == b);
            return true;
        }
        i = i + 1;
    }
    false
}

/// The two flags of an ignore pattern: whether it is matched against the
/// whole relative path, and whether it matches directories only.
pub fn ignore_pattern_flags(pattern: &str) -> (r: (bool, bool))
    ensures
        r.0 == uses_path_spec(pattern.spec_bytes()),
        r.1 == matches_dir_spec(pattern.spec_bytes()),
{
    let p = pattern.as_bytes();
    let n = p.len();
    assert(p@.take(n as int) =~= p@);
    let any_slash = find_byte(p, n, 47);
    let e1 = strip_end(p, n, 36);
    let e2 = strip_end(p, e1, 47);
    assert(p@.take(e2 as int) =~= strip_trailing(strip_trailing(p@, 36), 47)) by {
        assert(p@.take(e1 as int).take(e2 as int) =~= p@.take(e2 as int));
    }
    let inner_slash = find_byte(p, e2, 47);
    let dir = (n >= 1 && p[n - 1] == 47) || (n >= 2 && p[n - 2] == 47 && p[n - 1] == 36);
    (any_slash && inner_slash, dir)
}

} // verus!
