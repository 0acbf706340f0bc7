//! Searching a file's text line by line, parsing the search and replace
//! modes, the per-file outcome of a project replace, and the rows the
//! results view shows.

use vstd::prelude::*;
use vstd::string::StringSliceAdditionalSpecFns;
use vstd::utf8::{encode_utf8_decode_utf8, decode_utf8, decode_utf8_encode_utf8, encode_utf8, encode_utf8_valid_utf8, valid_utf8};

use crate::search::{
    compile_regex, fuzzy_match_line, regex_pattern, fuzzy_spec, lower_if, pcre_compiles, pcre_error, pcre_find,
    preview_spec, preview_text, regex_find_start, search_bytes, CompiledRegex, lowercase,
    count_occurrences, replace_plain_counts_occurrences,
};
use crate::swap::{error_kind, matcher_spec, swap_content, swap_spec, ReplaceErrorKind, ReplaceMode, ReplaceOpts};
use crate::search::{replace_all_plain, replace_all_regex, ReplaceError};
use crate::text::{
    find_bytes_from, find_from, lemma_find_from_props, lemma_valid_start_boundary,
    lemma_valid_subrange, byte_boundary, same_bytes, utf8_to_string, occurs_at,
};

verus! {

/// The byte ranges of the lines of `b` from index `i`, as `str::lines`
/// gives them: split after each `\n`, with the `\n` and a `\r` just before
/// it removed; no empty line after a final `\n`.
pub open spec fn lines_from(b: Seq<u8>, i: int) -> Seq<(int, int)>
    decreases b.len() - i,
{
    if i < 0 || i >= b.len() {
        seq![]
    } else {
        match find_from(b, seq![10u8], i) {
            None => seq![(i, b.len() as int)],
            Some(j) => {
                proof {
                    lemma_find_from_props(b, seq![10u8], i);
                }
                seq![(i, if j > i && b[j - 1] == 13 { j - 1 } else { j })] + lines_from(b, j + 1)
            },
        }
    }
}

/// How a project search matches lines.
pub enum SearchMode {
    Plain,
    Regex,
    Fuzzy,
}

/// The options of a project search, without the file list.
pub struct SearchOpts {
    pub query: String,
    pub mode: SearchMode,
    pub no_case: bool,
}

/// One hit: 1-based line and column, and the preview text.
pub struct LineHit {
    pub line: usize,
    pub col: usize,
    pub text: Vec<u8>,
}

/// Why searching a text failed.
pub enum SearchError {
    /// The regex did not compile.
    Regex(pcre2::Error),
    /// A preview would cut the line inside a character.
    BadCut,
}

/// The 1-based column of the first match in one line (`line` holds its
/// bytes): plain text after optional lower-casing, a regex over the bytes, or
/// a fuzzy subsequence over the chars.
pub open spec fn line_col_spec(
    mode: SearchMode,
    line: Seq<u8>,
    q: Seq<char>,
    nc: bool,
    pat: Seq<char>,
) -> Option<int> {
    match mode {
        SearchMode::Plain => match find_from(
            search_bytes(decode_utf8(line), nc),
            search_bytes(q, nc),
            0,
        ) {
            Some(i) => Some(i + 1),
            None => None,
        },
        SearchMode::Regex => match pcre_find(pat, line, 0) {
            Some((a, _)) => Some(a + 1),
            None => None,
        },
        SearchMode::Fuzzy => fuzzy_spec(decode_utf8(line), q, nc),
    }
}

/// The hits of the lines `ls` (numbered from `first`) of the text `b`:
/// `(line, column, preview)`, or `None` when a preview would cut a character.
pub open spec fn hits_spec(
    b: Seq<u8>,
    ls: Seq<(int, int)>,
    first: int,
    mode: SearchMode,
    q: Seq<char>,
    nc: bool,
    pat: Seq<char>,
) -> Option<Seq<(int, int, Seq<u8>)>>
    decreases ls.len(),
{
    if ls.len() == 0 {
        Some(seq![])
    } else {
        let line = b.subrange(ls[0].0, ls[0].1);
        let rest = hits_spec(b, ls.drop_first(), first + 1, mode, q, nc, pat);
        match line_col_spec(mode, line, q, nc, pat) {
            None => rest,
            Some(col) => match preview_spec(line, col) {
                None => None,
                Some(text) => match rest {
                    None => None,
                    Some(hs) => Some(seq![(first, col, text)] + hs),
                },
            },
        }
    }
}

pub open spec fn hit_view(h: LineHit) -> (int, int, Seq<u8>) {
    (h.line as int, h.col as int, h.text@)
}

/// Parses the mode name of a search: `regex`, `fuzzy`, anything else plain.
pub fn parse_search_mode(mode: &str) -> (r: SearchMode)
    ensures
        mode.spec_bytes() == seq![114u8, 101, 103, 101, 120] ==> r is Regex,
        mode.spec_bytes() == seq![102u8, 117, 122, 122, 121] ==> r is Fuzzy,
        mode.spec_bytes() != seq![114u8, 101, 103, 101, 120] && mode.spec_bytes() != seq![
            102u8,
            117,
            122,
            122,
            121,
        ] ==> r is Plain,
{
    let b = mode.as_bytes();
    if b.len() == 5 && b[0] == 114 && b[1] == 101 && b[2] == 103 && b[3] == 101 && b[4] == 120 {
        assert(b@ =~= seq![114u8, 101, 103, 101, 120]);
        SearchMode::Regex
    } else if b.len() == 5 && b[0] == 102 && b[1] == 117 && b[2] == 122 && b[3] == 122 && b[4]
        == 121 {
        assert(b@ =~= seq![102u8, 117, 122, 122, 121]);
        SearchMode::Fuzzy
    } else {
        SearchMode::Plain
    }
}

/// Parses the mode name of a replace: `regex`, `swap`, anything else plain.
pub fn parse_replace_mode(mode: &str) -> (r: ReplaceMode)
    ensures
        mode.spec_bytes() == seq![114u8, 101, 103, 101, 120] ==> r is Regex,
        mode.spec_bytes() == seq![115u8, 119, 97, 112] ==> r is Swap,
        mode.spec_bytes() != seq![114u8, 101, 103, 101, 120] && mode.spec_bytes() != seq![
            115u8,
            119,
            97,
            112,
        ] ==> r is Plain,
{
    let b = mode.as_bytes();
    if b.len() == 5 && b[0] == 114 && b[1] == 101 && b[2] == 103 && b[3] == 101 && b[4] == 120 {
        assert(b@ =~= seq![114u8, 101, 103, 101, 120]);
        ReplaceMode::Regex
    } else if b.len() == 4 && b[0] == 115 && b[1] == 119 && b[2] == 97 && b[3] == 112 {
        assert(b@ =~= seq![115u8, 119, 97, 112]);
        ReplaceMode::Swap
    } else {
        ReplaceMode::Plain
    }
}

fn line_col(mode: &SearchMode, line: &str, query: &str, no_case: bool, re: &Option<CompiledRegex>) -> (r: Option<usize>)
    requires
        line.spec_bytes().len() <= isize::MAX,
        query.spec_bytes().len() <= isize::MAX,
        mode is Regex ==> re is Some,
    ensures
        ({
            let pat = match re {
                Some(x) => x@,
                None => Seq::<char>::empty(),
            };
            &&& r matches Some(c) ==> line_col_spec(*mode, line.spec_bytes(), query@, no_case, pat)
                == Some(c as int)
            &&& r is None ==> line_col_spec(*mode, line.spec_bytes(), query@, no_case, pat) is None
        }),
{
    proof {
        encode_utf8_decode_utf8(line@);
    }
    match mode {
        SearchMode::Plain => {
            let hay = lower_if(line, no_case);
            let needle = lower_if(query, no_case);
            let h = hay.as_str().as_bytes();
            let n = needle.as_str().as_bytes();
            proof {
                lemma_find_from_props(h@, n@, 0);
            }
            match find_bytes_from(h, n, 0) {
                Some(i) => Some(i + 1),
                None => None,
            }
        },
        SearchMode::Regex => match re {
            Some(x) => regex_find_start(x, line),
            None => None,
        },
        SearchMode::Fuzzy => fuzzy_match_line(line, query, no_case),
    }
}

/// The end of the line that starts at `i` and the start of the next one.
fn next_line(b: &[u8], i: usize) -> (r: (usize, usize))
    requires
        i < b@.len(),
        valid_utf8(b@),
        byte_boundary(b@, i as int),
    ensures
        i <= r.0 <= r.1 <= b@.len(),
        i < r.1,
        byte_boundary(b@, r.1 as int),
        valid_utf8(b@.subrange(i as int, r.0 as int)),
        lines_from(b@, i as int) == seq![(i as int, r.0 as int)] + lines_from(b@, r.1 as int),
{
    let nl: [u8; 1] = [10];
    assert(nl@ =~= seq![10u8]);
    let bl = b.len();
    proof {
        lemma_find_from_props(b@, seq![10u8], i as int);
    }
    let (end, next) = match find_bytes_from(b, nl.as_slice(), i) {
        None => (b.len(), b.len()),
        Some(j) => {
            assert(b@.subrange(j as int, j + 1)[0] == 10);
            if j > i && b[j - 1] == 13 {
                (j - 1, j + 1)
            } else {
                (j, j + 1)
            }
        },
    };
    proof {
        if next < b@.len() {
            assert(b@[next - 1] == 10);
            crate::text::lemma_after_ascii_boundary(b@, next - 1);
        }
        lemma_valid_subrange(b@, i as int, end as int);
    }
    (end, next)
}

/// The hit of one line, if it matches.
fn line_hit(
    line: &str,
    line_no: usize,
    mode: &SearchMode,
    query: &str,
    no_case: bool,
    re: &Option<CompiledRegex>,
) -> (r: Result<Option<LineHit>, SearchError>)
    requires
        line.spec_bytes().len() <= isize::MAX,
        query.spec_bytes().len() <= isize::MAX,
        mode is Regex ==> re is Some,
    ensures
        ({
            let pat = match re {
                Some(x) => x@,
                None => Seq::<char>::empty(),
            };
            match line_col_spec(*mode, line.spec_bytes(), query@, no_case, pat) {
                None => r matches Ok(None),
                Some(col) => match preview_spec(line.spec_bytes(), col) {
                    None => r matches Err(SearchError::BadCut),
                    Some(text) => r matches Ok(Some(h)) && hit_view(h) == (
                        line_no as int,
                        col,
                        text,
                    ),
                },
            }
        }),
{
    match line_col(mode, line, query, no_case, re) {
        None => Ok(None),
        Some(c) => match preview_text(line, c) {
            Err(_) => Err(SearchError::BadCut),
            Ok(text) => Ok(Some(LineHit { line: line_no, col: c, text })),
        },
    }
}

/// Whether the hits `v` are exactly `hs`.
pub open spec fn hits_match(v: Seq<LineHit>, hs: Seq<(int, int, Seq<u8>)>) -> bool {
    v.len() == hs.len() && forall|k: int| 0 <= k < v.len() ==> #[trigger] hit_view(v[k]) == hs[k]
}

/// Searches `content` line by line (lines as `str::lines` splits them) and
/// returns a hit for every line that matches: its 1-based line number, the
/// 1-based column of the match and a preview of the line.
pub fn search_text(content: &str, opts: &SearchOpts) -> (r: Result<Vec<LineHit>, SearchError>)
    requires
        content.spec_bytes().len() <= isize::MAX,
        encode_utf8(opts.query@).len() <= isize::MAX,
    ensures
        (opts.mode is Regex && !pcre_compiles(opts.query@)) <==> r matches Err(SearchError::Regex(_)),
        !(opts.mode is Regex && !pcre_compiles(opts.query@)) ==> match hits_spec(
            content.spec_bytes(),
            lines_from(content.spec_bytes(), 0),
            1,
            opts.mode,
            opts.query@,
            opts.no_case,
            opts.query@,
        ) {
            Some(hs) => r matches Ok(v) && hits_match(v@, hs),
            None => r matches Err(SearchError::BadCut),
        },
        r matches Err(SearchError::Regex(e)) ==> e == pcre_error(opts.query@),
{
    let query = opts.query.as_str();
    let re: Option<CompiledRegex> = match opts.mode {
        SearchMode::Regex => match compile_regex(query) {
            Ok(x) => Some(x),
            Err(e) => {
                return Err(SearchError::Regex(e));
            },
        },
        _ => None,
    };
    let ghost pat = opts.query@;
    let b = content.as_bytes();
    proof {
        encode_utf8_valid_utf8(content@);
        lemma_valid_start_boundary(b@);
    }
    let ghost full = hits_spec(b@, lines_from(b@, 0), 1, opts.mode, opts.query@, opts.no_case, pat);
    let nl: [u8; 1] = [10];
    assert(nl@ =~= seq![10u8]);
    let mut out: Vec<LineHit> = Vec::new();
    let ghost mut acc: Seq<(int, int, Seq<u8>)> = seq![];
    let mut i: usize = 0;
    let mut line_no: usize = 1;
    loop
        invariant
            b@ == content.spec_bytes(),
            valid_utf8(b@),
            b@.len() <= isize::MAX,
            nl@ == seq![10u8],
            query@ == opts.query@,
            encode_utf8(query@).len() <= isize::MAX,
            opts.mode is Regex ==> (re matches Some(x) && x@ == pat),
            pat == opts.query@,
            i <= b@.len(),
            1 <= line_no <= i + 1,
            byte_boundary(b@, i as int),
            !(opts.mode is Regex && !pcre_compiles(opts.query@)),
            hits_match(out@, acc),
            full == hits_spec(b@, lines_from(b@, 0), 1, opts.mode, opts.query@, opts.no_case, pat),
            full == match hits_spec(
                b@,
                lines_from(b@, i as int),
                line_no as int,
                opts.mode,
                opts.query@,
                opts.no_case,
                pat,
            ) {
                Some(hs) => Some(acc + hs),
                None => None,
            },
        decreases b@.len() - i,
    {
        if i >= b.len() {
            assert(acc + Seq::<(int, int, Seq<u8>)>::empty() =~= acc);
            return Ok(out);
        }
        let (end, next) = next_line(b, i);
        proof {
            let ls = lines_from(b@, i as int);
            assert(ls[0] == (i as int, end as int));
            assert(ls.drop_first() =~= lines_from(b@, next as int));
        }
        let line = utf8_to_string(&b[i..end]);
        proof {
            decode_utf8_encode_utf8(b@.subrange(i as int, end as int));
        }
        match line_hit(line.as_str(), line_no, &opts.mode, query, opts.no_case, &re) {
            Err(e) => {
                return Err(e);
            },
            Ok(None) => {},
            Ok(Some(hit)) => {
                let ghost h = hit_view(hit);
                out.push(hit);
                proof {
                    let old_acc = acc;
                    acc = acc.push(h);
                    assert forall|k: int| 0 <= k < out@.len() implies #[trigger] hit_view(
                        out@[k],
                    ) == acc[k] by {
                        if k < old_acc.len() {
                            assert(hit_view(out@[k]) == old_acc[k]);
                        }
                    }
                    let hs_next = hits_spec(
                        b@,
                        lines_from(b@, next as int),
                        line_no + 1,
                        opts.mode,
                        opts.query@,
                        opts.no_case,
                        pat,
                    );
                    match hs_next {
                        Some(hs) => {
                            assert(old_acc + (seq![h] + hs) =~= acc + hs);
                        },
                        None => {},
                    }
                }
            },
        }
        i = next;
        line_no = line_no + 1;
    }
}

/// What one file's text becomes under a project replace: the new text and
/// the number of replacements, or the kind of failure.
pub open spec fn file_replace_spec(opts: ReplaceOpts, content: Seq<char>) -> Result<
    (Seq<u8>, nat),
    ReplaceErrorKind,
> {
    match opts.mode {
        ReplaceMode::Plain => matcher_spec(
            content,
            opts.query@,
            false,
            opts.no_case,
            encode_utf8(opts.replace@),
        ),
        ReplaceMode::Regex => matcher_spec(
            content,
            opts.query@,
            true,
            opts.no_case,
            encode_utf8(opts.replace@),
        ),
        ReplaceMode::Swap => swap_spec(
            content,
            opts.query@,
            encode_utf8(opts.replace@),
            opts.no_case,
            opts.query_b_view(),
            opts.query_b_regex,
            opts.query_b_case,
            opts.query_a_regex,
        ),
    }
}

/// Rewrites one file's text as the replace options say.  `Ok(None)` when
/// nothing was replaced, so the file is left alone.
pub fn replace_in_text(opts: &ReplaceOpts, content: &str) -> (r: Result<
    Option<(Vec<u8>, usize)>,
    ReplaceError,
>)
    requires
        content.spec_bytes().len() <= isize::MAX,
        encode_utf8(opts.query@).len() <= isize::MAX,
        opts.mode is Plain ==> opts.query@.len() > 0,
        opts.mode is Swap ==> opts.swap_ready(),
    ensures
        match file_replace_spec(*opts, content@) {
            Ok((t, k)) => if k == 0 {
                r matches Ok(None)
            } else {
                r matches Ok(Some((out, n))) && out@ == t && n == k
            },
            Err(kind) => r matches Err(e) && error_kind(e) == kind,
        },
        opts.mode is Regex ==> (r matches Err(ReplaceError::Regex(e)) ==> e == pcre_error(
            regex_pattern(opts.query@, opts.no_case),
        )),
{
    let result = match opts.mode {
        ReplaceMode::Plain => match replace_all_plain(
            content,
            opts.query.as_str(),
            opts.replace.as_str(),
            opts.no_case,
        ) {
            Ok(x) => Ok(x),
            Err(_) => Err(ReplaceError::BadCut),
        },
        ReplaceMode::Regex => replace_all_regex(
            content,
            opts.query.as_str(),
            opts.replace.as_str(),
            opts.no_case,
        ),
        ReplaceMode::Swap => swap_content(opts, content),
    };
    match result {
        Err(e) => Err(e),
        Ok((text, count)) => {
            if count == 0 {
                Ok(None)
            } else {
                Ok(Some((text, count)))
            }
        },
    }
}

/// A row of the search results view.
#[derive(PartialEq, Eq, Structural, Debug, Clone, Copy)]
pub enum DisplayRow {
    /// A file heading, naming the file of the result with this index.
    File(usize),
    /// A match, with the number of the result it shows.
    Match(i64),
}

/// The file of the last result before the first `n`, which the rows of the
/// next result are compared with; none (the empty name) at the start.
pub open spec fn last_file(files: Seq<&str>, n: int) -> Seq<u8> {
    if n <= 0 {
        Seq::empty()
    } else {
        files[n - 1].spec_bytes()
    }
}

/// The rows for the first `n` results: a heading wherever the file differs
/// from the previous result's, then one row per match numbered by its own
/// index or, lacking one, by the row's 1-based position.
pub open spec fn rows_spec(files: Seq<&str>, idx: Seq<Option<i64>>, n: nat) -> Seq<DisplayRow>
    decreases n,
{
    if n == 0 {
        Seq::empty()
    } else {
        let prev = rows_spec(files, idx, (n - 1) as nat);
        let with_head = if files[n - 1].spec_bytes() != last_file(files, n - 1) {
            prev.push(DisplayRow::File((n - 1) as usize))
        } else {
            prev
        };
        with_head.push(
            DisplayRow::Match(
                match idx[n - 1] {
                    Some(i) => i,
                    None => (with_head.len() + 1) as i64,
                },
            ),
        )
    }
}

proof fn lemma_rows_len(files: Seq<&str>, idx: Seq<Option<i64>>, n: nat)
    ensures
        n <= rows_spec(files, idx, n).len() <= 2 * n,
    decreases n,
{
    if n > 0 {
        lemma_rows_len(files, idx, (n - 1) as nat);
    }
}

/// The rows of the results view for results whose files are `files` and
/// whose own indices are `idx`, in order.
pub fn display_rows(files: &[&str], idx: &[Option<i64>]) -> (r: Vec<DisplayRow>)
    requires
        files@.len() == idx@.len(),
        2 * files@.len() < i64::MAX,
    ensures
        r@ == rows_spec(files@, idx@, files@.len() as nat),
{
    let mut rows: Vec<DisplayRow> = Vec::new();
    let mut i: usize = 0;
    while i < files.len()
        invariant
            i <= files@.len() == idx@.len(),
            2 * files@.len() < i64::MAX,
            rows@ == rows_spec(files@, idx@, i as nat),
        decreases files@.len() - i,
    {
        proof {
            lemma_rows_len(files@, idx@, i as nat);
        }
        let head = if i == 0 {
            files[i].as_bytes().len() != 0
        } else {
            !same_bytes(files[i].as_bytes(), files[i - 1].as_bytes())
        };
        proof {
            if i == 0 {
                assert(head == (files@[0].spec_bytes() != Seq::<u8>::empty()));
            }
        }
        if head {
            rows.push(DisplayRow::File(i));
        }
        let n = match idx[i] {
            Some(k) => k,
            None => rows.len() as i64 + 1,
        };
        rows.push(DisplayRow::Match(n));
        i = i + 1;
    }
    rows
}

/// The bytes of `t` lower-cased.
pub open spec fn lowered_bytes(t: Seq<char>) -> Seq<u8> {
    encode_utf8(lowercase(t))
}

/// Plain search compares lower-cased text when `no_case` is set and the
/// text as it is otherwise: a line matches exactly when the (lower-cased)
/// query occurs in the (lower-cased) line, and the column is one past the
/// first occurrence.
pub proof fn plain_search_matches_occurrences(line: Seq<u8>, q: Seq<char>, nc: bool, pat: Seq<char>)
    ensures
        ({
            let h = if nc {
                lowered_bytes(decode_utf8(line))
            } else {
                encode_utf8(decode_utf8(line))
            };
            let n = if nc {
                lowered_bytes(q)
            } else {
                encode_utf8(q)
            };
            match line_col_spec(SearchMode::Plain, line, q, nc, pat) {
                Some(c) => c >= 1 && occurs_at(h, n, c - 1) && forall|j: int|
                    0 <= j < c - 1 ==> !#[trigger] occurs_at(h, n, j),
                None => forall|j: int| 0 <= j ==> !#[trigger] occurs_at(h, n, j),
            }
        }),
{
    let h = if nc {
        lowered_bytes(decode_utf8(line))
    } else {
        encode_utf8(decode_utf8(line))
    };
    let n = if nc {
        lowered_bytes(q)
    } else {
        encode_utf8(q)
    };
    assert(search_bytes(decode_utf8(line), nc) == h);
    assert(search_bytes(q, nc) == n);
    lemma_find_from_props(h, n, 0);
}

/// Whether some hit of `hs` reports line `n`.
pub open spec fn reports_line(hs: Seq<(int, int, Seq<u8>)>, n: int) -> bool {
    exists|h: int| 0 <= h < hs.len() && #[trigger] hs[h].0 == n
}

/// A search reports exactly the lines that match: the lines `ls` (numbered
/// from `first`) of `b` give hits for those lines, and only those, on which
/// the line search finds the query, each at most once with the line's
/// column.
pub proof fn hits_are_matching_lines(
    b: Seq<u8>,
    ls: Seq<(int, int)>,
    first: int,
    mode: SearchMode,
    q: Seq<char>,
    nc: bool,
    pat: Seq<char>,
)
    ensures
        hits_spec(b, ls, first, mode, q, nc, pat) matches Some(hs) ==> {
            &&& forall|h: int| 0 <= h < hs.len() ==> first <= #[trigger] hs[h].0 < first + ls.len()
            &&& forall|h: int|
                0 <= h < hs.len() ==> line_col_spec(
                    mode,
                    b.subrange(ls[#[trigger] hs[h].0 - first].0, ls[hs[h].0 - first].1),
                    q,
                    nc,
                    pat,
                ) == Some(hs[h].1)
            &&& forall|k: int|
                0 <= k < ls.len() ==> (reports_line(hs, first + k) <==> line_col_spec(
                    mode,
                    b.subrange(#[trigger] ls[k].0, ls[k].1),
                    q,
                    nc,
                    pat,
                ) is Some)
        },
    decreases ls.len(),
{
    if ls.len() > 0 {
        let tl = ls.drop_first();
        hits_are_matching_lines(b, tl, first + 1, mode, q, nc, pat);
        let line = b.subrange(ls[0].0, ls[0].1);
        let rest = hits_spec(b, tl, first + 1, mode, q, nc, pat);
        match hits_spec(b, ls, first, mode, q, nc, pat) {
            Some(hs) => {
                assert forall|k: int| 1 <= k < ls.len() implies ls[k] == tl[k - 1] by {}
                match line_col_spec(mode, line, q, nc, pat) {
                    None => {
                        assert(rest == Some(hs));
                        assert forall|k: int| 0 <= k < ls.len() implies (reports_line(hs, first + k)
                            <==> line_col_spec(mode, b.subrange(#[trigger] ls[k].0, ls[k].1), q, nc, pat) is Some) by {
                            if k > 0 {
                                assert(ls[k] == tl[k - 1]);
                                assert(first + k == (first + 1) + (k - 1));
                            } else {
                                if reports_line(hs, first) {
                                    let h = choose|h: int| 0 <= h < hs.len() && #[trigger] hs[h].0 == first;
                                    assert(first + 1 <= hs[h].0);
                                }
                            }
                        }
                        assert forall|h: int| 0 <= h < hs.len() implies line_col_spec(
                            mode,
                            b.subrange(ls[#[trigger] hs[h].0 - first].0, ls[hs[h].0 - first].1),
                            q,
                            nc,
                            pat,
                        ) == Some(hs[h].1) by {
                            let kk = hs[h].0 - first;
                            assert(ls[kk] == tl[kk - 1]);
                            assert(hs[h].0 - (first + 1) == kk - 1);
                        }
                    },
                    Some(col) => {
                        let text = preview_spec(line, col)->0;
                        let hs2 = rest->0;
                        assert(hs == seq![(first, col, text)] + hs2);
                        assert forall|k: int| 0 <= k < ls.len() implies (reports_line(hs, first + k)
                            <==> line_col_spec(mode, b.subrange(#[trigger] ls[k].0, ls[k].1), q, nc, pat) is Some) by {
                            if k > 0 {
                                assert(ls[k] == tl[k - 1]);
                                if reports_line(hs, first + k) {
                                    let h = choose|h: int| 0 <= h < hs.len() && #[trigger] hs[h].0 == first + k;
                                    assert(h > 0);
                                    assert(hs2[h - 1].0 == (first + 1) + (k - 1));
                                }
                                if reports_line(hs2, (first + 1) + (k - 1)) {
                                    let h = choose|h: int| 0 <= h < hs2.len() && #[trigger] hs2[h].0 == (first + 1) + (k - 1);
                                    assert(hs[h + 1].0 == first + k);
                                }
                            } else {
                                assert(hs[0].0 == first);
                            }
                        }
                        assert forall|h: int| 0 <= h < hs.len() implies first <= #[trigger] hs[h].0 < first + ls.len() by {
                            if h > 0 {
                                assert(hs[h] == hs2[h - 1]);
                            }
                        }
                        assert forall|h: int| 0 <= h < hs.len() implies line_col_spec(
                            mode,
                            b.subrange(ls[#[trigger] hs[h].0 - first].0, ls[hs[h].0 - first].1),
                            q,
                            nc,
                            pat,
                        ) == Some(hs[h].1) by {
                            if h > 0 {
                                assert(hs[h] == hs2[h - 1]);
                                let kk = hs[h].0 - first;
                                assert(ls[kk] == tl[kk - 1]);
                                assert(hs2[h - 1].0 - (first + 1) == kk - 1);
                            }
                        }
                    },
                }
            },
            None => {},
        }
    }
}

/// A plain project replace compares lower-cased text when `no_case` is
/// set and the text as it is otherwise: its count is the number of
/// non-overlapping occurrences of the (lower-cased) query in the
/// (lower-cased) content.
pub proof fn plain_replace_counts_matches(opts: ReplaceOpts, content: Seq<char>)
    requires
        opts.mode is Plain,
    ensures
        opts.no_case ==> (file_replace_spec(opts, content) matches Ok((t, k)) ==> k == count_occurrences(
            lowered_bytes(content),
            lowered_bytes(opts.query@),
            0,
        )),
        !opts.no_case ==> (file_replace_spec(opts, content) matches Ok((t, k)) ==> k == count_occurrences(
            encode_utf8(content),
            encode_utf8(opts.query@),
            0,
        )),
{
    assert(file_replace_spec(opts, content) == matcher_spec(
        content,
        opts.query@,
        false,
        opts.no_case,
        encode_utf8(opts.replace@),
    ));
    replace_plain_counts_occurrences(
        encode_utf8(content),
        search_bytes(content, opts.no_case),
        search_bytes(opts.query@, opts.no_case),
        encode_utf8(opts.replace@),
        1,
    );
}

} // verus!
