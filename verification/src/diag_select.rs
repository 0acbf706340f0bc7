//! Which diagnostics of a document the editor shows where: the severity of
//! a line's gutter mark, the underlined segments of a line, the diagnostic
//! under the mouse and the one written at the end of a line.

use vstd::prelude::*;

verus! {

/// A diagnostic placed in the document: its first and last line, the
/// document columns where it starts (on its first line) and ends (on its
/// last line), its severity (1 error .. 4 hint) and the byte length of its
/// message.
#[derive(PartialEq, Eq, Structural, Debug, Clone, Copy)]
pub struct DiagSpan {
    pub start_line: i64,
    pub end_line: i64,
    pub start_col: i64,
    pub end_col: i64,
    pub severity: i64,
    pub msg_len: usize,
}

/// An underlined stretch of one line.
#[derive(PartialEq, Eq, Structural, Debug, Clone, Copy)]
pub struct Segment {
    pub col1: i64,
    pub col2: i64,
    pub severity: i64,
}

/// Whether the diagnostic covers `line`.
pub open spec fn covers(d: DiagSpan, line: i64) -> bool {
    d.start_line <= line <= d.end_line
}

/// The most severe (lowest) severity of the diagnostics covering `line`.
pub fn line_severity(diags: &[DiagSpan], line: i64) -> (r: Option<i64>)
    ensures
        r is None <==> forall|k: int| 0 <= k < diags@.len() ==> !covers(#[trigger] diags@[k], line),
        r matches Some(s) ==> (exists|k: int|
            0 <= k < diags@.len() && covers(#[trigger] diags@[k], line) && diags@[k].severity
                == s) && (forall|k: int|
            0 <= k < diags@.len() && covers(#[trigger] diags@[k], line) ==> s
                <= diags@[k].severity),
{
    let mut best: Option<i64> = None;
    let mut i: usize = 0;
    while i < diags.len()
        invariant
            i <= diags@.len(),
            best is None <==> forall|k: int| 0 <= k < i ==> !covers(#[trigger] diags@[k], line),
            best matches Some(s) ==> (exists|k: int|
                0 <= k < i && covers(#[trigger] diags@[k], line) && diags@[k].severity == s) && (
            forall|k: int| 0 <= k < i && covers(#[trigger] diags@[k], line) ==> s
                <= diags@[k].severity),
        decreases diags@.len() - i,
    {
        let d = diags[i];
        if d.start_line <= line && line <= d.end_line {
            match best {
                None => {
                    best = Some(d.severity);
                },
                Some(cur) => {
                    if d.severity < cur {
                        best = Some(d.severity);
                    }
                },
            }
        }
        i = i + 1;
    }
    best
}

/// `n` limited to `lo ..= hi` as the editor's `common.clamp` does:
/// `max(min(n, hi), lo)`.
pub open spec fn clamp(n: int, lo: int, hi: int) -> int {
    let m = if n < hi {
        n
    } else {
        hi
    };
    if m > lo {
        m
    } else {
        lo
    }
}

/// The segment underlined on `line` for a diagnostic covering it, on a line
/// of `max_col` columns: from its start column (or 1 on a later line) to
/// its end column (or the line's end on an earlier line), at least one
/// column wide, kept inside the line.
pub open spec fn segment_of(d: DiagSpan, line: i64, max_col: i64) -> Segment {
    let c1 = if line == d.start_line {
        d.start_col as int
    } else {
        1
    };
    let c2 = if line == d.end_line {
        d.end_col as int
    } else {
        max_col as int
    };
    let col1 = clamp(c1, 1, max_col as int);
    let col2 = clamp(
        if c2 > col1 + 1 {
            c2
        } else {
            col1 + 1
        },
        1,
        max_col as int,
    );
    Segment { col1: col1 as i64, col2: col2 as i64, severity: d.severity }
}

/// The segments of the diagnostics covering `line`, in the diagnostics'
/// order.
pub open spec fn segments_spec(ds: Seq<DiagSpan>, line: i64, max_col: i64) -> Seq<Segment>
    decreases ds.len(),
{
    if ds.len() == 0 {
        seq![]
    } else {
        segments_spec(ds.drop_last(), line, max_col) + if covers(ds.last(), line) {
            seq![segment_of(ds.last(), line, max_col)]
        } else {
            seq![]
        }
    }
}

fn clamp_exec(n: i64, lo: i64, hi: i64) -> (r: i64)
    ensures
        r == clamp(n as int, lo as int, hi as int),
{
    let m = if n < hi {
        n
    } else {
        hi
    };
    if m > lo {
        m
    } else {
        lo
    }
}

/// The columns a line of `line_len` bytes offers for underlining: its
/// length, at least 1.
pub open spec fn max_col_of(line_len: usize) -> i64 {
    if line_len >= 1 {
        line_len as i64
    } else {
        1
    }
}

/// The underlined segments of `line`, whose text is `line_len` bytes long.
/// The view sorts them by [`segment_before`].
pub fn line_segments(diags: &[DiagSpan], line: i64, line_len: usize) -> (r: Vec<Segment>)
    requires
        line_len < i64::MAX,
    ensures
        r@ == segments_spec(diags@, line, max_col_of(line_len)),
{
    let max_col: i64 = if line_len >= 1 {
        line_len as i64
    } else {
        1
    };
    let mut out: Vec<Segment> = Vec::new();
    let mut i: usize = 0;
    while i < diags.len()
        invariant
            i <= diags@.len(),
            1 <= max_col < i64::MAX,
            max_col == max_col_of(line_len),
            out@ == segments_spec(diags@.take(i as int), line, max_col),
        decreases diags@.len() - i,
    {
        assert(diags@.take(i + 1).drop_last() =~= diags@.take(i as int));
        let d = diags[i];
        if d.start_line <= line && line <= d.end_line {
            let c1 = if line == d.start_line {
                d.start_col
            } else {
                1
            };
            let c2 = if line == d.end_line {
                d.end_col
            } else {
                max_col
            };
            let col1 = clamp_exec(c1, 1, max_col);
            let wide = if c2 > col1 + 1 {
                c2
            } else {
                col1 + 1
            };
            let col2 = clamp_exec(wide, 1, max_col);
            out.push(Segment { col1, col2, severity: d.severity });
        }
        i = i + 1;
        assert(out@ =~= segments_spec(diags@.take(i as int), line, max_col));
    }
    assert(diags@.take(i as int) =~= diags@);
    out
}

/// The order of underlined segments: by start column, then end column.
pub open spec fn segment_order(a: Segment, b: Segment) -> bool {
    a.col1 < b.col1 || (a.col1 == b.col1 && a.col2 < b.col2)
}

/// Whether segment `a` is drawn before segment `b`.
pub fn segment_before(a: &Segment, b: &Segment) -> (r: bool)
    ensures
        r == segment_order(*a, *b),
{
    if a.col1 == b.col1 {
        a.col2 < b.col2
    } else {
        a.col1 < b.col1
    }
}

/// The segment order is a strict order, total on segments with different
/// columns: a sort by it is well defined.
pub proof fn segment_order_is_strict(a: Segment, b: Segment, c: Segment)
    ensures
        !segment_order(a, a),
        (a.col1, a.col2) != (b.col1, b.col2) ==> segment_order(a, b) != segment_order(b, a),
        segment_order(a, b) && segment_order(b, c) ==> segment_order(a, c),
{
}

/// Whether the diagnostic `a` is preferred to `b` when only one can be
/// shown: it is more severe, or as severe with a longer message.
pub open spec fn preferred(a: DiagSpan, b: DiagSpan) -> bool {
    a.severity < b.severity || (a.severity == b.severity && a.msg_len > b.msg_len)
}

/// Whether the mouse at column `col` (any column when `None`) of `line`
/// points at the diagnostic.
pub open spec fn under_mouse(d: DiagSpan, line: i64, col: Option<i64>) -> bool {
    &&& covers(d, line)
    &&& match col {
        None => true,
        Some(c) => {
            let start = if line == d.start_line {
                d.start_col as int
            } else {
                1
            };
            let end = if line == d.end_line {
                d.end_col as int
            } else {
                i64::MAX as int
            };
            let hi = if end > start + 1 {
                end
            } else {
                start + 1
            };
            start <= c <= hi
        },
    }
}

/// The index of the first preferred diagnostic among those that satisfy
/// `cand`: every earlier candidate is beaten by it, and no later one beats
/// it.
pub open spec fn is_first_best(ds: Seq<DiagSpan>, k: int, cand: spec_fn(DiagSpan) -> bool) -> bool {
    &&& 0 <= k < ds.len()
    &&& cand(ds[k])
    &&& forall|j: int| 0 <= j < k && cand(#[trigger] ds[j]) ==> preferred(ds[k], ds[j])
    &&& forall|j: int| k < j < ds.len() && cand(#[trigger] ds[j]) ==> !preferred(ds[j], ds[k])
}

proof fn lemma_preferred_trans(a: DiagSpan, b: DiagSpan, c: DiagSpan)
    requires
        preferred(a, b),
        preferred(b, c),
    ensures
        preferred(a, c),
{
}

/// The diagnostic to show in the tooltip at `line` and `col` (any column
/// when `None`): the first of the preferred ones under the mouse.
pub fn hover_diagnostic(diags: &[DiagSpan], line: i64, col: Option<i64>) -> (r: Option<usize>)
    ensures
        r is None <==> forall|k: int|
            0 <= k < diags@.len() ==> !under_mouse(#[trigger] diags@[k], line, col),
        r matches Some(k) ==> is_first_best(diags@, k as int, |d: DiagSpan| under_mouse(d, line, col)),
{
    let ghost cand = |d: DiagSpan| under_mouse(d, line, col);
    let mut best: Option<usize> = None;
    let mut i: usize = 0;
    while i < diags.len()
        invariant
            i <= diags@.len(),
            cand == (|d: DiagSpan| under_mouse(d, line, col)),
            best is None <==> forall|k: int| 0 <= k < i ==> !under_mouse(#[trigger] diags@[k], line, col),
            best matches Some(b) ==> b < i && is_first_best(diags@.take(i as int), b as int, cand),
        decreases diags@.len() - i,
    {
        let d = diags[i];
        let mut within = d.start_line <= line && line <= d.end_line;
        if within {
            match col {
                None => {},
                Some(c) => {
                    let start: i64 = if line == d.start_line {
                        d.start_col
                    } else {
                        1
                    };
                    let end: i64 = if line == d.end_line {
                        d.end_col
                    } else {
                        i64::MAX
                    };
                    within = start <= c && (c <= end || start == i64::MAX || c <= start + 1);
                },
            }
        }
        assert(within == under_mouse(diags@[i as int], line, col));
        let ghost prev = diags@.take(i as int);
        let ghost next = diags@.take(i + 1);
        assert(forall|j: int| 0 <= j < i ==> next[j] == prev[j]);
        if within {
            let replace = match best {
                None => true,
                Some(b) => {
                    let bd = diags[b];
                    d.severity < bd.severity || (d.severity == bd.severity && d.msg_len
                        > bd.msg_len)
                },
            };
            if replace {
                proof {
                    if let Some(b) = best {
                        assert forall|j: int| 0 <= j < i && cand(#[trigger] next[j]) implies preferred(
                            next[i as int],
                            next[j],
                        ) by {
                            if j != b {
                                assert(cand(prev[j]));
                                if j < b {
                                    lemma_preferred_trans(next[i as int], next[b as int], next[j]);
                                } else {
                                    assert(!preferred(prev[j], prev[b as int]));
                                }
                            }
                        }
                    }
                }
                best = Some(i);
            } else {
                proof {
                    let b = best->0;
                    assert(!preferred(next[i as int], next[b as int]));
                }
            }
        }
        i = i + 1;
    }
    assert(diags@.take(i as int) =~= diags@);
    best
}

/// Whether a diagnostic can be written at the end of `line`: it starts
/// there.
pub open spec fn inline_candidate(d: DiagSpan, line: i64) -> bool {
    d.start_line == line
}

/// The column after which the inline text of a diagnostic starting on
/// `line` is placed: its end column when it also ends there, else its start
/// column.
pub open spec fn inline_end_col(d: DiagSpan, line: i64) -> i64 {
    if line == d.end_line {
        d.end_col
    } else {
        d.start_col
    }
}

/// The diagnostic written at the end of `line`, with its end column: the
/// first of the preferred ones that start on that line.
pub fn inline_diagnostic(diags: &[DiagSpan], line: i64) -> (r: Option<(usize, i64)>)
    ensures
        r is None <==> forall|k: int|
            0 <= k < diags@.len() ==> !inline_candidate(#[trigger] diags@[k], line),
        r matches Some((k, c)) ==> is_first_best(
            diags@,
            k as int,
            |d: DiagSpan| inline_candidate(d, line),
        ) && c == inline_end_col(diags@[k as int], line),
{
    let ghost cand = |d: DiagSpan| inline_candidate(d, line);
    let mut best: Option<usize> = None;
    let mut i: usize = 0;
    while i < diags.len()
        invariant
            i <= diags@.len(),
            cand == (|d: DiagSpan| inline_candidate(d, line)),
            best is None <==> forall|k: int|
                0 <= k < i ==> !inline_candidate(#[trigger] diags@[k], line),
            best matches Some(b) ==> b < i && is_first_best(diags@.take(i as int), b as int, cand),
        decreases diags@.len() - i,
    {
        let d = diags[i];
        let ghost prev = diags@.take(i as int);
        let ghost next = diags@.take(i + 1);
        assert(forall|j: int| 0 <= j < i ==> next[j] == prev[j]);
        if d.start_line == line {
            let replace = match best {
                None => true,
                Some(b) => {
                    let bd = diags[b];
                    d.severity < bd.severity || (d.severity == bd.severity && d.msg_len
                        > bd.msg_len)
                },
            };
            if replace {
                proof {
                    if let Some(b) = best {
                        assert forall|j: int| 0 <= j < i && cand(#[trigger] next[j]) implies preferred(
                            next[i as int],
                            next[j],
                        ) by {
                            if j != b {
                                assert(cand(prev[j]));
                                if j < b {
                                    lemma_preferred_trans(next[i as int], next[b as int], next[j]);
                                } else {
                                    assert(!preferred(prev[j], prev[b as int]));
                                }
                            }
                        }
                    }
                }
                best = Some(i);
            } else {
                proof {
                    let b = best->0;
                    assert(!preferred(next[i as int], next[b as int]));
                }
            }
        }
        i = i + 1;
    }
    assert(diags@.take(i as int) =~= diags@);
    match best {
        None => None,
        Some(b) => {
            let d = diags[b];
            let c = if line == d.end_line {
                d.end_col
            } else {
                d.start_col
            };
            Some((b, c))
        },
    }
}

/// At most one diagnostic is the first preferred one among the candidates:
/// the choice of the tooltip and of the inline hint does not depend on
/// anything but the list.
pub proof fn first_best_is_unique(
    ds: Seq<DiagSpan>,
    k1: int,
    k2: int,
    cand: spec_fn(DiagSpan) -> bool,
)
    requires
        is_first_best(ds, k1, cand),
        is_first_best(ds, k2, cand),
    ensures
        k1 == k2,
{
    if k1 < k2 {
        assert(preferred(ds[k2], ds[k1]));
        assert(!preferred(ds[k2], ds[k1]));
    } else if k2 < k1 {
        assert(preferred(ds[k1], ds[k2]));
        assert(!preferred(ds[k1], ds[k2]));
    }
}

/// The diagnostic chosen among the candidates is at least as severe as every
/// candidate.
pub proof fn first_best_is_most_severe(
    ds: Seq<DiagSpan>,
    k: int,
    cand: spec_fn(DiagSpan) -> bool,
    j: int,
)
    requires
        is_first_best(ds, k, cand),
        0 <= j < ds.len(),
        cand(ds[j]),
    ensures
        ds[k].severity <= ds[j].severity,
{
    if j < k {
        assert(preferred(ds[k], ds[j]));
    } else if j > k {
        assert(!preferred(ds[j], ds[k]));
    }
}

} // verus!
