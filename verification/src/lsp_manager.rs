//! Decisions of the LSP manager: which files a workspace edit touches and
//! in which order their edits apply, whether published diagnostics are
//! taken and what the status line says, how semantic-token lines are
//! updated, which client serves a navigation request, what opening a
//! location does to the jump history, and the plugin's default settings.

use vstd::prelude::*;
use vstd::multiset::Multiset;
use vstd::seq_lib::{to_multiset_build, to_multiset_insert};
use vstd::string::{StrSliceExecFns, StringSliceAdditionalSpecFns};

use crate::diagnostics::{applied_before, edit_applied_before, token_before, token_order};
use crate::navigation::{push_history, push_spec, HistoryEntry};
use crate::text::{decimal, push_decimal};
use crate::uri::{latin1, uri_to_path, uri_to_path_spec};

verus! {

// ─── workspace edits ────────────────────────────────────────────────────────

/// A text edit of a workspace edit: where it starts, and its index in the
/// server's list of edits for its file (which carries its range and text).
#[derive(PartialEq, Eq, Structural, Debug, Clone, Copy)]
pub struct EditRange {
    pub start_line: i64,
    pub start_char: i64,
    pub index: usize,
}

/// Edits in the order they are applied: no edit is applied after one it
/// should precede (later start positions first).
pub open spec fn edits_in_apply_order(s: Seq<EditRange>) -> bool {
    forall|a: int, b: int|
        #![trigger s[a], s[b]]
        0 <= a < b < s.len() ==> !applied_before(
            s[b].start_line,
            s[b].start_char,
            s[a].start_line,
            s[a].start_char,
        )
}

/// The files of a list of `(uri, edits)` entries, in order, with their
/// edits; entries whose URI is not a `file://` URI are left out.
pub open spec fn plan_entries(e: Seq<(&str, Vec<EditRange>)>) -> Seq<(Seq<char>, Multiset<EditRange>)>
    decreases e.len(),
{
    if e.len() == 0 {
        Seq::empty()
    } else {
        let rest = plan_entries(e.drop_last());
        match uri_to_path_spec(e.last().0.spec_bytes()) {
            Some(p) => rest.push((p, e.last().1@.to_multiset())),
            None => rest,
        }
    }
}

/// The files a workspace edit touches: those of `changes`, then those of
/// `documentChanges`, each with its edits.
pub open spec fn edit_plan_spec(
    changes: Seq<(&str, Vec<EditRange>)>,
    document_changes: Seq<(&str, Vec<EditRange>)>,
) -> Seq<(Seq<char>, Multiset<EditRange>)> {
    plan_entries(changes) + plan_entries(document_changes)
}

/// A plan as paths and the edits of each, regardless of their order.
pub open spec fn edit_plan_view(r: Seq<(Vec<char>, Vec<EditRange>)>) -> Seq<(Seq<char>, Multiset<EditRange>)> {
    r.map_values(|p: (Vec<char>, Vec<EditRange>)| (p.0@, p.1@.to_multiset()))
}

/// `edits` sorted into the order they are applied.
pub fn sort_edits(edits: &[EditRange]) -> (r: Vec<EditRange>)
    ensures
        r@.to_multiset() == edits@.to_multiset(),
        edits_in_apply_order(r@),
{
    let mut out: Vec<EditRange> = Vec::new();
    let mut i: usize = 0;
    assert(out@ =~= edits@.take(0));
    while i < edits.len()
        invariant
            i <= edits@.len(),
            out@.to_multiset() == edits@.take(i as int).to_multiset(),
            edits_in_apply_order(out@),
        decreases edits@.len() - i,
    {
        let x = edits[i];
        let mut pos: usize = 0;
        while pos < out.len() && !edit_applied_before(
            x.start_line,
            x.start_char,
            out[pos].start_line,
            out[pos].start_char,
        )
            invariant
                pos <= out@.len(),
                forall|k: int|
                    0 <= k < pos ==> !applied_before(
                        x.start_line,
                        x.start_char,
                        #[trigger] out@[k].start_line,
                        out@[k].start_char,
                    ),
            decreases out@.len() - pos,
        {
            pos = pos + 1;
        }
        let ghost before = out@;
        out.insert(pos, x);
        proof {
            to_multiset_insert(before, pos as int, x);
            to_multiset_build(edits@.take(i as int), x);
            assert(edits@.take(i + 1) =~= edits@.take(i as int).push(x));
            assert forall|a: int, b: int| 0 <= a < b < out@.len() implies !applied_before(
                #[trigger] out@[b].start_line,
                out@[b].start_char,
                #[trigger] out@[a].start_line,
                out@[a].start_char,
            ) by {
                let ia = if a < pos { a } else if a == pos { -1 } else { a - 1 };
                let ib = if b < pos { b } else if b == pos { -1 } else { b - 1 };
                if ia >= 0 {
                    assert(out@[a] == before[ia]);
                }
                if ib >= 0 {
                    assert(out@[b] == before[ib]);
                }
                if ia >= 0 && ib >= 0 {
                    assert(!applied_before(
                        before[ib].start_line,
                        before[ib].start_char,
                        before[ia].start_line,
                        before[ia].start_char,
                    ));
                }
                if ib >= 0 && a == pos {
                    assert(pos < before.len());
                    assert(!applied_before(
                        before[ib].start_line,
                        before[ib].start_char,
                        before[pos as int].start_line,
                        before[pos as int].start_char,
                    ) || ib == pos);
                }
            }
        }
        i = i + 1;
    }
    assert(edits@.take(edits@.len() as int) =~= edits@);
    out
}

/// The files a workspace edit touches, with their edits in the order they
/// are applied: the entries of `changes` first, then those of
/// `documentChanges`; entries whose URI is not a `file://` URI are skipped.
pub fn plan_workspace_edit(
    changes: &[(&str, Vec<EditRange>)],
    document_changes: &[(&str, Vec<EditRange>)],
) -> (r: Vec<(Vec<char>, Vec<EditRange>)>)
    ensures
        edit_plan_view(r@) == edit_plan_spec(changes@, document_changes@),
        forall|k: int| 0 <= k < r@.len() ==> edits_in_apply_order(#[trigger] r@[k].1@),
{
    let mut out: Vec<(Vec<char>, Vec<EditRange>)> = Vec::new();
    let mut i: usize = 0;
    while i < changes.len()
        invariant
            i <= changes@.len(),
            edit_plan_view(out@) == plan_entries(changes@.take(i as int)),
            forall|k: int| 0 <= k < out@.len() ==> edits_in_apply_order(#[trigger] out@[k].1@),
        decreases changes@.len() - i,
    {
        assert(changes@.take(i + 1).drop_last() =~= changes@.take(i as int));
        match uri_to_path(changes[i].0) {
            Some(p) => {
                let sorted = sort_edits(changes[i].1.as_slice());
                let ghost before = out@;
                out.push((p, sorted));
                assert(edit_plan_view(out@) =~= edit_plan_view(before).push(
                    (out@.last().0@, out@.last().1@.to_multiset()),
                ));
            },
            None => {},
        }
        i = i + 1;
    }
    assert(changes@.take(changes@.len() as int) =~= changes@);
    let mut j: usize = 0;
    assert(plan_entries(document_changes@.take(0)) =~= Seq::empty());
    assert(plan_entries(changes@) + Seq::empty() =~= plan_entries(changes@));
    while j < document_changes.len()
        invariant
            j <= document_changes@.len(),
            edit_plan_view(out@) == plan_entries(changes@) + plan_entries(document_changes@.take(j as int)),
            forall|k: int| 0 <= k < out@.len() ==> edits_in_apply_order(#[trigger] out@[k].1@),
        decreases document_changes@.len() - j,
    {
        assert(document_changes@.take(j + 1).drop_last() =~= document_changes@.take(j as int));
        match uri_to_path(document_changes[j].0) {
            Some(p) => {
                let sorted = sort_edits(document_changes[j].1.as_slice());
                let ghost before = out@;
                out.push((p, sorted));
                assert(edit_plan_view(out@) =~= edit_plan_view(before).push(
                    (out@.last().0@, out@.last().1@.to_multiset()),
                ));
                assert(plan_entries(changes@) + plan_entries(document_changes@.take(j + 1))
                    =~= (plan_entries(changes@) + plan_entries(document_changes@.take(j as int))).push(
                    (out@.last().0@, out@.last().1@.to_multiset()),
                ));
            },
            None => {},
        }
        j = j + 1;
    }
    assert(document_changes@.take(document_changes@.len() as int) =~= document_changes@);
    out
}

// ─── publishing diagnostics ─────────────────────────────────────────────────

/// What a `publishDiagnostics` notification leads to.
pub enum PublishAction {
    /// Older than the document the client tracks: dropped.
    Skip,
    /// Stored.  `record_version`: whether the tracked document records
    /// `version` as the version of its last diagnostics; `message`: the
    /// status-line text.
    Publish { record_version: bool, version: Option<i64>, message: Vec<char> },
}

/// The last component of a path: what follows its last `/` or `\`.
pub open spec fn basename_chars(p: Seq<char>) -> Seq<char>
    decreases p.len(),
{
    if p.len() == 0 {
        p
    } else if p.last() == '/' || p.last() == '\\' {
        Seq::empty()
    } else {
        basename_chars(p.drop_last()).push(p.last())
    }
}

/// The name a URI is shown by: the file name of its path, or the URI
/// itself when it is not a `file://` URI.
pub open spec fn uri_label(uri: &str) -> Seq<char> {
    match uri_to_path_spec(uri.spec_bytes()) {
        Some(p) => basename_chars(p),
        None => uri@,
    }
}

/// `LSP <server>: <count> diagnostic(s) for <label>`.
pub open spec fn publish_message(server: Seq<char>, count: nat, label: Seq<char>) -> Seq<char> {
    latin1("LSP ".spec_bytes()) + server + latin1(": ".spec_bytes()) + latin1(decimal(count))
        + latin1(" diagnostic(s) for ".spec_bytes()) + label
}

/// The decision for diagnostics of version `incoming` for a document the
/// client tracks (`doc_tracked`) at version `known`: `None` when they are
/// dropped as older than the tracked version, else whether the version is
/// recorded, the version recorded, and the status-line text.
pub open spec fn publish_spec(
    doc_tracked: bool,
    known: Option<i64>,
    incoming: Option<i64>,
    count: nat,
    server: Seq<char>,
    uri: &str,
) -> Option<(bool, Option<i64>, Seq<char>)> {
    if doc_tracked && (known matches Some(sv) && (incoming matches Some(iv) && iv < sv)) {
        None
    } else {
        Some(
            (
                doc_tracked,
                match incoming {
                    Some(v) => Some(v),
                    None => known,
                },
                publish_message(server, count, uri_label(uri)),
            ),
        )
    }
}

fn push_latin1(out: &mut Vec<char>, b: &[u8])
    ensures
        final(out)@ == old(out)@ + latin1(b@),
{
    let mut i: usize = 0;
    while i < b.len()
        invariant
            i <= b@.len(),
            out@ == old(out)@ + latin1(b@.take(i as int)),
        decreases b@.len() - i,
    {
        out.push(b[i] as char);
        i = i + 1;
        assert(latin1(b@.take(i as int)) =~= latin1(b@.take(i - 1)).push(b@[i - 1] as char));
    }
    assert(b@.take(b@.len() as int) =~= b@);
}

fn push_str_chars(out: &mut Vec<char>, s: &str)
    ensures
        final(out)@ == old(out)@ + s@,
{
    let n = s.unicode_len();
    let mut i: usize = 0;
    while i < n
        invariant
            i <= n == s@.len(),
            out@ == old(out)@ + s@.take(i as int),
        decreases n - i,
    {
        out.push(s.get_char(i));
        i = i + 1;
        assert(s@.take(i as int) =~= s@.take(i - 1).push(s@[i - 1]));
    }
    assert(s@.take(n as int) =~= s@);
}

fn basename_of(p: &Vec<char>) -> (r: Vec<char>)
    ensures
        r@ == basename_chars(p@),
{
    let mut start = p.len();
    assert(p@.subrange(start as int, p@.len() as int) =~= Seq::<char>::empty());
    assert(p@.take(start as int) =~= p@);
    while start > 0 && !(p[start - 1] == '/' || p[start - 1] == '\\')
        invariant
            start <= p@.len(),
            basename_chars(p@) == basename_chars(p@.take(start as int)) + p@.subrange(
                start as int,
                p@.len() as int,
            ),
        decreases start,
    {
        let ghost t = p@.take(start as int);
        assert(t.drop_last() =~= p@.take(start - 1));
        assert(p@.subrange(start - 1, p@.len() as int) =~= seq![t.last()] + p@.subrange(
            start as int,
            p@.len() as int,
        ));
        assert(basename_chars(t) == basename_chars(t.drop_last()).push(t.last()));
        assert(basename_chars(t.drop_last()).push(t.last()) + p@.subrange(start as int, p@.len() as int)
            =~= basename_chars(t.drop_last()) + (seq![t.last()] + p@.subrange(start as int, p@.len() as int)));
        start = start - 1;
    }
    let mut out: Vec<char> = Vec::new();
    let mut k = start;
    while k < p.len()
        invariant
            start <= k <= p@.len(),
            out@ == p@.subrange(start as int, k as int),
        decreases p@.len() - k,
    {
        out.push(p[k]);
        k = k + 1;
        assert(p@.subrange(start as int, k as int) =~= p@.subrange(start as int, k - 1).push(p@[k - 1]));
    }
    if start > 0 {
        let ghost t = p@.take(start as int);
        assert(t.last() == p@[start - 1]);
        assert(basename_chars(t) =~= Seq::<char>::empty());
    } else {
        assert(p@.take(0) =~= Seq::<char>::empty());
    }
    assert(basename_chars(p@) =~= out@);
    out
}

/// What a `publishDiagnostics` notification with `count` diagnostics of
/// version `incoming`, from server `server`, for `uri`, leads to; `doc_tracked`
/// tells whether the client tracks that document and `known` the version it
/// has of it.  Older diagnostics than the doc_tracked version are dropped.
pub fn publish_plan(
    doc_tracked: bool,
    known: Option<i64>,
    incoming: Option<i64>,
    count: usize,
    server: &str,
    uri: &str,
) -> (r: PublishAction)
    ensures
        match r {
            PublishAction::Skip => publish_spec(doc_tracked, known, incoming, count as nat, server@, uri) is None,
            PublishAction::Publish { record_version, version, message } => publish_spec(
                doc_tracked,
                known,
                incoming,
                count as nat,
                server@,
                uri,
            ) == Some((record_version, version, message@)),
        },
{
    if doc_tracked {
        if let (Some(sv), Some(iv)) = (known, incoming) {
            if iv < sv {
                return PublishAction::Skip;
            }
        }
    }
    let label = match uri_to_path(uri) {
        Some(p) => basename_of(&p),
        None => {
            let mut l: Vec<char> = Vec::new();
            push_str_chars(&mut l, uri);
            l
        },
    };
    let mut m: Vec<char> = Vec::new();
    push_latin1(&mut m, "LSP ".as_bytes());
    push_str_chars(&mut m, server);
    push_latin1(&mut m, ": ".as_bytes());
    let mut digits: Vec<u8> = Vec::new();
    push_decimal(&mut digits, count);
    assert(digits@ =~= decimal(count as nat));
    push_latin1(&mut m, digits.as_slice());
    push_latin1(&mut m, " diagnostic(s) for ".as_bytes());
    let ghost before = m@;
    let mut k: usize = 0;
    while k < label.len()
        invariant
            k <= label@.len(),
            m@ == before + label@.take(k as int),
        decreases label@.len() - k,
    {
        m.push(label[k]);
        k = k + 1;
        assert(label@.take(k as int) =~= label@.take(k - 1).push(label@[k - 1]));
    }
    assert(label@.take(label@.len() as int) =~= label@);
    PublishAction::Publish {
        record_version: doc_tracked,
        version: match incoming {
            Some(v) => Some(v),
            None => known,
        },
        message: m,
    }
}

/// A publish is dropped only when it is strictly older than the document
/// the client tracks: diagnostics for the tracked version or a later one,
/// or without a version, are taken, a document that is not tracked takes
/// every publish, and a taken publish records its own version when it has
/// one.
pub proof fn publish_drops_only_older(
    known: Option<i64>,
    incoming: Option<i64>,
    count: nat,
    server: Seq<char>,
    uri: &str,
)
    ensures
        publish_spec(true, known, incoming, count, server, uri) is None <==> (match (known, incoming) {
            (Some(v), Some(w)) => w < v,
            _ => false,
        }),
        publish_spec(false, known, incoming, count, server, uri) is Some,
        forall|t: bool|
            match #[trigger] publish_spec(t, known, incoming, count, server, uri) {
                Some((_, version, _)) => incoming is Some ==> version == incoming,
                None => true,
            },
{
}

// ─── semantic tokens ────────────────────────────────────────────────────────

/// A positioned semantic token of a line: its byte position and length, and
/// its index in the line's list (which carries its type).
#[derive(PartialEq, Eq, Structural, Debug, Clone, Copy)]
pub struct SemToken {
    pub pos: i64,
    pub len: i64,
    pub index: usize,
}

/// Tokens in merge order: by position, then by length.
pub open spec fn tokens_in_order(s: Seq<SemToken>) -> bool {
    forall|a: int, b: int|
        #![trigger s[a], s[b]]
        0 <= a < b < s.len() ==> !token_order(s[b].pos, s[b].len, s[a].pos, s[a].len)
}

/// Whether line `l` has new tokens.
pub open spec fn has_line(new_lines: Seq<(u64, Vec<SemToken>)>, l: u64) -> bool {
    exists|k: int| 0 <= k < new_lines.len() && #[trigger] new_lines[k].0 == l
}

/// The lines that had tokens and have none now, each to be cleared.
pub open spec fn cleared_lines(old_lines: Seq<u64>, new_lines: Seq<(u64, Vec<SemToken>)>) -> Seq<(u64, Option<Multiset<SemToken>>)>
    decreases old_lines.len(),
{
    if old_lines.len() == 0 {
        Seq::empty()
    } else {
        let rest = cleared_lines(old_lines.drop_last(), new_lines);
        if has_line(new_lines, old_lines.last()) {
            rest
        } else {
            rest.push((old_lines.last(), None))
        }
    }
}

/// The updates of the highlighted lines: first the cleared lines, then each
/// line with new tokens, with those tokens.
pub open spec fn semantic_updates_spec(
    old_lines: Seq<u64>,
    new_lines: Seq<(u64, Vec<SemToken>)>,
) -> Seq<(u64, Option<Multiset<SemToken>>)> {
    cleared_lines(old_lines, new_lines) + new_lines.map_values(
        |e: (u64, Vec<SemToken>)| (e.0, Some(e.1@.to_multiset())),
    )
}

/// Updates as lines and the tokens of each, regardless of their order.
pub open spec fn updates_view(r: Seq<(u64, Option<Vec<SemToken>>)>) -> Seq<(u64, Option<Multiset<SemToken>>)> {
    r.map_values(
        |u: (u64, Option<Vec<SemToken>>)|
            (
                u.0,
                match u.1 {
                    Some(v) => Some(v@.to_multiset()),
                    None => None,
                },
            ),
    )
}

/// `tokens` sorted into merge order.
pub fn sort_tokens(tokens: &[SemToken]) -> (r: Vec<SemToken>)
    ensures
        r@.to_multiset() == tokens@.to_multiset(),
        tokens_in_order(r@),
{
    let mut out: Vec<SemToken> = Vec::new();
    let mut i: usize = 0;
    assert(out@ =~= tokens@.take(0));
    while i < tokens.len()
        invariant
            i <= tokens@.len(),
            out@.to_multiset() == tokens@.take(i as int).to_multiset(),
            tokens_in_order(out@),
        decreases tokens@.len() - i,
    {
        let x = tokens[i];
        let mut pos: usize = 0;
        while pos < out.len() && !token_before(x.pos, x.len, out[pos].pos, out[pos].len)
            invariant
                pos <= out@.len(),
                forall|k: int| 0 <= k < pos ==> !token_order(x.pos, x.len, #[trigger] out@[k].pos, out@[k].len),
            decreases out@.len() - pos,
        {
            pos = pos + 1;
        }
        let ghost before = out@;
        out.insert(pos, x);
        proof {
            to_multiset_insert(before, pos as int, x);
            to_multiset_build(tokens@.take(i as int), x);
            assert(tokens@.take(i + 1) =~= tokens@.take(i as int).push(x));
            assert forall|a: int, b: int| 0 <= a < b < out@.len() implies !token_order(
                #[trigger] out@[b].pos,
                out@[b].len,
                #[trigger] out@[a].pos,
                out@[a].len,
            ) by {
                let ia = if a < pos { a } else if a == pos { -1 } else { a - 1 };
                let ib = if b < pos { b } else if b == pos { -1 } else { b - 1 };
                if ia >= 0 {
                    assert(out@[a] == before[ia]);
                }
                if ib >= 0 {
                    assert(out@[b] == before[ib]);
                }
                if ia >= 0 && ib >= 0 {
                    assert(!token_order(before[ib].pos, before[ib].len, before[ia].pos, before[ia].len));
                }
                if ib >= 0 && a == pos {
                    assert(pos < before.len());
                    assert(!token_order(
                        before[ib].pos,
                        before[ib].len,
                        before[pos as int].pos,
                        before[pos as int].len,
                    ) || ib == pos);
                }
            }
        }
        i = i + 1;
    }
    assert(tokens@.take(tokens@.len() as int) =~= tokens@);
    out
}

fn new_has_line(new_lines: &[(u64, Vec<SemToken>)], l: u64) -> (r: bool)
    ensures
        r == has_line(new_lines@, l),
{
    let mut k: usize = 0;
    while k < new_lines.len()
        invariant
            k <= new_lines@.len(),
            forall|j: int| 0 <= j < k ==> #[trigger] new_lines@[j].0 != l,
        decreases new_lines@.len() - k,
    {
        if new_lines[k].0 == l {
            assert(new_lines@[k as int].0 == l);
            return true;
        }
        k = k + 1;
    }
    false
}

/// How the highlighted lines change when a server sends new semantic
/// tokens: each line in `old_lines` that gets no new tokens is cleared
/// (`None`), then each line of `new_lines` gets its tokens in merge order.
pub fn semantic_line_updates(old_lines: &[u64], new_lines: &[(u64, Vec<SemToken>)]) -> (r: Vec<(u64, Option<Vec<SemToken>>)>)
    ensures
        updates_view(r@) == semantic_updates_spec(old_lines@, new_lines@),
        forall|k: int| 0 <= k < r@.len() ==> ((#[trigger] r@[k]).1 matches Some(v) ==> tokens_in_order(v@)),
{
    let mut out: Vec<(u64, Option<Vec<SemToken>>)> = Vec::new();
    let mut i: usize = 0;
    while i < old_lines.len()
        invariant
            i <= old_lines@.len(),
            updates_view(out@) == cleared_lines(old_lines@.take(i as int), new_lines@),
            forall|k: int| 0 <= k < out@.len() ==> (#[trigger] out@[k]).1 is None,
        decreases old_lines@.len() - i,
    {
        assert(old_lines@.take(i + 1).drop_last() =~= old_lines@.take(i as int));
        let l = old_lines[i];
        if !new_has_line(new_lines, l) {
            let ghost before = out@;
            out.push((l, None));
            assert(updates_view(out@) =~= updates_view(before).push((l, None)));
        }
        i = i + 1;
    }
    assert(old_lines@.take(old_lines@.len() as int) =~= old_lines@);
    let ghost cleared = updates_view(out@);
    let ghost nview = new_lines@.map_values(
        |e: (u64, Vec<SemToken>)| (e.0, Some(e.1@.to_multiset())),
    );
    let mut j: usize = 0;
    assert(cleared + nview.take(0) =~= cleared);
    while j < new_lines.len()
        invariant
            j <= new_lines@.len(),
            cleared == cleared_lines(old_lines@, new_lines@),
            nview == new_lines@.map_values(
                |e: (u64, Vec<SemToken>)| (e.0, Some(e.1@.to_multiset())),
            ),
            updates_view(out@) == cleared + nview.take(j as int),
            forall|k: int| 0 <= k < out@.len() ==> ((#[trigger] out@[k]).1 matches Some(v) ==> tokens_in_order(v@)),
        decreases new_lines@.len() - j,
    {
        let sorted = sort_tokens(new_lines[j].1.as_slice());
        let ghost before = out@;
        out.push((new_lines[j].0, Some(sorted)));
        assert(updates_view(out@) =~= updates_view(before).push(nview[j as int]));
        assert(cleared + nview.take(j + 1) =~= (cleared + nview.take(j as int)).push(nview[j as int]));
        j = j + 1;
    }
    assert(nview.take(new_lines@.len() as int) =~= nview);
    out
}

// ─── navigation ─────────────────────────────────────────────────────────────

/// Which client, if any, serves a navigation request.
#[derive(PartialEq, Eq, Structural, Debug, Clone, Copy)]
pub enum NavChoice {
    /// No server is configured for the document: warn about it.
    NoServer,
    /// A server is configured but no client could be had: nothing to do.
    NoClient,
    /// The initialized server does not offer the capability: warn about it.
    Unsupported,
    /// Use the client.
    Use,
}

/// The navigation decision: `has_spec` whether a server is configured,
/// `client_ok` whether its client could be opened, `asks_capability`
/// whether the request needs a capability, `initialized` whether the client
/// is initialized and `supports` whether it offers the capability.
pub open spec fn nav_spec(has_spec: bool, client_ok: bool, asks_capability: bool, initialized: bool, supports: bool) -> NavChoice {
    if !has_spec {
        NavChoice::NoServer
    } else if !client_ok {
        NavChoice::NoClient
    } else if asks_capability && initialized && !supports {
        NavChoice::Unsupported
    } else {
        NavChoice::Use
    }
}

/// Which client serves a navigation request.  A client that is not
/// initialized yet is used: its capabilities are not known, and the
/// request waits in its queue until initialization.
pub fn navigation_choice(has_spec: bool, client_ok: bool, asks_capability: bool, initialized: bool, supports: bool) -> (r: NavChoice)
    ensures
        r == nav_spec(has_spec, client_ok, asks_capability, initialized, supports),
{
    if !has_spec {
        NavChoice::NoServer
    } else if !client_ok {
        NavChoice::NoClient
    } else if asks_capability && initialized && !supports {
        NavChoice::Unsupported
    } else {
        NavChoice::Use
    }
}

/// `LSP server <name> does not support <action>`.
pub open spec fn unsupported_message(name: Seq<char>, action: Seq<char>) -> Seq<char> {
    latin1("LSP server ".spec_bytes()) + name + latin1(" does not support ".spec_bytes()) + action
}

/// The warning for a server `name` that does not offer `action`.
pub fn unsupported_text(name: &str, action: &str) -> (r: Vec<char>)
    ensures
        r@ == unsupported_message(name@, action@),
{
    let mut m: Vec<char> = Vec::new();
    push_latin1(&mut m, "LSP server ".as_bytes());
    push_str_chars(&mut m, name);
    push_latin1(&mut m, " does not support ".as_bytes());
    push_str_chars(&mut m, action);
    m
}

/// Opening the location `uri`: the path to open, or `None` (an unsupported
/// location, to be warned about) when `uri` is not a `file://` URI, in
/// which case the history stays as it was.  Otherwise the place left,
/// `entry`, is recorded in the jump history when one is given.
pub fn open_location_step(history: &mut Vec<HistoryEntry>, uri: &str, entry: Option<HistoryEntry>) -> (r: Option<Vec<char>>)
    ensures
        r is None <==> uri_to_path_spec(uri.spec_bytes()) is None,
        r matches Some(p) ==> uri_to_path_spec(uri.spec_bytes()) == Some(p@),
        r is None ==> final(history)@ == old(history)@,
        r is Some ==> final(history)@ == (match entry {
            Some(e) => push_spec(old(history)@, e),
            None => old(history)@,
        }),
{
    match uri_to_path(uri) {
        None => None,
        Some(p) => {
            match entry {
                Some(e) => push_history(history, e),
                None => {},
            }
            Some(p)
        },
    }
}

// ─── plugin settings ────────────────────────────────────────────────────────

pub open spec fn pick_setting_spec(v: Option<bool>) -> bool {
    match v {
        Some(b) => b,
        None => true,
    }
}

fn pick_setting(v: Option<bool>) -> (r: bool)
    ensures
        r == pick_setting_spec(v),
{
    match v {
        Some(b) => b,
        None => true,
    }
}

/// The plugin's settings, in order: load on startup, semantic highlighting,
/// inline diagnostics, format on save.  Each defaults to the legacy flat
/// setting where that is a boolean, else to on.
pub fn lsp_plugin_defaults(legacy: [Option<bool>; 4]) -> (r: [bool; 4])
    ensures
        forall|k: int| 0 <= k < 4 ==> r@[k] == pick_setting_spec(#[trigger] legacy@[k]),
{
    let r = [
        pick_setting(legacy[0]),
        pick_setting(legacy[1]),
        pick_setting(legacy[2]),
        pick_setting(legacy[3]),
    ];
    assert(r@ =~= seq![
        pick_setting_spec(legacy@[0]),
        pick_setting_spec(legacy@[1]),
        pick_setting_spec(legacy@[2]),
        pick_setting_spec(legacy@[3]),
    ]);
    r
}

} // verus!
