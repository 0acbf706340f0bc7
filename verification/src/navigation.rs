//! Navigation state of the LSP client: the stack of places to jump back to,
//! and the decisions and messages around jumps, publishes and code actions.

use vstd::prelude::*;
use vstd::string::StringSliceAdditionalSpecFns;

use crate::text::{push_all, same_bytes};

verus! {

/// The most places the jump-back stack keeps.
pub const HISTORY_LIMIT: usize = 200;

/// A place in a file: its path and the selection there.
pub struct HistoryEntry {
    pub path: String,
    pub line1: i64,
    pub col1: i64,
    pub line2: i64,
    pub col2: i64,
}

/// Two places are the same spot when path, line and column of the
/// selection's start agree.
pub open spec fn same_spot(a: HistoryEntry, b: HistoryEntry) -> bool {
    a.path@ == b.path@ && a.line1 == b.line1 && a.col1 == b.col1
}

/// The stack after recording `e`: unchanged when its top is the same spot,
/// else `e` on top, dropping the oldest place beyond the limit.
pub open spec fn push_spec(h: Seq<HistoryEntry>, e: HistoryEntry) -> Seq<HistoryEntry> {
    if h.len() > 0 && same_spot(h.last(), e) {
        h
    } else if h.len() + 1 > HISTORY_LIMIT {
        h.push(e).drop_first()
    } else {
        h.push(e)
    }
}

fn same_spot_exec(a: &HistoryEntry, b: &HistoryEntry) -> (r: bool)
    ensures
        r == same_spot(*a, *b),
{
    a.path == b.path && a.line1 == b.line1 && a.col1 == b.col1
}

/// Records the place left by a jump.
pub fn push_history(history: &mut Vec<HistoryEntry>, entry: HistoryEntry)
    ensures
        final(history)@ == push_spec(old(history)@, entry),
{
    let n = history.len();
    if n > 0 && same_spot_exec(&history[n - 1], &entry) {
        return;
    }
    history.push(entry);
    if history.len() > HISTORY_LIMIT {
        history.remove(0);
        assert(history@ =~= push_spec(old(history)@, entry));
    }
}

/// What jumping back gives: the stack with its top places removed down to
/// and including the first one that is not the spot `current`, and that
/// place; none when every place is `current`.
pub open spec fn jump_spec(h: Seq<HistoryEntry>, current: Option<HistoryEntry>) -> (
    Seq<HistoryEntry>,
    Option<HistoryEntry>,
)
    decreases h.len(),
{
    if h.len() == 0 {
        (h, None)
    } else if current matches Some(c) && same_spot(c, h.last()) {
        jump_spec(h.drop_last(), current)
    } else {
        (h.drop_last(), Some(h.last()))
    }
}

/// Takes the place to jump back to from the stack, skipping places that are
/// where the cursor already is.
pub fn jump_back(history: &mut Vec<HistoryEntry>, current: Option<&HistoryEntry>) -> (r: Option<
    HistoryEntry,
>)
    ensures
        (final(history)@, r) == jump_spec(
            old(history)@,
            match current {
                Some(c) => Some(*c),
                None => None,
            },
        ),
{
    let ghost cur = match current {
        Some(c) => Some(*c),
        None => None,
    };
    loop
        invariant
            jump_spec(old(history)@, cur) == jump_spec(history@, cur),
            cur == match current {
                Some(c) => Some(*c),
                None => None,
            },
        decreases history@.len(),
    {
        let top = match history.pop() {
            None => return None,
            Some(t) => t,
        };
        let skip = match current {
            Some(c) => same_spot_exec(c, &top),
            None => false,
        };
        if !skip {
            return Some(top);
        }
    }
}

/// Jumping back right after a jump returns to the place the jump left and
/// restores the stack, when the jump did not land on that same spot, the
/// stack was below its limit, and its top was another spot.
pub proof fn jump_back_undoes_push(h: Seq<HistoryEntry>, left: HistoryEntry, landed: HistoryEntry)
    requires
        h.len() < HISTORY_LIMIT,
        h.len() > 0 ==> !same_spot(h.last(), left),
        !same_spot(landed, left),
    ensures
        jump_spec(push_spec(h, left), Some(landed)) == (h, Some(left)),
{
    assert(push_spec(h, left) == h.push(left));
    assert(h.push(left).drop_last() =~= h);
}

/// However many places are recorded, the stack never holds more than its
/// limit.
pub proof fn history_stays_bounded(h: Seq<HistoryEntry>, e: HistoryEntry)
    requires
        h.len() <= HISTORY_LIMIT,
    ensures
        push_spec(h, e).len() <= HISTORY_LIMIT,
{
}

/// Whether diagnostics published for `incoming` are older than the version
/// of the document the client tracks, and so dropped.
pub fn is_stale_publish(known: Option<i64>, incoming: Option<i64>) -> (r: bool)
    ensures
        r == (known matches Some(sv) && incoming matches Some(iv) && iv < sv),
{
    match (known, incoming) {
        (Some(sv), Some(iv)) => iv < sv,
        _ => false,
    }
}

/// What choosing a code action leads to.
pub enum CodeActionStep {
    /// The action is disabled: warn with this message.
    Unavailable(Vec<u8>),
    /// Ask the server to resolve the action first.
    Resolve,
    /// Apply its edit and run its command now.
    Apply,
}

/// The warning for a disabled action, with its reason when there is one.
pub open spec fn unavailable_message(reason: Seq<u8>) -> Seq<u8> {
    if reason.len() == 0 {
        "LSP action unavailable".spec_bytes()
    } else {
        "LSP action unavailable: ".spec_bytes() + reason
    }
}

/// Decides what choosing a code action does: `disabled` holds the reason
/// text (possibly empty) of a disabled action; a resolve round trip is made
/// when the server resolves actions and the action carries data.
pub fn code_action_step(disabled: Option<&str>, resolve_provider: bool, has_data: bool) -> (r:
    CodeActionStep)
    ensures
        disabled matches Some(reason) ==> r matches CodeActionStep::Unavailable(m) && m@
            == unavailable_message(reason.spec_bytes()),
        disabled is None && resolve_provider && has_data ==> r is Resolve,
        disabled is None && !(resolve_provider && has_data) ==> r is Apply,
{
    match disabled {
        Some(reason) => {
            let mut m: Vec<u8> = Vec::new();
            if reason.as_bytes().len() == 0 {
                push_all(&mut m, "LSP action unavailable".as_bytes());
            } else {
                push_all(&mut m, "LSP action unavailable: ".as_bytes());
                push_all(&mut m, reason.as_bytes());
            }
            CodeActionStep::Unavailable(m)
        },
        None => {
            if resolve_provider && has_data {
                CodeActionStep::Resolve
            } else {
                CodeActionStep::Apply
            }
        },
    }
}

/// Where the warning about a missing server tells the user to add one: the
/// home and project `lsp.json` when a user directory and a project exist,
/// the user directory's `lsp.json` without a project, else `lsp.json`.
pub open spec fn config_hint(userdir: Option<Seq<u8>>, project: Option<Seq<u8>>, sep: Seq<u8>) -> Seq<
    u8,
> {
    match userdir {
        None => "lsp.json".spec_bytes(),
        Some(ud) => match project {
            Some(p) => "~/lsp.json or ".spec_bytes() + p + sep + "lsp.json".spec_bytes(),
            None => ud + sep + "lsp.json".spec_bytes(),
        },
    }
}

/// The warning shown when no server is configured for a document.
pub open spec fn missing_server_spec(
    label: Seq<u8>,
    userdir: Option<Seq<u8>>,
    project: Option<Seq<u8>>,
    sep: Seq<u8>,
) -> Seq<u8> {
    "No LSP server configured for ".spec_bytes() + label + ". Add a server in ".spec_bytes()
        + config_hint(userdir, project, sep) + ".".spec_bytes()
}

/// The warning for a document named `label` that no server handles;
/// `userdir`, `project` and `sep` are the user directory, the root
/// project's path and the path separator.
pub fn missing_server_message(
    label: &str,
    userdir: Option<&str>,
    project: Option<&str>,
    sep: &str,
) -> (r: Vec<u8>)
    ensures
        r@ == missing_server_spec(
            label.spec_bytes(),
            match userdir {
                Some(u) => Some(u.spec_bytes()),
                None => None,
            },
            match project {
                Some(p) => Some(p.spec_bytes()),
                None => None,
            },
            sep.spec_bytes(),
        ),
{
    let mut m: Vec<u8> = Vec::new();
    push_all(&mut m, "No LSP server configured for ".as_bytes());
    push_all(&mut m, label.as_bytes());
    push_all(&mut m, ". Add a server in ".as_bytes());
    match userdir {
        None => {
            push_all(&mut m, "lsp.json".as_bytes());
        },
        Some(ud) => match project {
            Some(p) => {
                push_all(&mut m, "~/lsp.json or ".as_bytes());
                push_all(&mut m, p.as_bytes());
                push_all(&mut m, sep.as_bytes());
                push_all(&mut m, "lsp.json".as_bytes());
            },
            None => {
                push_all(&mut m, ud.as_bytes());
                push_all(&mut m, sep.as_bytes());
                push_all(&mut m, "lsp.json".as_bytes());
            },
        },
    }
    push_all(&mut m, ".".as_bytes());
    m
}

/// Whether a diagnostic starting at `start` (line, character) lies after
/// the cursor at (`line`, `ch`); one without a start never does.
pub open spec fn starts_after(start: Option<(i64, i64)>, line: i64, ch: i64) -> bool {
    match start {
        Some((l, c)) => l > line || (l == line && c > ch),
        None => false,
    }
}

/// Whether a diagnostic starting at `start` lies before the cursor.
pub open spec fn starts_before(start: Option<(i64, i64)>, line: i64, ch: i64) -> bool {
    match start {
        Some((l, c)) => l < line || (l == line && c < ch),
        None => false,
    }
}

/// The diagnostic that "next diagnostic" jumps to, among the document's
/// diagnostics in order, given their starts: the first one after the
/// cursor, or the first of all when none is after it.
pub fn next_diagnostic_index(starts: &[Option<(i64, i64)>], line: i64, ch: i64) -> (r: usize)
    requires
        starts@.len() > 0,
    ensures
        r < starts@.len(),
        (exists|k: int| 0 <= k < starts@.len() && #[trigger] starts_after(starts@[k], line, ch)) ==> {
            &&& starts_after(starts@[r as int], line, ch)
            &&& forall|k: int| 0 <= k < r ==> !#[trigger] starts_after(starts@[k], line, ch)
        },
        (forall|k: int| 0 <= k < starts@.len() ==> !#[trigger] starts_after(starts@[k], line, ch)) ==> r
            == 0,
{
    let mut i: usize = 0;
    while i < starts.len()
        invariant
            i <= starts@.len(),
            forall|k: int| 0 <= k < i ==> !#[trigger] starts_after(starts@[k], line, ch),
        decreases starts@.len() - i,
    {
        let hit = match starts[i] {
            Some((l, c)) => l > line || (l == line && c > ch),
            None => false,
        };
        if hit {
            assert(starts_after(starts@[i as int], line, ch));
            return i;
        }
        i = i + 1;
    }
    0
}

/// The diagnostic that "previous diagnostic" jumps to: the last one before
/// the cursor, or the last of all when none is before it.
pub fn previous_diagnostic_index(starts: &[Option<(i64, i64)>], line: i64, ch: i64) -> (r: usize)
    requires
        starts@.len() > 0,
    ensures
        r < starts@.len(),
        (exists|k: int| 0 <= k < starts@.len() && #[trigger] starts_before(starts@[k], line, ch)) ==> {
            &&& starts_before(starts@[r as int], line, ch)
            &&& forall|k: int| r < k < starts@.len() ==> !#[trigger] starts_before(starts@[k], line, ch)
        },
        (forall|k: int| 0 <= k < starts@.len() ==> !#[trigger] starts_before(starts@[k], line, ch)) ==> r
            == starts@.len() - 1,
{
    let mut i: usize = starts.len();
    while i > 0
        invariant
            i <= starts@.len(),
            forall|k: int| i <= k < starts@.len() ==> !#[trigger] starts_before(starts@[k], line, ch),
        decreases i,
    {
        let hit = match starts[i - 1] {
            Some((l, c)) => l < line || (l == line && c < ch),
            None => false,
        };
        if hit {
            assert(starts_before(starts@[i - 1], line, ch));
            return i - 1;
        }
        i = i - 1;
    }
    starts.len() - 1
}

/// Whether `t` is one of `triggers`.
pub open spec fn listed(triggers: Seq<&str>, t: Seq<u8>) -> bool {
    exists|k: int| 0 <= k < triggers.len() && #[trigger] triggers[k].spec_bytes() == t
}

fn is_listed(triggers: &[&str], t: &[u8]) -> (r: bool)
    ensures
        r == listed(triggers@, t@),
{
    let mut i: usize = 0;
    while i < triggers.len()
        invariant
            i <= triggers@.len(),
            forall|k: int| 0 <= k < i ==> #[trigger] triggers@[k].spec_bytes() != t@,
        decreases triggers@.len() - i,
    {
        if same_bytes(triggers[i].as_bytes(), t) {
            return true;
        }
        i = i + 1;
    }
    false
}

/// Whether typing `text` asks the server for signature help: only `(` and
/// `,` can, and then when the server lists no trigger characters or lists
/// this one.
pub fn signature_help_wanted(text: &str, triggers: &[&str]) -> (r: bool)
    ensures
        r == ((text.spec_bytes() == "(".spec_bytes() || text.spec_bytes() == ",".spec_bytes()) && (
        triggers@.len() == 0 || listed(triggers@, text.spec_bytes()))),
{
    if !(same_bytes(text.as_bytes(), "(".as_bytes()) || same_bytes(text.as_bytes(), ",".as_bytes())) {
        return false;
    }
    triggers.len() == 0 || is_listed(triggers, text.as_bytes())
}

/// The text that is matched against the completion triggers: a `:` typed
/// right after another `:` counts as `::`.
pub open spec fn completion_trigger(text: Seq<u8>, after_colon: bool) -> Seq<u8> {
    if text == ":".spec_bytes() && after_colon {
        "::".spec_bytes()
    } else {
        text
    }
}

/// Whether typing `text` asks the server for completions; `after_colon`
/// tells whether the character before the cursor is a `:`. A server that
/// lists no trigger characters is never asked.
pub fn completion_wanted(text: &str, after_colon: bool, triggers: &[&str]) -> (r: bool)
    ensures
        r == (triggers@.len() > 0 && listed(triggers@, completion_trigger(text.spec_bytes(), after_colon))),
{
    if triggers.len() == 0 {
        return false;
    }
    if after_colon && same_bytes(text.as_bytes(), ":".as_bytes()) {
        is_listed(triggers, "::".as_bytes())
    } else {
        is_listed(triggers, text.as_bytes())
    }
}

} // verus!
