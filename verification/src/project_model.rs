//! Path strings of the project model (separators, joining a file name onto a
//! root, a file name relative to a root) and the decision of what to do when
//! the file list of a project root is asked for.

use vstd::prelude::*;
use vstd::string::StringSliceAdditionalSpecFns;
use vstd::utf8::encode_utf8;

verus! {

/// Every `\` becomes `/`; every other byte stays.
pub open spec fn normalize_spec(b: Seq<u8>) -> Seq<u8> {
    Seq::new(b.len(), |i: int| if b[i] == 92 { 47u8 } else { b[i] })
}

/// `path` with its separators written as `/`.
pub fn normalize_path(path: &str) -> (r: Vec<u8>)
    ensures
        r@ == normalize_spec(path.spec_bytes()),
{
    let b = path.as_bytes();
    let mut out: Vec<u8> = Vec::new();
    let mut i: usize = 0;
    while i < b.len()
        invariant
            i <= b@.len(),
            b@ == path.spec_bytes(),
            out@ =~= normalize_spec(b@.take(i as int)),
        decreases b@.len() - i,
    {
        if b[i] == 92 {
            out.push(47);
        } else {
            out.push(b[i]);
        }
        i = i + 1;
        assert(out@ =~= normalize_spec(b@.take(i as int)));
    }
    assert(b@.take(b@.len() as int) =~= b@);
    out
}

/// Normalizing twice is normalizing once, and no `\` is left.
pub proof fn normalize_is_idempotent(b: Seq<u8>)
    ensures
        normalize_spec(normalize_spec(b)) == normalize_spec(b),
        forall|i: int| 0 <= i < b.len() ==> #[trigger] normalize_spec(b)[i] != 92,
{
    assert(normalize_spec(normalize_spec(b)) =~= normalize_spec(b));
}

/// A Unix path is absolute when it starts at the root `/`.
pub open spec fn is_absolute_spec(p: Seq<char>) -> bool {
    p.len() > 0 && p[0] == '/'
}

/// What `PathBuf::from(root).join(file)` holds on Unix, read back as text:
/// an absolute `file` replaces the root; otherwise `file` follows the root,
/// after a `/` unless the root is empty or already ends in one.
pub open spec fn join_text(root: Seq<char>, file: Seq<char>) -> Seq<char> {
    if is_absolute_spec(file) {
        file
    } else if root.len() == 0 || root.last() == '/' {
        root + file
    } else {
        root + seq!['/'] + file
    }
}

/// What `Path::new(file).strip_prefix(root)` gives back as text, or `None`
/// when `root` is not a prefix of `file` by whole components.
pub uninterp spec fn path_stripped(file: Seq<char>, root: Seq<char>) -> Option<Seq<char>>;

/// No two separators in a row, and no component that is `.`.
pub open spec fn clean_components(s: Seq<char>) -> bool {
    &&& forall|i: int| 0 <= i < s.len() - 1 && #[trigger] s[i] == '/' ==> s[i + 1] != '/'
    &&& forall|i: int|
        0 <= i < s.len() && #[trigger] s[i] == '.' && (i == 0 || s[i - 1] == '/') ==> i + 1 < s.len() && s[i
            + 1] != '/'
}

/// A relative path of plain components: not empty, no separator at either
/// end, no empty or `.` component.
pub open spec fn plain_relative(s: Seq<char>) -> bool {
    &&& s.len() > 0
    &&& s[0] != '/'
    &&& s.last() != '/'
    &&& clean_components(s)
}

/// A root written plainly: plain components, possibly after a leading `/`.
pub open spec fn plain_root(s: Seq<char>) -> bool {
    plain_relative(s) || (s.len() > 1 && s[0] == '/' && plain_relative(s.drop_first()))
}

/// `file` is a plain `root`, then `/`, then plain components.
pub open spec fn plain_under(root: Seq<char>, file: Seq<char>) -> bool {
    &&& plain_root(root)
    &&& file.len() > root.len() + 1
    &&& file.take(root.len() as int) == root
    &&& file[root.len() as int] == '/'
    &&& plain_relative(file.skip(root.len() + 1int))
}

/// Calls `Path::is_absolute`; on Unix a path is absolute exactly when it
/// begins with `/`.
#[verifier::external_body]
fn std_path_is_absolute(p: &str) -> (r: bool)
    ensures
        r == is_absolute_spec(p@),
{
    std::path::Path::new(p).is_absolute()
}

/// Calls `PathBuf::join` and reads the result back with `to_string_lossy`,
/// which leaves the text of two `str`s unchanged.  On Unix joining an
/// absolute path replaces the root, and a relative one is pushed after a
/// separator that is added only where the root is not empty and does not
/// end in one (`join_text`).
#[verifier::external_body]
fn std_path_join(root: &str, file: &str) -> (r: String)
    ensures
        r@ == join_text(root@, file@),
{
    std::path::PathBuf::from(root).join(file).to_string_lossy().into_owned()
}

/// Calls `Path::strip_prefix` and turns the rest into a `String`.  When `root`
/// is written plainly and `file` is `root`, `/` and plain components, the rest
/// is those components, as the documentation's examples show; other inputs
/// are only named.
#[verifier::external_body]
fn std_path_strip_prefix(file: &str, root: &str) -> (r: Option<String>)
    ensures
        r matches Some(s) ==> path_stripped(file@, root@) == Some(s@),
        r is None ==> path_stripped(file@, root@) is None,
        plain_under(root@, file@) ==> r is Some && r->0@ == file@.skip(root@.len() + 1int),
{
    match std::path::Path::new(file).strip_prefix(root) {
        Ok(p) => p.to_str().map(String::from),
        Err(_) => None,
    }
}

/// `file` made absolute against `root`, with `/` separators.
pub open spec fn join_spec(root: Seq<char>, file: Seq<char>) -> Seq<u8> {
    if is_absolute_spec(file) {
        normalize_spec(encode_utf8(file))
    } else {
        normalize_spec(encode_utf8(join_text(root, file)))
    }
}

/// `filename` joined onto `root` unless it is absolute already; separators
/// become `/`.
pub fn join_path(root: &str, filename: &str) -> (r: Vec<u8>)
    ensures
        r@ == join_spec(root@, filename@),
{
    if std_path_is_absolute(filename) {
        return normalize_path(filename);
    }
    let joined = std_path_join(root, filename);
    normalize_path(joined.as_str())
}

/// `file` relative to `root` when `root` is a prefix of it by whole
/// components, else `file` itself; separators become `/`.
pub open spec fn relative_spec(root: Seq<char>, file: Seq<char>) -> Seq<u8> {
    match path_stripped(file, root) {
        Some(p) => normalize_spec(encode_utf8(p)),
        None => normalize_spec(encode_utf8(file)),
    }
}

/// `filename` relative to `root`, or `filename` when it lies outside `root`.
/// For a plainly written root and a file of plain components below it, the
/// result is the part after the root and its `/`.
pub fn relative_to(root: &str, filename: &str) -> (r: Vec<u8>)
    ensures
        r@ == relative_spec(root@, filename@),
        plain_under(root@, filename@) ==> r@ == normalize_spec(
            encode_utf8(filename@.skip(root@.len() + 1int)),
        ),
{
    match std_path_strip_prefix(filename, root) {
        Some(rest) => normalize_path(rest.as_str()),
        None => normalize_path(filename),
    }
}

/// Joining a file's path relative to a root back onto the root gives the
/// file again, for a plainly written root and a file of plain components
/// below it whose text holds no backslash.
pub proof fn join_undoes_relative(root: Seq<char>, file: Seq<char>)
    requires
        plain_under(root, file),
        forall|j: int| 0 <= j < encode_utf8(file).len() ==> #[trigger] encode_utf8(file)[j] != 92,
    ensures
        ({
            let rel = file.skip(root.len() + 1int);
            &&& normalize_spec(encode_utf8(rel)) == encode_utf8(rel)
            &&& join_spec(root, rel) == encode_utf8(file)
        }),
{
    let rel = file.skip(root.len() + 1int);
    assert(file =~= root + seq!['/'] + rel);
    crate::columns::lemma_encode_concat(root + seq!['/'], rel);
    crate::columns::lemma_encode_concat(root, seq!['/']);
    let eb = encode_utf8(file);
    let er = encode_utf8(rel);
    let pre = encode_utf8(root + seq!['/']);
    assert(eb == pre + er);
    assert forall|j: int| 0 <= j < er.len() implies er[j] != 92 by {
        assert(er[j] == eb[pre.len() + j]);
    }
    assert(normalize_spec(er) =~= er);
    assert(normalize_spec(eb) =~= eb);
    assert(rel[0] != '/');
    assert(root.len() > 0 && root.last() != '/');
    assert(join_text(root, rel) =~= file);
}

/// Whether the file list shared by all callers can serve a request: only
/// when it asks for no file cap and excludes no directory.
pub fn can_use_shared(max_files: Option<usize>, exclude_dirs: &[String]) -> (r: bool)
    ensures
        r == (max_files is None && exclude_dirs@.len() == 0),
{
    max_files.is_none() && exclude_dirs.len() == 0
}

/// Milliseconds of quiet after the last filesystem event before a dirty file
/// list is rebuilt.
pub const REBUILD_DEBOUNCE_MS: u64 = 500;

/// The settings a file list is built with.
pub struct ListConfig {
    pub max_size_bytes: Option<u64>,
    pub max_files: Option<usize>,
    pub exclude_dirs: Vec<String>,
}

/// What is known of a project root whose file list exists.
pub struct ProjectState {
    pub config: ListConfig,
    /// A filesystem change was seen since the list was last built.
    pub dirty: bool,
    /// A rebuild is in flight.
    pub rebuilding: bool,
    /// Milliseconds since the last filesystem event; `None` when none came.
    pub since_event_ms: Option<u64>,
}

/// What asking for the file list of a root sets off.
#[derive(PartialEq, Eq, Structural, Debug, Clone, Copy)]
pub enum EnsureAction {
    /// The list is current, or a rebuild is already running: nothing to do.
    Keep,
    /// The list is dirty but the last change is too recent: try again later.
    Wait,
    /// Rebuild the list of a known root.
    Rebuild,
    /// The root is new: create its entry, build its list and watch it.
    Create,
}

/// The excluded directories as text.
pub open spec fn dirs_view(d: Seq<String>) -> Seq<Seq<char>> {
    d.map_values(|s: String| s@)
}

/// Whether a request asks for other settings than those a list was built with.
pub open spec fn config_changed(old_cfg: ListConfig, req: ListConfig) -> bool {
    ||| old_cfg.max_size_bytes != req.max_size_bytes
    ||| old_cfg.max_files != req.max_files
    ||| dirs_view(old_cfg.exclude_dirs@) != dirs_view(req.exclude_dirs@)
}

/// The decision for a root given its entry, if any, and the requested
/// settings.
pub open spec fn ensure_spec(entry: Option<&ProjectState>, req: ListConfig) -> EnsureAction {
    match entry {
        None => EnsureAction::Create,
        Some(e) => {
            let changed = config_changed(e.config, req);
            if e.rebuilding || (!changed && !e.dirty) {
                EnsureAction::Keep
            } else if e.dirty && !changed && (e.since_event_ms matches Some(ms)
                && ms < REBUILD_DEBOUNCE_MS) {
                EnsureAction::Wait
            } else {
                EnsureAction::Rebuild
            }
        },
    }
}

/// Whether two lists of directory names are equal.
fn same_dirs(a: &[String], b: &[String]) -> (r: bool)
    ensures
        r == (dirs_view(a@) == dirs_view(b@)),
{
    if a.len() != b.len() {
        assert(dirs_view(a@).len() != dirs_view(b@).len());
        return false;
    }
    let mut i: usize = 0;
    while i < a.len()
        invariant
            i <= a@.len(),
            a@.len() == b@.len(),
            forall|k: int| 0 <= k < i ==> (#[trigger] a@[k])@ == b@[k]@,
        decreases a@.len() - i,
    {
        if a[i] != b[i] {
            assert(dirs_view(a@)[i as int] != dirs_view(b@)[i as int]);
            return false;
        }
        i = i + 1;
    }
    assert(dirs_view(a@) =~= dirs_view(b@));
    true
}

/// Decides what asking for the file list of a root with the settings `req`
/// sets off, given the root's entry if it has one.
pub fn plan_ensure(entry: Option<&ProjectState>, req: &ListConfig) -> (r: EnsureAction)
    ensures
        r == ensure_spec(entry, *req),
{
    match entry {
        None => EnsureAction::Create,
        Some(e) => {
            let changed = e.config.max_size_bytes != req.max_size_bytes || e.config.max_files
                != req.max_files || !same_dirs(e.config.exclude_dirs.as_slice(), req.exclude_dirs.as_slice());
            if e.rebuilding || (!changed && !e.dirty) {
                EnsureAction::Keep
            } else if e.dirty && !changed && match e.since_event_ms {
                Some(ms) => ms < REBUILD_DEBOUNCE_MS,
                None => false,
            } {
                EnsureAction::Wait
            } else {
                EnsureAction::Rebuild
            }
        },
    }
}

/// The entry of a root whose first list is being built.
pub fn new_project_state(req: ListConfig) -> (s: ProjectState)
    ensures
        s.config == req,
        !s.dirty,
        s.rebuilding,
        s.since_event_ms is None,
{
    ProjectState { config: req, dirty: false, rebuilding: true, since_event_ms: None }
}

/// Marks the entry as rebuilding with the requested settings.
pub fn start_rebuild(entry: &mut ProjectState, req: ListConfig)
    ensures
        final(entry).config == req,
        !final(entry).dirty,
        final(entry).rebuilding,
        final(entry).since_event_ms == old(entry).since_event_ms,
{
    entry.dirty = false;
    entry.rebuilding = true;
    entry.config = req;
}

/// While a rebuild of a root is in flight, asking for its list again sets
/// off nothing, whatever the settings: at most one rebuild per root runs.
pub proof fn one_rebuild_at_a_time(entry: &ProjectState, req: ListConfig)
    requires
        entry.rebuilding,
    ensures
        ensure_spec(Some(entry), req) == EnsureAction::Keep,
{
}

/// Asking again with the settings a list was just built with, and no
/// filesystem change since, sets off nothing.
pub proof fn unchanged_root_is_kept(entry: &ProjectState, req: ListConfig)
    requires
        !entry.dirty,
        entry.config.max_size_bytes == req.max_size_bytes,
        entry.config.max_files == req.max_files,
        dirs_view(entry.config.exclude_dirs@) == dirs_view(req.exclude_dirs@),
    ensures
        ensure_spec(Some(entry), req) == EnsureAction::Keep,
{
}

/// A dirty list whose last change is more recent than the debounce time is
/// not rebuilt while the settings stay the same.
pub proof fn recent_changes_wait(entry: &ProjectState, req: ListConfig)
    requires
        !entry.rebuilding,
        entry.dirty,
        !config_changed(entry.config, req),
        entry.since_event_ms matches Some(ms) && ms < REBUILD_DEBOUNCE_MS,
    ensures
        ensure_spec(Some(entry), req) == EnsureAction::Wait,
{
}

} // verus!
