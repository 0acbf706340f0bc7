use forge_core::project_model::{
    can_use_shared, join_path, new_project_state, normalize_path, plan_ensure, relative_to,
    start_rebuild, EnsureAction, ListConfig, ProjectState,
};

fn text(b: Vec<u8>) -> String {
    String::from_utf8(b).unwrap()
}

#[test]
fn joins_relative_paths() {
    assert!(text(join_path("/tmp/project", "src/main.rs")).ends_with("/tmp/project/src/main.rs"));
}

#[test]
fn normalizes_relative_paths() {
    assert_eq!(text(relative_to("/tmp/project", "/tmp/project/src/main.rs")), "src/main.rs");
}

#[test]
fn join_keeps_absolute_file_names() {
    assert_eq!(text(join_path("/tmp/project", "/etc/hosts")), "/etc/hosts");
    assert_eq!(text(join_path("/tmp/project", "a\\b")), "/tmp/project/a/b");
}

#[test]
fn relative_to_outside_root_keeps_the_path() {
    assert_eq!(text(relative_to("/tmp/project", "/other/file.rs")), "/other/file.rs");
    assert_eq!(text(relative_to("/tmp/project", "/tmp/projectx/a.rs")), "/tmp/projectx/a.rs");
}

#[test]
fn normalize_path_turns_backslashes() {
    assert_eq!(text(normalize_path("a\\b\\c.txt")), "a/b/c.txt");
    assert_eq!(text(normalize_path("plain/path")), "plain/path");
}

#[test]
fn shared_list_only_without_limits() {
    assert!(can_use_shared(None, &[]));
    assert!(!can_use_shared(Some(10), &[]));
    assert!(!can_use_shared(None, &["target".to_string()]));
}

fn config(max_files: Option<usize>, dirs: &[&str]) -> ListConfig {
    ListConfig {
        max_size_bytes: Some(1_000_000),
        max_files,
        exclude_dirs: dirs.iter().map(|d| d.to_string()).collect(),
    }
}

fn state(dirty: bool, rebuilding: bool, since: Option<u64>) -> ProjectState {
    ProjectState {
        config: config(Some(100), &["target"]),
        dirty,
        rebuilding,
        since_event_ms: since,
    }
}

#[test]
fn ensure_creates_unknown_roots() {
    assert_eq!(plan_ensure(None, &config(None, &[])), EnsureAction::Create);
}

#[test]
fn ensure_keeps_while_rebuilding() {
    let s = state(true, true, Some(10_000));
    assert_eq!(plan_ensure(Some(&s), &config(Some(5), &[])), EnsureAction::Keep);
}

#[test]
fn ensure_keeps_clean_lists() {
    let s = state(false, false, None);
    assert_eq!(plan_ensure(Some(&s), &config(Some(100), &["target"])), EnsureAction::Keep);
}

#[test]
fn ensure_debounces_recent_changes() {
    let s = state(true, false, Some(100));
    assert_eq!(plan_ensure(Some(&s), &config(Some(100), &["target"])), EnsureAction::Wait);
    let s = state(true, false, Some(499));
    assert_eq!(plan_ensure(Some(&s), &config(Some(100), &["target"])), EnsureAction::Wait);
}

#[test]
fn ensure_rebuilds_after_quiet_time() {
    let s = state(true, false, Some(500));
    assert_eq!(plan_ensure(Some(&s), &config(Some(100), &["target"])), EnsureAction::Rebuild);
    let s = state(true, false, None);
    assert_eq!(plan_ensure(Some(&s), &config(Some(100), &["target"])), EnsureAction::Rebuild);
}

#[test]
fn ensure_rebuilds_on_new_settings() {
    let s = state(false, false, None);
    assert_eq!(plan_ensure(Some(&s), &config(Some(7), &["target"])), EnsureAction::Rebuild);
    let s = state(true, false, Some(1));
    assert_eq!(plan_ensure(Some(&s), &config(Some(100), &["build"])), EnsureAction::Rebuild);
}

#[test]
fn rebuild_and_creation_mark_the_entry() {
    let s = new_project_state(config(None, &["x"]));
    assert!(s.rebuilding && !s.dirty && s.since_event_ms.is_none());
    let mut e = state(true, false, Some(900));
    start_rebuild(&mut e, config(Some(3), &[]));
    assert!(e.rebuilding && !e.dirty);
    assert_eq!(e.config.max_files, Some(3));
    assert_eq!(e.since_event_ms, Some(900));
    assert_eq!(plan_ensure(Some(&e), &config(Some(3), &[])), EnsureAction::Keep);
}

#[test]
fn join_adds_a_separator_only_where_needed() {
    assert_eq!(String::from_utf8(join_path("", "a/b")).unwrap(), "a/b");
    assert_eq!(String::from_utf8(join_path("/tmp/", "a")).unwrap(), "/tmp/a");
    assert_eq!(String::from_utf8(join_path("/tmp", "a")).unwrap(), "/tmp/a");
    assert_eq!(String::from_utf8(join_path("/tmp", "/etc/x")).unwrap(), "/etc/x");
}

#[test]
fn join_undoes_relative_on_plain_paths() {
    let root = "/home/user/proj";
    let file = "/home/user/proj/src/lib.rs";
    let rel = String::from_utf8(relative_to(root, file)).unwrap();
    assert_eq!(rel, "src/lib.rs");
    assert_eq!(String::from_utf8(join_path(root, &rel)).unwrap(), file);
}
