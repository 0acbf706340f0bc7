use forge_core::lsp_manager::{
    lsp_plugin_defaults, navigation_choice, open_location_step, plan_workspace_edit, publish_plan,
    semantic_line_updates, sort_edits, unsupported_text, EditRange, NavChoice, PublishAction,
    SemToken,
};
use forge_core::navigation::HistoryEntry;
use forge_core::replace_view::{
    initial_replace_state, replace_view_step, ReplaceEvent, ReplacePhase,
};

fn edit(line: i64, ch: i64, index: usize) -> EditRange {
    EditRange { start_line: line, start_char: ch, index }
}

fn tok(pos: i64, len: i64, index: usize) -> SemToken {
    SemToken { pos, len, index }
}

fn chars(v: &[char]) -> String {
    v.iter().collect()
}

#[test]
fn edits_apply_from_the_end_of_the_file() {
    let sorted = sort_edits(&[edit(1, 0, 0), edit(3, 2, 1), edit(3, 5, 2), edit(0, 9, 3)]);
    let order: Vec<usize> = sorted.iter().map(|e| e.index).collect();
    assert_eq!(order, vec![2, 1, 0, 3]);
}

#[test]
fn workspace_edit_plan_lists_changes_then_document_changes() {
    let changes = [
        ("file:///a.rs", vec![edit(0, 0, 0), edit(2, 0, 1)]),
        ("untitled:1", vec![edit(0, 0, 0)]),
    ];
    let doc_changes = [("file:///b%20c.rs", vec![edit(5, 1, 0)])];
    let plan = plan_workspace_edit(&changes, &doc_changes);
    assert_eq!(plan.len(), 2);
    assert_eq!(chars(&plan[0].0), "/a.rs");
    assert_eq!(plan[0].1.iter().map(|e| e.index).collect::<Vec<_>>(), vec![1, 0]);
    assert_eq!(chars(&plan[1].0), "/b c.rs");
    assert_eq!(plan[1].1, vec![edit(5, 1, 0)]);
}

#[test]
fn stale_diagnostics_are_dropped() {
    assert!(matches!(
        publish_plan(true, Some(5), Some(4), 2, "ra", "file:///x/y.rs"),
        PublishAction::Skip
    ));
    match publish_plan(false, Some(5), Some(4), 2, "ra", "file:///x/y.rs") {
        PublishAction::Publish { record_version, version, message } => {
            assert!(!record_version);
            assert_eq!(version, Some(4));
            assert_eq!(chars(&message), "LSP ra: 2 diagnostic(s) for y.rs");
        }
        PublishAction::Skip => panic!("untracked documents take every publish"),
    }
}

#[test]
fn publish_keeps_the_tracked_version_without_one() {
    match publish_plan(true, Some(7), None, 0, "clangd", "mem://buf") {
        PublishAction::Publish { record_version, version, message } => {
            assert!(record_version);
            assert_eq!(version, Some(7));
            assert_eq!(chars(&message), "LSP clangd: 0 diagnostic(s) for mem://buf");
        }
        PublishAction::Skip => panic!("not stale"),
    }
}

#[test]
fn semantic_lines_are_cleared_then_set() {
    let new_lines = [(4u64, vec![tok(8, 2, 0), tok(1, 3, 1), tok(1, 1, 2)]), (7u64, vec![])];
    let updates = semantic_line_updates(&[2, 4, 9], &new_lines);
    assert_eq!(updates.len(), 4);
    assert_eq!(updates[0], (2, None));
    assert_eq!(updates[1], (9, None));
    assert_eq!(updates[2].0, 4);
    let order: Vec<usize> = updates[2].1.as_ref().unwrap().iter().map(|t| t.index).collect();
    assert_eq!(order, vec![2, 1, 0]);
    assert_eq!(updates[3], (7, Some(vec![])));
}

#[test]
fn navigation_uses_uninitialized_clients() {
    assert_eq!(navigation_choice(false, true, true, true, true), NavChoice::NoServer);
    assert_eq!(navigation_choice(true, false, true, true, true), NavChoice::NoClient);
    assert_eq!(navigation_choice(true, true, true, true, false), NavChoice::Unsupported);
    assert_eq!(navigation_choice(true, true, true, false, false), NavChoice::Use);
    assert_eq!(navigation_choice(true, true, false, true, false), NavChoice::Use);
    assert_eq!(
        chars(&unsupported_text("ra", "go to definition")),
        "LSP server ra does not support go to definition"
    );
}

fn spot(path: &str, line: i64) -> HistoryEntry {
    HistoryEntry { path: path.to_string(), line1: line, col1: 1, line2: line, col2: 1 }
}

#[test]
fn opening_a_location_records_where_we_were() {
    let mut history = vec![spot("/a", 1)];
    assert_eq!(open_location_step(&mut history, "http://x", Some(spot("/b", 2))), None);
    assert_eq!(history.len(), 1);
    let p = open_location_step(&mut history, "file:///c.rs", Some(spot("/b", 2))).unwrap();
    assert_eq!(chars(&p), "/c.rs");
    assert_eq!(history.len(), 2);
    let _ = open_location_step(&mut history, "file:///d.rs", Some(spot("/b", 2)));
    assert_eq!(history.len(), 2);
    let _ = open_location_step(&mut history, "file:///d.rs", None);
    assert_eq!(history.len(), 2);
}

#[test]
fn plugin_settings_default_to_on() {
    assert_eq!(
        lsp_plugin_defaults([None, Some(false), Some(true), None]),
        [true, false, true, true]
    );
}

#[test]
fn replace_view_runs_through_its_phases() {
    let s = initial_replace_state(10);
    assert_eq!(s.phase, ReplacePhase::Scanning);
    let s = replace_view_step(s, ReplaceEvent::ScanResults { count: 3 });
    let s = replace_view_step(s, ReplaceEvent::ScanResults { count: 4 });
    assert_eq!(s.match_count, 7);
    let s = replace_view_step(s, ReplaceEvent::ScanDone);
    assert_eq!(s.phase, ReplacePhase::Confirming);
    assert!(s.flash);
    let s = replace_view_step(s, ReplaceEvent::ApplyReplace);
    assert_eq!(s.phase, ReplacePhase::Replacing);
    let s = replace_view_step(s, ReplaceEvent::ReplaceDone { replaced: 7, written: 3 });
    assert_eq!((s.phase, s.replaced_count, s.replaced_files), (ReplacePhase::Done, 7, 3));
    let e = replace_view_step(initial_replace_state(1), ReplaceEvent::ScanError);
    assert_eq!(e.phase, ReplacePhase::Confirming);
    assert!(!e.flash);
}
