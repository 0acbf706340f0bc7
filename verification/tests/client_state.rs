use forge_core::diag_select::{
    hover_diagnostic, inline_diagnostic, line_segments, line_severity, segment_before, DiagSpan,
    Segment,
};
use forge_core::diagnostics::{
    diagnostic_line_range, diagnostic_tooltip_text, edit_applied_before, inline_diagnostic_text,
    location_item_text, DiagCode,
};
use forge_core::navigation::{
    code_action_step, is_stale_publish, jump_back, missing_server_message, push_history,
    CodeActionStep, HistoryEntry,
};
use forge_core::process::{
    closable_stream, effective_timeout, parse_env_string, poll_step, read_step, readable_stream,
    redirects_supported, PollStep, ReadStep,
};

fn text(b: Vec<u8>) -> String {
    String::from_utf8(b).unwrap()
}

#[test]
fn env_block_parses_into_pairs() {
    let pairs = parse_env_string("A=1\0B=x=y\0NOEQ\0\0C=3\0");
    assert_eq!(pairs, vec![(b"A".to_vec(), b"1".to_vec()), (b"B".to_vec(), b"x=y".to_vec())]);
    assert!(parse_env_string("").is_empty());
    assert_eq!(parse_env_string("K=V"), vec![(b"K".to_vec(), b"V".to_vec())]);
}

#[test]
fn redirects_must_name_known_streams() {
    assert!(redirects_supported([0, 1, 2]));
    assert!(redirects_supported([-3, -2, -1]));
    assert!(!redirects_supported([3, 1, 2]));
    assert!(!redirects_supported([0, -4, 2]));
}

#[test]
fn poll_steps_follow_waitpid() {
    assert_eq!(poll_step(42, Some(3), 10, 0), PollStep::Exited(Some(3)));
    assert_eq!(poll_step(42, None, 10, 0), PollStep::Exited(Some(-1)));
    assert_eq!(poll_step(-1, None, 10, 0), PollStep::Exited(None));
    assert_eq!(poll_step(0, None, 0, 0), PollStep::GiveUp);
    assert_eq!(poll_step(0, None, 10, 10), PollStep::GiveUp);
    assert_eq!(poll_step(0, None, 10, 3), PollStep::Again(true));
    assert_eq!(poll_step(0, None, 3, 1), PollStep::Again(false));
    assert_eq!(poll_step(0, None, -2, 100000), PollStep::Again(false));
    assert_eq!(effective_timeout(-1, 10), 10);
    assert_eq!(effective_timeout(5, 10), 5);
}

#[test]
fn read_steps_follow_read() {
    assert_eq!(read_step(5, false), ReadStep::Got(5));
    assert_eq!(read_step(0, false), ReadStep::Eof);
    assert_eq!(read_step(-1, true), ReadStep::Pause);
    assert_eq!(read_step(-1, false), ReadStep::Fail);
    assert!(readable_stream(1) && readable_stream(2) && !readable_stream(0));
    assert!(closable_stream(0) && closable_stream(2) && !closable_stream(3) && !closable_stream(-1));
}

#[test]
fn inline_text_is_first_line_collapsed() {
    assert_eq!(inline_diagnostic_text(Some("  first   line \r\nsecond")).map(text), Some("first line".to_string()));
    assert_eq!(inline_diagnostic_text(Some("a\rb")).map(text), Some("a".to_string()));
    assert_eq!(inline_diagnostic_text(Some("\n\nx")), None);
    assert_eq!(inline_diagnostic_text(None), None);
}

#[test]
fn tooltip_text_has_header_and_message() {
    let t = diagnostic_tooltip_text(
        Some(1),
        Some("rustc"),
        &DiagCode::Text("E0308".to_string()),
        Some("bad\r\nthing"),
    );
    assert_eq!(t.map(text), Some("Error \u{b7} rustc \u{b7} E0308\nbad\nthing".to_string()));
    let t = diagnostic_tooltip_text(None, Some(""), &DiagCode::Int(-7), Some("m"));
    assert_eq!(t.map(text), Some("Info \u{b7} -7\nm".to_string()));
    let t = diagnostic_tooltip_text(Some(2), None, &DiagCode::Absent, Some(""));
    assert_eq!(t.map(text), Some("Warning\n".to_string()));
    let t = diagnostic_tooltip_text(Some(9), None, &DiagCode::Absent, Some("x"));
    assert_eq!(t.map(text), Some("Hint\nx".to_string()));
    assert_eq!(diagnostic_tooltip_text(Some(1), None, &DiagCode::Absent, None), None);
}

#[test]
fn line_range_is_one_based() {
    assert_eq!(diagnostic_line_range(Some((Some(4), None))), Some((5, 5)));
    assert_eq!(diagnostic_line_range(Some((None, Some(2)))), Some((1, 3)));
    assert_eq!(diagnostic_line_range(Some((Some(1), Some(3)))), Some((2, 4)));
    assert_eq!(diagnostic_line_range(None), None);
}

#[test]
fn edits_apply_from_the_end() {
    assert!(edit_applied_before(3, 1, 2, 9));
    assert!(edit_applied_before(2, 5, 2, 3));
    assert!(!edit_applied_before(2, 3, 2, 3));
    assert!(!edit_applied_before(1, 9, 2, 0));
}

#[test]
fn location_labels_pad_index() {
    assert_eq!(text(location_item_text(7, b"main.rs", Some(9), Some(0))), "007 main.rs:10:1");
    assert_eq!(text(location_item_text(1234, b"a", None, None)), "1234 a:1:1");
}

fn span(sl: i64, el: i64, sc: i64, ec: i64, sev: i64, len: usize) -> DiagSpan {
    DiagSpan { start_line: sl, end_line: el, start_col: sc, end_col: ec, severity: sev, msg_len: len }
}

fn sample() -> Vec<DiagSpan> {
    vec![span(2, 4, 5, 3, 2, 10), span(3, 3, 2, 6, 1, 4), span(3, 3, 1, 2, 1, 8)]
}

#[test]
fn line_severity_is_most_severe() {
    let d = sample();
    assert_eq!(line_severity(&d, 3), Some(1));
    assert_eq!(line_severity(&d, 2), Some(2));
    assert_eq!(line_severity(&d, 9), None);
}

#[test]
fn segments_are_clamped_to_the_line() {
    let d = sample();
    assert_eq!(
        line_segments(&d[..2], 3, 10),
        vec![Segment { col1: 1, col2: 10, severity: 2 }, Segment { col1: 2, col2: 6, severity: 1 }]
    );
    assert_eq!(line_segments(&d[..1], 2, 3), vec![Segment { col1: 3, col2: 3, severity: 2 }]);
    assert_eq!(line_segments(&d, 7, 3), vec![]);
    assert!(segment_before(&Segment { col1: 1, col2: 9, severity: 1 }, &Segment { col1: 2, col2: 3, severity: 1 }));
    assert!(segment_before(&Segment { col1: 2, col2: 3, severity: 4 }, &Segment { col1: 2, col2: 4, severity: 1 }));
}

#[test]
fn hover_picks_most_severe_longest() {
    let d = sample();
    assert_eq!(hover_diagnostic(&d, 3, Some(2)), Some(2));
    assert_eq!(hover_diagnostic(&d, 3, Some(7)), Some(0));
    assert_eq!(hover_diagnostic(&d, 3, None), Some(2));
    assert_eq!(hover_diagnostic(&d, 8, None), None);
}

#[test]
fn inline_picks_diagnostic_starting_on_line() {
    let d = sample();
    assert_eq!(inline_diagnostic(&d, 3), Some((2, 2)));
    assert_eq!(inline_diagnostic(&d, 2), Some((0, 5)));
    assert_eq!(inline_diagnostic(&d, 5), None);
}

fn entry(path: &str, line: i64) -> HistoryEntry {
    HistoryEntry { path: path.to_string(), line1: line, col1: 1, line2: line, col2: 1 }
}

#[test]
fn history_skips_repeats_and_jumps_back() {
    let mut h = Vec::new();
    push_history(&mut h, entry("a.rs", 1));
    push_history(&mut h, entry("a.rs", 1));
    assert_eq!(h.len(), 1);
    push_history(&mut h, entry("b.rs", 5));
    assert_eq!(h.len(), 2);
    let here = entry("b.rs", 5);
    let back = jump_back(&mut h, Some(&here));
    assert_eq!(back.map(|e| (e.path, e.line1)), Some(("a.rs".to_string(), 1)));
    assert!(h.is_empty());
    assert!(jump_back(&mut h, None).is_none());
}

#[test]
fn history_is_capped() {
    let mut h = Vec::new();
    for i in 0..201 {
        push_history(&mut h, entry("f.rs", i));
    }
    assert_eq!(h.len(), 200);
    assert_eq!(h[0].line1, 1);
    assert_eq!(h[199].line1, 200);
}

#[test]
fn jump_back_returns_the_left_place() {
    let mut h = vec![entry("x.rs", 3)];
    push_history(&mut h, entry("y.rs", 8));
    let landed = entry("z.rs", 2);
    let back = jump_back(&mut h, Some(&landed));
    assert_eq!(back.map(|e| (e.path, e.line1)), Some(("y.rs".to_string(), 8)));
    assert_eq!(h.len(), 1);
    assert_eq!(h[0].path, "x.rs");
}

#[test]
fn stale_publishes_are_detected() {
    assert!(is_stale_publish(Some(5), Some(4)));
    assert!(!is_stale_publish(Some(5), Some(5)));
    assert!(!is_stale_publish(None, Some(1)));
    assert!(!is_stale_publish(Some(5), None));
}

#[test]
fn code_actions_choose_their_step() {
    match code_action_step(Some("needs save"), false, false) {
        CodeActionStep::Unavailable(m) => assert_eq!(text(m), "LSP action unavailable: needs save"),
        _ => panic!("expected a warning"),
    }
    match code_action_step(Some(""), true, true) {
        CodeActionStep::Unavailable(m) => assert_eq!(text(m), "LSP action unavailable"),
        _ => panic!("expected a warning"),
    }
    assert!(matches!(code_action_step(None, true, true), CodeActionStep::Resolve));
    assert!(matches!(code_action_step(None, true, false), CodeActionStep::Apply));
    assert!(matches!(code_action_step(None, false, true), CodeActionStep::Apply));
}

#[test]
fn missing_server_message_names_config_files() {
    assert_eq!(
        text(missing_server_message("Rust", Some("/u"), Some("/p"), "/")),
        "No LSP server configured for Rust. Add a server in ~/lsp.json or /p/lsp.json."
    );
    assert_eq!(
        text(missing_server_message("Rust", Some("/u"), None, "/")),
        "No LSP server configured for Rust. Add a server in /u/lsp.json."
    );
    assert_eq!(
        text(missing_server_message("Go", None, Some("/p"), "/")),
        "No LSP server configured for Go. Add a server in lsp.json."
    );
}
