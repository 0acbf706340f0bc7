use forge_core::lsp_session::{
    reader_step, stderr_log_line, ClientSession, Delivery, MessageId, ReaderStep, Route,
    READER_IDLE_DELAY_MS,
};

fn fresh() -> ClientSession<&'static str, &'static str> {
    ClientSession::new()
}

#[test]
fn request_ids_count_up_from_one() {
    let mut s = fresh();
    assert_eq!(s.start_request(None), 1);
    assert_eq!(s.start_request(Some("cb")), 2);
    assert_eq!(s.start_request(None), 3);
    assert_eq!(s.next_request_id, 3);
    assert_eq!(s.pending.len(), 1);
}

#[test]
fn response_hands_back_its_callback_once() {
    let mut s = fresh();
    let a = s.start_request(Some("first"));
    let b = s.start_request(Some("second"));
    match s.route_message(MessageId::Number(b), false, true) {
        Route::Response(Some(cb)) => assert_eq!(cb, "second"),
        _ => panic!("expected the second callback"),
    }
    match s.route_message(MessageId::Number(b), false, true) {
        Route::Response(None) => {}
        _ => panic!("a request resolves once"),
    }
    match s.route_message(MessageId::Number(a), false, true) {
        Route::Response(Some(cb)) => assert_eq!(cb, "first"),
        _ => panic!("expected the first callback"),
    }
    assert!(s.pending.is_empty());
}

#[test]
fn request_without_callback_waits_for_nothing() {
    let mut s = fresh();
    let id = s.start_request(None);
    assert!(matches!(
        s.route_message(MessageId::Number(id), false, true),
        Route::Response(None)
    ));
    assert!(matches!(
        s.route_message(MessageId::Other, false, true),
        Route::Response(None)
    ));
}

#[test]
fn notifications_need_a_method_and_a_handler() {
    let mut s = fresh();
    assert!(matches!(
        s.route_message(MessageId::Absent, true, true),
        Route::Notification
    ));
    assert!(matches!(
        s.route_message(MessageId::Absent, false, true),
        Route::Ignored
    ));
    assert!(matches!(
        s.route_message(MessageId::Absent, true, false),
        Route::Ignored
    ));
}

#[test]
fn messages_wait_for_initialization_in_order() {
    let mut s = fresh();
    assert!(matches!(s.queue_or_send("open", false), Delivery::Queued));
    assert!(matches!(s.queue_or_send("change", false), Delivery::Queued));
    assert!(matches!(
        s.queue_or_send("initialize", true),
        Delivery::Send("initialize")
    ));
    let held = s.mark_initialized();
    assert_eq!(held, vec!["open", "change"]);
    assert!(s.pre_init_queue.is_empty());
    assert!(s.is_initialized);
    assert!(matches!(s.queue_or_send("save", false), Delivery::Send("save")));
}

#[test]
fn shutdown_is_requested_once() {
    let mut s = fresh();
    assert!(!s.begin_shutdown(false));
    assert!(!s.is_shutting_down);
    assert!(s.begin_shutdown(true));
    assert!(s.is_shutting_down);
    assert!(!s.begin_shutdown(true));
}

#[test]
fn reader_stops_only_when_the_server_is_gone() {
    assert_eq!(reader_step(false, true, 3, 0), ReaderStep::Stop);
    assert_eq!(reader_step(true, false, 0, 0), ReaderStep::Stop);
    assert_eq!(reader_step(true, false, 2, 0), ReaderStep::Wait(0));
    assert_eq!(reader_step(true, true, 0, 1), ReaderStep::Wait(0));
    assert_eq!(reader_step(true, true, 0, 0), ReaderStep::Wait(50));
    assert_eq!(READER_IDLE_DELAY_MS, 50);
}

#[test]
fn stderr_lines_are_trimmed_and_named() {
    let line = stderr_log_line("rust-analyzer", "error: oops \n").unwrap();
    assert_eq!(String::from_utf8(line).unwrap(), "LSP rust-analyzer stderr: error: oops");
    assert_eq!(
        stderr_log_line("ra", "  2024 WARN notify error: No path was found  "),
        None
    );
    let kept = stderr_log_line("ra", "WARN notify error: other").unwrap();
    assert_eq!(String::from_utf8(kept).unwrap(), "LSP ra stderr: WARN notify error: other");
}

use forge_core::navigation::{
    completion_wanted, next_diagnostic_index, previous_diagnostic_index, signature_help_wanted,
};

#[test]
fn next_diagnostic_is_the_first_after_the_cursor() {
    let starts = [Some((1, 4)), None, Some((3, 0)), Some((3, 7))];
    assert_eq!(next_diagnostic_index(&starts, 1, 2), 0);
    assert_eq!(next_diagnostic_index(&starts, 1, 4), 2);
    assert_eq!(next_diagnostic_index(&starts, 3, 0), 3);
    assert_eq!(next_diagnostic_index(&starts, 3, 7), 0);
}

#[test]
fn previous_diagnostic_is_the_last_before_the_cursor() {
    let starts = [Some((1, 4)), None, Some((3, 0)), Some((3, 7))];
    assert_eq!(previous_diagnostic_index(&starts, 5, 0), 3);
    assert_eq!(previous_diagnostic_index(&starts, 3, 7), 2);
    assert_eq!(previous_diagnostic_index(&starts, 3, 0), 0);
    assert_eq!(previous_diagnostic_index(&starts, 1, 4), 3);
}

#[test]
fn signature_help_follows_open_paren_and_comma() {
    assert!(signature_help_wanted("(", &[]));
    assert!(signature_help_wanted(",", &["(", ","]));
    assert!(!signature_help_wanted(",", &["("]));
    assert!(!signature_help_wanted("a", &[]));
}

#[test]
fn completion_needs_a_listed_trigger() {
    assert!(!completion_wanted(".", false, &[]));
    assert!(completion_wanted(".", false, &[".", "::"]));
    assert!(completion_wanted(":", true, &["::"]));
    assert!(!completion_wanted(":", false, &["::"]));
    assert!(!completion_wanted(":", true, &[":"]));
}
