use forge_core::diagnostics::token_before;
use forge_core::hover::{content_to_text, flatten_document_symbols, DocSymbol, HoverContent};
use forge_core::macro_recorder::{is_recorded_event, MacroMode, MacroRecorder};
use forge_core::project_model::normalize_path;
use forge_core::reflow::{reflow_text, wordwrap_text};

fn text(b: Vec<u8>) -> String {
    String::from_utf8(b).unwrap()
}

#[test]
fn hover_text_joins_lists_and_unwraps_markup() {
    let c = HoverContent::List(vec![
        HoverContent::Text(b"fn main()".to_vec()),
        HoverContent::Markup(Box::new(HoverContent::Text(b"**doc**".to_vec()))),
        HoverContent::Empty,
    ]);
    assert_eq!(text(content_to_text(&c)), "fn main()\n**doc**\n");
    assert_eq!(text(content_to_text(&HoverContent::Empty)), "");
    assert_eq!(text(content_to_text(&HoverContent::List(vec![]))), "");
}

fn sym(id: usize, name: Option<&str>, uri: Option<&str>, has_range: bool, children: Vec<DocSymbol>) -> DocSymbol {
    DocSymbol {
        id,
        name: name.map(|n| n.as_bytes().to_vec()),
        uri: uri.map(|u| u.as_bytes().to_vec()),
        has_range,
        children,
    }
}

#[test]
fn symbols_flatten_depth_first_with_paths() {
    let tree = vec![
        sym(1, Some("Outer"), None, true, vec![
            sym(2, Some("inner"), None, true, vec![]),
            sym(3, None, Some("file:///b.rs"), false, vec![sym(4, Some("deep"), None, true, vec![])]),
        ]),
        sym(5, Some("free"), None, true, vec![]),
    ];
    let flat = flatten_document_symbols(&tree, b"file:///a.rs");
    let got: Vec<(usize, String, String)> =
        flat.into_iter().map(|f| (f.id, text(f.text), text(f.uri))).collect();
    assert_eq!(
        got,
        vec![
            (1, "Outer".to_string(), "file:///a.rs".to_string()),
            (2, "Outer / inner".to_string(), "file:///a.rs".to_string()),
            (4, "Outer / ? / deep".to_string(), "file:///b.rs".to_string()),
            (5, "free".to_string(), "file:///a.rs".to_string()),
        ]
    );
}

#[test]
fn macro_records_only_key_and_text_events() {
    assert!(is_recorded_event("keypressed"));
    assert!(is_recorded_event("textinput"));
    assert!(!is_recorded_event("mousemoved"));
    let mut rec: MacroRecorder<u32> = MacroRecorder::new();
    rec.on_event("keypressed", 1);
    assert!(rec.events.is_empty());
    rec.toggle_record();
    assert_eq!(rec.mode, MacroMode::Recording);
    rec.on_event("keypressed", 2);
    rec.on_event("mousemoved", 3);
    rec.on_event("textinput", 4);
    rec.toggle_record();
    assert_eq!(rec.mode, MacroMode::Stopped);
    assert_eq!(rec.events, vec![2, 4]);
    rec.start_play();
    assert!(!rec.commands_allowed());
    rec.on_event("keypressed", 9);
    rec.finish_play();
    assert!(rec.commands_allowed());
    assert_eq!(rec.events, vec![2, 4]);
    rec.toggle_record();
    assert!(rec.events.is_empty());
}

#[test]
fn tokens_merge_by_position_then_length() {
    assert!(token_before(1, 9, 2, 1));
    assert!(token_before(2, 1, 2, 3));
    assert!(!token_before(2, 3, 2, 3));
    assert!(!token_before(3, 0, 2, 5));
}

#[test]
fn wrapped_lines_stay_within_limit() {
    let input = "the quick brown fox jumps over the lazy dog again and again";
    let out = text(wordwrap_text(input, 12));
    for line in out.split('\n') {
        assert!(line.len() <= 12 || !line.contains(' '));
    }
    let words: Vec<&str> = out.split_whitespace().collect();
    assert_eq!(words, input.split_whitespace().collect::<Vec<_>>());
}

#[test]
fn reflow_keeps_prefix_and_trailing_space() {
    let out = text(reflow_text("// one two three four five six\n  ", 16));
    assert!(out.starts_with("// "));
    assert!(out.ends_with("\n  "));
}

#[test]
fn normalizing_twice_changes_nothing() {
    let once = text(normalize_path("a\\b/c\\\\d"));
    assert_eq!(once, "a/b/c//d");
    assert_eq!(text(normalize_path(&once)), once);
}

use forge_core::hover::{signature_display, SIGNATURE_DISPLAY_MAX};

#[test]
fn signature_marks_the_active_parameter() {
    let shown = signature_display("fn f(a: i32, b: u8)", Some("b: u8")).unwrap();
    assert_eq!(String::from_utf8(shown).unwrap(), "fn f(a: i32, [b: u8])");
    let first_only = signature_display("g(x, x)", Some("x")).unwrap();
    assert_eq!(String::from_utf8(first_only).unwrap(), "g([x], x)");
    let plain = signature_display("h()", Some("missing")).unwrap();
    assert_eq!(String::from_utf8(plain).unwrap(), "h()");
    let none = signature_display("h(y)", None).unwrap();
    assert_eq!(String::from_utf8(none).unwrap(), "h(y)");
}

#[test]
fn signature_is_cut_to_the_display_limit() {
    let long = "a".repeat(300);
    let shown = signature_display(&long, None).unwrap();
    assert_eq!(shown.len(), SIGNATURE_DISPLAY_MAX);
    let split = format!("{}é rest", "a".repeat(239));
    assert_eq!(signature_display(&split, None), None);
    let fits = format!("{}é", "a".repeat(238));
    assert_eq!(signature_display(&fits, None).unwrap().len(), 240);
}

use forge_core::minimap_window::{minimap_click_line, minimap_window};

#[test]
fn minimap_window_centres_on_the_visible_lines() {
    assert_eq!(minimap_window(50, 100, 1, 40), (1, 51));
    assert_eq!(minimap_window(1000, 100, 400, 440), (370, 470));
    assert_eq!(minimap_window(1000, 100, 1, 30), (1, 101));
    assert_eq!(minimap_window(1000, 100, 960, 1000), (901, 1001));
    assert_eq!(minimap_window(0, 10, 0, 0), (1, 1));
}

#[test]
fn minimap_click_stays_in_the_document() {
    assert_eq!(minimap_click_line(100, 1, 10), 11);
    assert_eq!(minimap_click_line(100, 90, 40), 100);
    assert_eq!(minimap_click_line(5, 0, 0), 1);
}
