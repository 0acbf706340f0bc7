use forge_core::project_search::{
    parse_replace_mode, parse_search_mode, replace_in_text, search_text, SearchMode, SearchOpts,
};
use forge_core::search::{
    compile_regex, fuzzy_match_line, lower_if, plain_find, preview_text, regex_find_start,
    replace_all_plain, replace_all_regex, ReplaceError, SliceError,
};
use forge_core::swap::{
    generate_placeholder, replace_bytes, replace_with_matcher, swap_content, ReplaceMode,
    ReplaceOpts,
};

fn text(b: Vec<u8>) -> String {
    String::from_utf8(b).unwrap()
}

#[test]
fn lower_if_lowercases_only_when_asked() {
    assert_eq!(lower_if("AbC", true), "abc");
    assert_eq!(lower_if("AbC", false), "AbC");
    assert_eq!(lower_if("ÉCOLE", true), "école");
}

#[test]
fn fuzzy_match_finds_last_query_char() {
    assert_eq!(fuzzy_match_line("hello world", "hwd", false), Some(11));
    assert_eq!(fuzzy_match_line("Hello", "h", true), Some(1));
    assert_eq!(fuzzy_match_line("Hello", "h", false), None);
    assert_eq!(fuzzy_match_line("abc", "", false), None);
    assert_eq!(fuzzy_match_line("abc", "cb", false), None);
}

#[test]
fn preview_short_line_is_whole() {
    assert!(matches!(preview_text("abc", 1), Ok(ref t) if t == b"abc"));
}

#[test]
fn preview_long_line_is_windowed() {
    let line: String = (0..400).map(|i| char::from(b'a' + (i % 26) as u8)).collect();
    let expected = format!("...{}...", &line[19..275]);
    match preview_text(&line, 100) {
        Ok(t) => assert_eq!(text(t), expected),
        Err(_) => panic!("preview failed"),
    }
}

#[test]
fn preview_refuses_cut_inside_character() {
    let line = "\u{e9}".repeat(200);
    assert!(matches!(preview_text(&line, 100), Err(SliceError::BadCut)));
}

#[test]
fn plain_find_reports_one_based_columns() {
    assert!(matches!(plain_find("Hello hello", "hello", false, 1), Ok(Some((7, 12)))));
    assert!(matches!(plain_find("Hello hello", "hello", true, 1), Ok(Some((1, 6)))));
    assert!(matches!(plain_find("Hello hello", "hello", true, 2), Ok(Some((7, 12)))));
    assert!(matches!(plain_find("Hello", "x", false, 1), Ok(None)));
}

#[test]
fn replace_all_plain_counts_replacements() {
    match replace_all_plain("a-b-c", "-", "+", false) {
        Ok((t, n)) => {
            assert_eq!(text(t), "a+b+c");
            assert_eq!(n, 2);
        },
        Err(_) => panic!("replace failed"),
    }
    match replace_all_plain("Aa", "a", "x", true) {
        Ok((t, n)) => {
            assert_eq!(text(t), "xx");
            assert_eq!(n, 2);
        },
        Err(_) => panic!("replace failed"),
    }
}

#[test]
fn replace_all_regex_replaces_matches() {
    match replace_all_regex("a1b22c", "[0-9]+", "#", false) {
        Ok((t, n)) => {
            assert_eq!(text(t), "a#b#c");
            assert_eq!(n, 2);
        },
        Err(_) => panic!("replace failed"),
    }
    match replace_all_regex("ABC", "b", "x", true) {
        Ok((t, n)) => {
            assert_eq!(text(t), "AxC");
            assert_eq!(n, 1);
        },
        Err(_) => panic!("replace failed"),
    }
}

#[test]
fn replace_all_regex_reports_bad_pattern() {
    assert!(matches!(replace_all_regex("a", "(", "", false), Err(ReplaceError::Regex(_))));
}

#[test]
fn replace_all_regex_refuses_empty_match_at_end() {
    assert!(matches!(replace_all_regex("ab", "x*", "#", false), Err(ReplaceError::BadCut)));
}

#[test]
fn regex_find_start_is_one_based() {
    let re = match compile_regex("o+") {
        Ok(re) => re,
        Err(_) => panic!("pattern refused"),
    };
    assert_eq!(regex_find_start(&re, "foo"), Some(2));
    assert_eq!(regex_find_start(&re, "bar"), None);
}

#[test]
fn placeholder_avoids_content() {
    assert_eq!(text(generate_placeholder("abc", 3)), "__LITE_ANVIL_SWAP_0000000000000003__");
    assert_eq!(
        text(generate_placeholder("x__LITE_ANVIL_SWAP_0000000000000000__", 0)),
        "__LITE_ANVIL_SWAP_0000000000000001__"
    );
}

#[test]
fn replace_bytes_replaces_every_occurrence() {
    assert_eq!(replace_bytes(b"aXbXc", b"X", b"--"), b"a--b--c".to_vec());
    assert_eq!(replace_bytes(b"aaa", b"aa", b"b"), b"ba".to_vec());
}

#[test]
fn matcher_dispatches_on_mode() {
    match replace_with_matcher("aaa", "a", false, false, "b") {
        Ok((t, n)) => {
            assert_eq!(text(t), "bbb");
            assert_eq!(n, 3);
        },
        Err(_) => panic!("replace failed"),
    }
    match replace_with_matcher("a1a2", "[0-9]", true, false, "") {
        Ok((t, n)) => {
            assert_eq!(text(t), "aa");
            assert_eq!(n, 2);
        },
        Err(_) => panic!("replace failed"),
    }
}

fn swap_opts(a: &str, b: Option<&str>) -> ReplaceOpts {
    ReplaceOpts {
        mode: ReplaceMode::Swap,
        query: a.to_string(),
        replace: b.unwrap_or("").to_string(),
        no_case: false,
        backup_originals: false,
        query_b: b.map(|s| s.to_string()),
        query_b_regex: false,
        query_b_case: true,
        query_a_regex: false,
    }
}

#[test]
fn swap_exchanges_two_texts() {
    match swap_content(&swap_opts("foo", Some("bar")), "foo bar foo") {
        Ok((t, n)) => {
            assert_eq!(text(t), "bar foo bar");
            assert_eq!(n, 3);
        },
        Err(_) => panic!("swap failed"),
    }
}

#[test]
fn swap_without_second_query_fails() {
    assert!(matches!(
        swap_content(&swap_opts("foo", None), "foo"),
        Err(ReplaceError::MissingSwapQuery)
    ));
}

#[test]
fn modes_parse_from_names() {
    assert!(matches!(parse_search_mode("regex"), SearchMode::Regex));
    assert!(matches!(parse_search_mode("fuzzy"), SearchMode::Fuzzy));
    assert!(matches!(parse_search_mode("plain"), SearchMode::Plain));
    assert!(matches!(parse_replace_mode("swap"), ReplaceMode::Swap));
    assert!(matches!(parse_replace_mode("regex"), ReplaceMode::Regex));
    assert!(matches!(parse_replace_mode("other"), ReplaceMode::Plain));
}

#[test]
fn search_text_lists_hits_per_line() {
    let opts = SearchOpts { query: "one".to_string(), mode: SearchMode::Plain, no_case: false };
    let hits = match search_text("one\ntwo one\nthree\n", &opts) {
        Ok(h) => h,
        Err(_) => panic!("search failed"),
    };
    assert_eq!(hits.len(), 2);
    assert_eq!((hits[0].line, hits[0].col), (1, 1));
    assert_eq!(hits[0].text, b"one".to_vec());
    assert_eq!((hits[1].line, hits[1].col), (2, 5));
    assert_eq!(hits[1].text, b"two one".to_vec());
}

#[test]
fn search_text_regex_and_fuzzy() {
    let opts = SearchOpts { query: "t.o".to_string(), mode: SearchMode::Regex, no_case: false };
    let hits = match search_text("one\ntwo\r\n", &opts) {
        Ok(h) => h,
        Err(_) => panic!("search failed"),
    };
    assert_eq!(hits.len(), 1);
    assert_eq!((hits[0].line, hits[0].col), (2, 1));
    let opts = SearchOpts { query: "OE".to_string(), mode: SearchMode::Fuzzy, no_case: true };
    let hits = match search_text("one\ntwo", &opts) {
        Ok(h) => h,
        Err(_) => panic!("search failed"),
    };
    assert_eq!(hits.len(), 1);
    assert_eq!((hits[0].line, hits[0].col), (1, 3));
}

#[test]
fn replace_in_text_leaves_untouched_files() {
    let opts = ReplaceOpts {
        mode: ReplaceMode::Plain,
        query: "a".to_string(),
        replace: "b".to_string(),
        no_case: false,
        backup_originals: false,
        query_b: None,
        query_b_regex: false,
        query_b_case: true,
        query_a_regex: false,
    };
    assert!(matches!(replace_in_text(&opts, "xyz"), Ok(None)));
    match replace_in_text(&opts, "aa") {
        Ok(Some((t, n))) => {
            assert_eq!(text(t), "bb");
            assert_eq!(n, 2);
        },
        _ => panic!("replace failed"),
    }
}

#[test]
fn replacing_text_by_itself_changes_nothing() {
    match replace_all_plain("abcabc\u{e9}bc", "bc", "bc", false) {
        Ok((t, n)) => {
            assert_eq!(text(t), "abcabc\u{e9}bc");
            assert_eq!(n, 3);
        },
        Err(_) => panic!("replace failed"),
    }
}

#[test]
fn replacing_absent_text_changes_nothing() {
    match replace_all_plain("xyz", "q", "r", false) {
        Ok((t, n)) => {
            assert_eq!(text(t), "xyz");
            assert_eq!(n, 0);
        },
        Err(_) => panic!("replace failed"),
    }
}

#[test]
fn swap_without_second_query_fails_for_any_first_query() {
    assert!(matches!(
        swap_content(&swap_opts("", None), "anything"),
        Err(ReplaceError::MissingSwapQuery)
    ));
}

#[test]
fn plain_replace_agrees_with_str_replace() {
    let cases = [
        ("aaa", "aa", "b"),
        ("foo bar foo", "foo", "baz"),
        ("xyz", "q", "r"),
        ("ééé", "é", "e"),
        ("abab", "ab", ""),
    ];
    for (content, query, rep) in cases {
        match replace_all_plain(content, query, rep, false) {
            Ok((out, n)) => {
                assert_eq!(text(out), content.replace(query, rep));
                assert_eq!(n, content.matches(query).count());
            },
            Err(_) => panic!("replace failed"),
        }
    }
}

#[test]
fn case_insensitive_ascii_count_is_bounded() {
    match replace_all_plain("AaAaA", "aA", "-", true) {
        Ok((out, n)) => {
            assert_eq!(text(out), "--A");
            assert_eq!(n, 2);
            assert!(n * 2 <= 5);
        },
        Err(_) => panic!("replace failed"),
    }
}

use forge_core::project_search::{display_rows, DisplayRow};

#[test]
fn results_are_grouped_under_file_headings() {
    let rows = display_rows(&["a.rs", "a.rs", "b.rs", "a.rs"], &[Some(1), None, Some(3), Some(4)]);
    assert_eq!(
        rows,
        vec![
            DisplayRow::File(0),
            DisplayRow::Match(1),
            DisplayRow::Match(3),
            DisplayRow::File(2),
            DisplayRow::Match(3),
            DisplayRow::File(3),
            DisplayRow::Match(4),
        ]
    );
    assert_eq!(display_rows(&["", ""], &[None, None]), vec![DisplayRow::Match(1), DisplayRow::Match(2)]);
}
