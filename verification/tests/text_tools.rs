use forge_core::columns::{basename, byte_to_utf8_char, utf8_char_to_byte};
use forge_core::glob::{glob_to_lua_pattern, path_glob_pattern};
use forge_core::markdown::{code_block_line_count, open_url_command};
use forge_core::quote::escape_for_quote;
use forge_core::reflow::{reflow_text, wordwrap_text};
use forge_core::uri::{path_to_uri, uri_encode, uri_to_path};

fn text(b: Vec<u8>) -> String {
    String::from_utf8(b).unwrap()
}

fn chars(c: Vec<char>) -> String {
    c.into_iter().collect()
}

#[test]
fn quote_escapes_specials() {
    assert_eq!(chars(escape_for_quote("a\"b\\c\n")), "\"a\\\"b\\\\c\\n\"");
    assert_eq!(chars(escape_for_quote("\t\r\u{8}")), "\"\\t\\r\\b\"");
    assert_eq!(chars(escape_for_quote("\u{1}\u{7f}")), "\"\\x01\\x7f\"");
    assert_eq!(chars(escape_for_quote("")), "\"\"");
}

#[test]
fn quote_writes_high_bytes_as_code_points() {
    assert_eq!(chars(escape_for_quote("\u{e9}")), "\"\u{c3}\u{a9}\"");
}

#[test]
fn wordwrap_breaks_before_long_lines() {
    assert_eq!(text(wordwrap_text("aaa bbb ccc", 7)), "aaa bbb\nccc");
    assert_eq!(text(wordwrap_text("  one\ttwo  ", 80)), "one two");
    assert_eq!(text(wordwrap_text("", 10)), "");
    assert_eq!(text(wordwrap_text("toolongword x", 3)), "toolongword\nx");
}

#[test]
fn wordwrap_splits_on_unicode_space() {
    assert_eq!(text(wordwrap_text("a\u{3000}b\u{a0}c", 80)), "a b c");
}

#[test]
fn reflow_keeps_comment_prefix() {
    assert_eq!(text(reflow_text("-- aaa bbb ccc", 10)), "-- aaa bbb\n-- ccc");
}

#[test]
fn reflow_keeps_paragraphs_and_trailing_space() {
    assert_eq!(text(reflow_text("# a b\n#\n# c d\n", 80)), "# a b\n#\n#c d\n");
    assert_eq!(text(reflow_text("one\ntwo  \n", 80)), "one two  \n");
}

#[test]
fn glob_becomes_anchored_expression() {
    assert_eq!(text(glob_to_lua_pattern("src/**/*.rs")), "^src/.*/[^/]*\\.rs$");
    assert_eq!(text(glob_to_lua_pattern("a?b(c)")), "^a.b\\(c\\)$");
    assert_eq!(text(path_glob_pattern("src\\*.c")), "^src/[^/]*\\.c$");
}

#[test]
fn code_block_counts_lines() {
    assert_eq!(code_block_line_count(""), 1);
    assert_eq!(code_block_line_count("a\nb"), 2);
    assert_eq!(code_block_line_count("a\n"), 2);
}

#[test]
fn open_url_quotes_for_the_shell() {
    assert_eq!(text(open_url_command("http://x/it's", true)), "open 'http://x/it'\\''s'");
    assert_eq!(text(open_url_command("http://x", false)), "xdg-open 'http://x'");
}

#[test]
fn uri_encoding_keeps_safe_bytes() {
    assert_eq!(text(uri_encode("/a b/\u{e9}-_.~:")), "/a%20b/%C3%A9-_.~:");
}

#[test]
fn path_to_uri_roots_and_encodes() {
    assert_eq!(text(path_to_uri("/tmp/a b")), "file:///tmp/a%20b");
    assert_eq!(text(path_to_uri("C:\\x")), "file:///C:/x");
}

#[test]
fn uri_to_path_decodes() {
    assert_eq!(uri_to_path("file:///tmp/a%20b").map(chars), Some("/tmp/a b".to_string()));
    assert_eq!(uri_to_path("http://x"), None);
    assert_eq!(uri_to_path("file:///a%zz"), None);
    assert_eq!(uri_to_path("file:///a%4").map(chars), Some("/a%4".to_string()));
}

#[test]
fn uri_round_trip_gives_path_back() {
    let uri = text(path_to_uri("/home/me/My Files/x#1.rs"));
    assert_eq!(uri_to_path(&uri).map(chars), Some("/home/me/My Files/x#1.rs".to_string()));
}

#[test]
fn columns_convert_between_bytes_and_chars() {
    assert_eq!(byte_to_utf8_char("h\u{e9}llo", 4), 2);
    assert_eq!(byte_to_utf8_char("h\u{e9}llo", 0), 0);
    assert_eq!(utf8_char_to_byte("h\u{e9}llo", 0), 1);
    assert_eq!(utf8_char_to_byte("h\u{e9}llo", 2), 4);
    assert_eq!(utf8_char_to_byte("h\u{e9}llo", 10), 7);
}

#[test]
fn column_round_trip() {
    let line = "a\u{e9}\u{4e2d}z";
    for k in 0..4 {
        let col = utf8_char_to_byte(line, k);
        assert_eq!(byte_to_utf8_char(line, col), k);
    }
}

#[test]
fn basename_takes_last_component() {
    assert_eq!(text(basename("a/b\\c.rs")), "c.rs");
    assert_eq!(text(basename("plain")), "plain");
    assert_eq!(text(basename("dir/")), "");
}

#[test]
fn ascii_paths_survive_the_uri_round_trip() {
    for p in ["/home/user/my file.rs", "/a/b%c/d#e?.txt", "/"] {
        let uri = format!("file://{}", text(uri_encode(p)));
        let back: String = uri_to_path(&uri).unwrap().into_iter().collect();
        assert_eq!(back, p);
    }
}
