use forge_core::glob::ignore_pattern_flags;
use forge_core::process::{env_block, parse_env_string, quote_windows_arg, windows_command_line};
use forge_core::stream_read::{
    finish_read, initial_target, parse_read_option, retarget, ReadMode, READ_ALL,
};

fn text(b: Vec<u8>) -> String {
    String::from_utf8(b).unwrap()
}

#[test]
fn env_block_joins_entries() {
    assert_eq!(env_block(&[b"A=1".to_vec(), b"B=2".to_vec()]), b"A=1\0B=2\0\0".to_vec());
    assert_eq!(env_block(&[]), b"\0\0".to_vec());
}

#[test]
fn env_block_reads_back() {
    let entries = vec![b"PATH=/bin:/usr/bin".to_vec(), b"X=a=b".to_vec(), b"EMPTY=".to_vec()];
    let block = String::from_utf8(env_block(&entries)).unwrap();
    assert_eq!(
        parse_env_string(&block),
        vec![
            (b"PATH".to_vec(), b"/bin:/usr/bin".to_vec()),
            (b"X".to_vec(), b"a=b".to_vec()),
            (b"EMPTY".to_vec(), b"".to_vec()),
        ]
    );
}

#[test]
fn windows_arguments_are_quoted() {
    assert_eq!(text(quote_windows_arg("plain")), "plain");
    assert_eq!(text(quote_windows_arg("two words")), "\"two words\"");
    assert_eq!(text(quote_windows_arg("")), "\"\"");
    assert_eq!(text(quote_windows_arg("say \"hi\"")), "\"say \\\"hi\\\"\"");
    assert_eq!(text(quote_windows_arg("a\\\"b")), "a\\\\\\\"b");
    assert_eq!(text(quote_windows_arg("dir\\")), "dir\\");
}

#[test]
fn windows_command_line_joins_arguments() {
    let args = vec!["cmd".to_string(), "/c".to_string(), "echo hi".to_string()];
    assert_eq!(text(windows_command_line(&args)), "cmd /c \"echo hi\"");
    assert_eq!(text(windows_command_line(&[])), "");
}

#[test]
fn read_options_parse() {
    assert_eq!(parse_read_option("line"), Some(ReadMode::Line));
    assert_eq!(parse_read_option("*l"), Some(ReadMode::Line));
    assert_eq!(parse_read_option("L"), Some(ReadMode::LineKeep));
    assert_eq!(parse_read_option("*a"), Some(ReadMode::All));
    assert_eq!(parse_read_option("all"), Some(ReadMode::All));
    assert_eq!(parse_read_option("**a"), None);
    assert_eq!(parse_read_option("n"), None);
}

#[test]
fn read_targets_follow_mode() {
    assert_eq!(initial_target(ReadMode::Line, b"ab\ncd"), 3);
    assert_eq!(initial_target(ReadMode::LineKeep, b"abcd"), READ_ALL);
    assert_eq!(initial_target(ReadMode::All, b"a\n"), READ_ALL);
    assert_eq!(initial_target(ReadMode::Bytes(7), b"a\n"), 7);
    assert_eq!(retarget(ReadMode::Line, READ_ALL, 4, b"xy\nz"), 7);
    assert_eq!(retarget(ReadMode::Line, READ_ALL, 4, b"xyz"), READ_ALL);
    assert_eq!(retarget(ReadMode::Bytes(9), 9, 4, b"\n"), 9);
}

#[test]
fn finished_reads_split_the_buffer() {
    assert_eq!(finish_read(ReadMode::Line, b"ab\ncd", 3), (b"ab".to_vec(), b"cd".to_vec()));
    assert_eq!(finish_read(ReadMode::LineKeep, b"ab\ncd", 3), (b"ab\n".to_vec(), b"cd".to_vec()));
    assert_eq!(finish_read(ReadMode::All, b"abc", READ_ALL), (b"abc".to_vec(), b"".to_vec()));
    assert_eq!(finish_read(ReadMode::Bytes(2), b"abc", 2), (b"ab".to_vec(), b"c".to_vec()));
    assert_eq!(finish_read(ReadMode::Line, b"abc", READ_ALL), (b"abc".to_vec(), b"".to_vec()));
}

#[test]
fn ignore_patterns_get_their_flags() {
    assert_eq!(ignore_pattern_flags("^%.git/$"), (false, true));
    assert_eq!(ignore_pattern_flags("build/"), (false, true));
    assert_eq!(ignore_pattern_flags("^src/gen/"), (true, true));
    assert_eq!(ignore_pattern_flags("%.o$"), (false, false));
    assert_eq!(ignore_pattern_flags("a/b$$"), (true, false));
}
