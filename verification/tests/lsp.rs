use forge_core::lsp_framing::{
    decode_messages, encode_message, frame_header, parse_messages, DecodeError,
};
use forge_core::lsp_values::{completion_kind_style, is_array_like, TableKey};
use serde_json::Value;

#[test]
fn encode_message_frames_payload() {
    assert_eq!(encode_message("{\"a\":1}"), b"Content-Length: 7\r\n\r\n{\"a\":1}".to_vec());
}

#[test]
fn frame_header_renders_length() {
    assert_eq!(frame_header(123), b"Content-Length: 123\r\n\r\n".to_vec());
    assert_eq!(frame_header(0), b"Content-Length: 0\r\n\r\n".to_vec());
}

#[test]
fn decode_returns_messages_and_rest() {
    let (msgs, rest) =
        match decode_messages("Content-Length: 2\r\n\r\n{}Content-Length: 1\r\n\r\n7tail") {
            Ok(v) => v,
            Err(_) => panic!("decoding failed"),
        };
    assert_eq!(msgs.len(), 2);
    assert_eq!(msgs[0], Value::Object(serde_json::Map::new()));
    assert_eq!(msgs[1], Value::from(7));
    assert_eq!(rest, b"tail".to_vec());
}

#[test]
fn decode_header_is_case_insensitive() {
    let (msgs, rest) = match decode_messages("content-length:  2 \r\nX-Other: 1\r\n\r\n[]") {
        Ok(v) => v,
        Err(_) => panic!("decoding failed"),
    };
    assert_eq!(msgs, vec![Value::Array(vec![])]);
    assert!(rest.is_empty());
}

#[test]
fn decode_waits_for_incomplete_body() {
    let input = "Content-Length: 10\r\n\r\n{}";
    let (msgs, rest) = match decode_messages(input) {
        Ok(v) => v,
        Err(_) => panic!("decoding failed"),
    };
    assert!(msgs.is_empty());
    assert_eq!(rest, input.as_bytes().to_vec());
}

#[test]
fn decode_missing_length_errors() {
    assert!(matches!(decode_messages("X: 1\r\n\r\n{}"), Err(DecodeError::MissingContentLength)));
}

#[test]
fn decode_bad_json_errors() {
    assert!(matches!(decode_messages("Content-Length: 3\r\n\r\nabc"), Err(DecodeError::Json(_))));
}

#[test]
fn decode_split_character_errors() {
    assert!(matches!(
        decode_messages("Content-Length: 1\r\n\r\n\u{e9}"),
        Err(DecodeError::SplitsCharacter)
    ));
}

#[test]
fn framed_message_decodes_back() {
    let payload = "{\"jsonrpc\":\"2.0\",\"id\":1,\"result\":null}";
    let framed = String::from_utf8(encode_message(payload)).unwrap();
    let (msgs, rest) = match decode_messages(&framed) {
        Ok(v) => v,
        Err(_) => panic!("decoding failed"),
    };
    assert_eq!(msgs.len(), 1);
    assert_eq!(msgs[0], serde_json::from_str::<Value>(payload).unwrap());
    assert!(rest.is_empty());
}

#[test]
fn transport_skips_malformed_bodies() {
    let mut buf = b"Content-Length: 3\r\n\r\nabcContent-Length: 2\r\n\r\n{}Content-Le".to_vec();
    let out = parse_messages(&mut buf);
    assert_eq!(out, vec![Value::Object(serde_json::Map::new())]);
    assert_eq!(buf, b"Content-Le".to_vec());
}

#[test]
fn transport_drops_headers_without_length() {
    let mut buf = b"X: 1\r\n\r\n{}".to_vec();
    let out = parse_messages(&mut buf);
    assert!(out.is_empty());
    assert!(buf.is_empty());
}

#[test]
fn array_detection_follows_keys() {
    assert!(is_array_like(&[]));
    assert!(is_array_like(&[TableKey::Int(1), TableKey::Int(2)]));
    assert!(is_array_like(&[TableKey::Int(2), TableKey::Int(1), TableKey::Int(3)]));
    assert!(!is_array_like(&[TableKey::Int(1), TableKey::Int(3)]));
    assert!(!is_array_like(&[TableKey::Int(0)]));
    assert!(!is_array_like(&[TableKey::Int(1), TableKey::Other]));
}

#[test]
fn completion_kinds_map_to_styles() {
    assert_eq!(completion_kind_style(1), Some("keyword2"));
    assert_eq!(completion_kind_style(3), Some("function"));
    assert_eq!(completion_kind_style(11), Some("literal"));
    assert_eq!(completion_kind_style(15), Some("string"));
    assert_eq!(completion_kind_style(17), Some("file"));
    assert_eq!(completion_kind_style(23), Some("operator"));
    assert_eq!(completion_kind_style(25), Some("keyword"));
    assert_eq!(completion_kind_style(0), None);
    assert_eq!(completion_kind_style(26), None);
}

#[test]
fn decode_keeps_message_order_and_values() {
    let a = "{\"id\":1}";
    let b = "[true,2]";
    let input = format!(
        "Content-Length: {}\r\n\r\n{}Content-Length: {}\r\n\r\n{}Content-Length: 9\r\n\r\n{{",
        a.len(),
        a,
        b.len(),
        b
    );
    let (msgs, rest) = match decode_messages(&input) {
        Ok(x) => x,
        Err(_) => panic!("decoding failed"),
    };
    assert_eq!(msgs, vec![serde_json::from_str::<Value>(a).unwrap(), serde_json::from_str::<Value>(b).unwrap()]);
    assert_eq!(rest, b"Content-Length: 9\r\n\r\n{".to_vec());
}

#[test]
fn transport_delivers_values_in_order() {
    let mut buf = b"Content-Length: 1\r\n\r\n{Content-Length: 2\r\n\r\n{}Content-Length: 3\r\n\r\n[1]".to_vec();
    let out = parse_messages(&mut buf);
    assert_eq!(out, vec![serde_json::from_str::<Value>("{}").unwrap(), serde_json::from_str::<Value>("[1]").unwrap()]);
    assert!(buf.is_empty());
}
