use chatroom_core::msg::Message;
use chatroom_core::wire::{encode_frame, FrameError, Response};

fn msg(sender: &str, content: &str) -> Message {
    Message::new(0, "r1".to_string(), sender.to_string(), content.to_string())
}

#[test]
fn encode_produces_the_json_frame() {
    let frame = encode_frame(&msg("alice", "hi"));
    assert_eq!(frame, "{\"sender\":\"alice\",\"content\":\"hi\"}");
}

#[test]
fn encode_escapes_quotes_backslashes_and_named_controls() {
    let frame = encode_frame(&msg("al\"ice", "a\\b\nc\rd\te"));
    assert_eq!(
        frame,
        "{\"sender\":\"al\\\"ice\",\"content\":\"a\\\\b\\nc\\rd\\te\"}"
    );
    let frame = encode_frame(&msg("x", "\u{8}\u{c}"));
    assert_eq!(frame, "{\"sender\":\"x\",\"content\":\"\\b\\f\"}");
}

#[test]
fn encode_escapes_the_remaining_controls_as_hex() {
    let frame = encode_frame(&msg("x", "\u{1}\u{1f}"));
    assert_eq!(frame, "{\"sender\":\"x\",\"content\":\"\\u0001\\u001f\"}");
}

#[test]
fn encode_keeps_empty_values() {
    let frame = encode_frame(&msg("", ""));
    assert_eq!(frame, "{\"sender\":\"\",\"content\":\"\"}");
}

#[test]
fn decode_reads_a_plain_frame() {
    let resp = Response::new("{\"sender\":\"bob\",\"content\":\"yo\"}").unwrap();
    assert_eq!(resp.sender.as_deref(), Some("bob"));
    assert_eq!(resp.content.as_deref(), Some("yo"));
}

#[test]
fn decode_tolerates_member_order_and_whitespace() {
    let resp = Response::new(" {\n\t\"content\" : \"yo\" ,\r\n \"sender\" : \"bob\" } ").unwrap();
    assert_eq!(resp.sender.as_deref(), Some("bob"));
    assert_eq!(resp.content.as_deref(), Some("yo"));
}

#[test]
fn decode_treats_absent_members_as_none() {
    let resp = Response::new("{}").unwrap();
    assert!(resp.sender.is_none());
    assert!(resp.content.is_none());
    let resp = Response::new("{\"sender\":\"a\"}").unwrap();
    assert_eq!(resp.sender.as_deref(), Some("a"));
    assert!(resp.content.is_none());
    let resp = Response::new("{\"content\":\"b\"}").unwrap();
    assert!(resp.sender.is_none());
    assert_eq!(resp.content.as_deref(), Some("b"));
}

#[test]
fn decode_tolerates_extra_members_of_any_kind() {
    let resp = Response::new(
        "{\"id\":17,\"room_id\":\"r1\",\"sender\":\"a\",\"tags\":[1,true,null,\"x\"],\
         \"meta\":{\"depth\":-1.5e3},\"content\":\"b\"}",
    )
    .unwrap();
    assert_eq!(resp.sender.as_deref(), Some("a"));
    assert_eq!(resp.content.as_deref(), Some("b"));
}

#[test]
fn decode_unescapes_the_standard_escapes() {
    let resp = Response::new(
        "{\"sender\":\"a\\\"b\\/c\",\"content\":\"c\\\\d\\ne\\rf\\tg\\bh\\fi\"}",
    )
    .unwrap();
    assert_eq!(resp.sender.as_deref(), Some("a\"b/c"));
    assert_eq!(resp.content.as_deref(), Some("c\\d\ne\rf\tg\u{8}h\u{c}i"));
}

#[test]
fn decode_unescapes_hex_and_surrogate_pairs() {
    let resp = Response::new("{\"sender\":\"\\u0041\\u00e9\",\"content\":\"\\uD83D\\uDE00\"}")
        .unwrap();
    assert_eq!(resp.sender.as_deref(), Some("A\u{e9}"));
    assert_eq!(resp.content.as_deref(), Some("\u{1F600}"));
}

#[test]
fn round_trip_is_identity() {
    let cases = vec![
        ("alice", "hi"),
        ("", ""),
        ("a\"b\\c", "line\nbreak\tand\rmore"),
        ("controls \u{1}\u{8}\u{c}\u{1f}", "quotes \" inside \\ everywhere"),
        ("unicode \u{00e9}\u{4e16}", "astral \u{1F600}"),
    ];
    for (sender, content) in cases {
        let frame = encode_frame(&msg(sender, content));
        let resp = Response::new(&frame).unwrap();
        assert_eq!(resp.sender.as_deref(), Some(sender));
        assert_eq!(resp.content.as_deref(), Some(content));
    }
}

#[test]
fn decode_rejects_what_is_not_one_json_object() {
    let bad = vec![
        "",
        "garbage",
        "\"just a string\"",
        "[{\"sender\":\"a\"}]",
        "{\"sender\":\"a\",\"content\":\"b\"",
        "{\"sender\":\"a\",\"content\":\"b\"}}",
        "{\"sender\":\"a\",\"content\":\"b\"} {}",
        "{\"sender\":\"a\" \"content\":\"b\"}",
        "{\"sender\":\"a\",}",
        "{\"sender\" \"a\"}",
        "{sender:\"a\"}",
    ];
    for frame in bad {
        assert_eq!(Response::new(frame).unwrap_err(), FrameError::Malformed, "{frame}");
    }
}

#[test]
fn decode_rejects_ill_formed_members_and_strings() {
    let bad = vec![
        // duplicate known members
        "{\"sender\":\"a\",\"sender\":\"b\"}",
        "{\"content\":\"a\",\"content\":\"b\"}",
        // non-string values for the known members
        "{\"sender\":5}",
        "{\"content\":null}",
        "{\"sender\":[\"a\"]}",
        // bad escapes, raw controls, lone surrogates
        "{\"sender\":\"a\\x\"}",
        "{\"sender\":\"a\nb\"}",
        "{\"sender\":\"\\uD800\"}",
        "{\"sender\":\"\\uDC00\"}",
        "{\"sender\":\"\\uD800\\u0041\"}",
        "{\"sender\":\"\\u12\"}",
        // malformed numbers in extra members
        "{\"id\":01}",
        "{\"id\":1.}",
        "{\"id\":1e}",
        "{\"id\":-}",
    ];
    for frame in bad {
        assert_eq!(Response::new(frame).unwrap_err(), FrameError::Malformed, "{frame}");
    }
}
