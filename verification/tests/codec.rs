use chat_relay::codec::{decode_chat, decode_envelope, encode_chat, encode_envelope, u64_to_dec};
use chat_relay::envelope::{ChatMessage, Envelope, MsgKind};

fn b(s: &str) -> Vec<u8> {
    s.as_bytes().to_vec()
}

#[test]
fn encode_users_envelope_exact_bytes() {
    let env = Envelope {
        kind: MsgKind::Users,
        data: None,
        data_array: Some(vec![b("alice")]),
    };
    let frame = encode_envelope(&env);
    assert_eq!(frame, b(r#"{"messageType":"users","dataArray":["alice"]}"#));
}

#[test]
fn encode_register_envelope_exact_bytes() {
    let env = Envelope { kind: MsgKind::Register, data: Some(b("bob")), data_array: None };
    let frame = encode_envelope(&env);
    assert_eq!(frame, b(r#"{"messageType":"register","data":"bob"}"#));
}

#[test]
fn encode_empty_roster() {
    let env = Envelope { kind: MsgKind::Users, data: None, data_array: Some(vec![]) };
    assert_eq!(encode_envelope(&env), b(r#"{"messageType":"users","dataArray":[]}"#));
}

#[test]
fn encode_escapes_quote_backslash_and_control() {
    let env = Envelope {
        kind: MsgKind::Register,
        data: Some(b("a\"b\\c\nd")),
        data_array: None,
    };
    let frame = encode_envelope(&env);
    assert_eq!(
        frame,
        b(r#"{"messageType":"register","data":"a\"b\\c\u000ad"}"#)
    );
}

#[test]
fn decode_inverts_encode_for_envelopes() {
    let env = Envelope {
        kind: MsgKind::Users,
        data: Some(b("x")),
        data_array: Some(vec![b("a\"b"), b(""), b("c,d")]),
    };
    let frame = encode_envelope(&env);
    let back = decode_envelope(&frame).expect("canonical encoding must decode");
    assert!(back.kind == MsgKind::Users);
    assert_eq!(back.data, Some(b("x")));
    assert_eq!(back.data_array, Some(vec![b("a\"b"), b(""), b("c,d")]));
}

#[test]
fn decode_accepts_letter_escapes() {
    let frame = b(r#"{"messageType":"register","data":"a\tb\r\n\/\b\f"}"#);
    let env = decode_envelope(&frame).expect("letter escapes are part of the grammar");
    assert_eq!(env.data, Some(b("a\tb\r\n/\u{8}\u{c}")));
}

#[test]
fn decode_accepts_ascii_unicode_escape() {
    let frame = b(r#"{"messageType":"register","data":"\u0041\u002f"}"#);
    let env = decode_envelope(&frame).expect("ascii \\u escapes are part of the grammar");
    assert_eq!(env.data, Some(b("A/")));
}

#[test]
fn decode_rejects_plaintext() {
    assert!(decode_envelope(&b("hello")).is_none());
    assert!(decode_envelope(&b("")).is_none());
    assert!(decode_envelope(&b("{\"messageType\":\"nope\"}")).is_none());
    assert!(decode_envelope(&b("{\"messageType\":\"users\"")).is_none());
    assert!(decode_envelope(&b("{\"messageType\":\"users\"} x")).is_none());
    assert!(decode_envelope(&b("{}")).is_none());
    assert!(decode_envelope(&b("{\"data\":\"x\"}")).is_none());
}

#[test]
fn decode_accepts_insignificant_whitespace() {
    let frame = b("\t{ \"messageType\" : \"register\" ,\n \"data\" : \"bob\" }\r\n");
    let env = decode_envelope(&frame).expect("whitespace between tokens is insignificant");
    assert!(env.kind == MsgKind::Register);
    assert_eq!(env.data, Some(b("bob")));

    let frame = b("{ \"messageType\":\"users\", \"dataArray\": [ \"a\" , \"b\" ] }");
    let env = decode_envelope(&frame).expect("whitespace inside arrays is insignificant");
    assert_eq!(env.data_array, Some(vec![b("a"), b("b")]));
}

#[test]
fn decode_accepts_members_in_any_order() {
    let frame = b(r#"{"data":"bob","messageType":"register"}"#);
    let env = decode_envelope(&frame).expect("member order is free");
    assert!(env.kind == MsgKind::Register);
    assert_eq!(env.data, Some(b("bob")));

    let frame = b(r#"{"dataArray":["x"],"messageType":"users"}"#);
    let env = decode_envelope(&frame).expect("member order is free");
    assert!(env.kind == MsgKind::Users);
    assert_eq!(env.data_array, Some(vec![b("x")]));
}

#[test]
fn decode_rejects_duplicate_and_dangling_members() {
    assert!(decode_envelope(&b(r#"{"messageType":"users","messageType":"users"}"#)).is_none());
    assert!(decode_envelope(&b(r#"{"messageType":"users","data":"x","data":"y"}"#)).is_none());
    assert!(decode_envelope(&b(r#"{"messageType":"users",}"#)).is_none());
}

#[test]
fn chat_decode_accepts_reordered_members_with_whitespace() {
    let data = b("{ \"time\" : 5 , \"from\" : \"a\" , \"message\" : \"m\" }");
    let chat = decode_chat(&data).expect("chat members reorder freely");
    assert_eq!(chat.from, b("a"));
    assert_eq!(chat.message, b("m"));
    assert_eq!(chat.time, 5);
    // A chat value missing a member is not a chat message.
    assert!(decode_chat(&b(r#"{"from":"a","message":"m"}"#)).is_none());
}

#[test]
fn decode_rejects_non_ascii_unicode_escape() {
    // Code points above 0x7f in \u form are outside the grammar: the frame
    // falls back to plaintext handling at the session layer.
    assert!(decode_envelope(&b(r#"{"messageType":"register","data":"\u00e9"}"#)).is_none());
    // Raw (unescaped) non-ASCII bytes pass through untouched.
    let raw = b(r#"{"messageType":"register","data":"é"}"#);
    let env = decode_envelope(&raw).expect("raw UTF-8 passes through");
    assert_eq!(env.data, Some(b("é")));
}

#[test]
fn chat_round_trip_exact_bytes() {
    let chat = ChatMessage { from: b("alice"), message: b("hi there"), time: 1700000000123 };
    let data = encode_chat(&chat);
    assert_eq!(
        data,
        b(r#"{"from":"alice","message":"hi there","time":1700000000123}"#)
    );
    let back = decode_chat(&data).expect("canonical chat encoding must decode");
    assert_eq!(back.from, b("alice"));
    assert_eq!(back.message, b("hi there"));
    assert_eq!(back.time, 1700000000123);
}

#[test]
fn chat_time_bounds() {
    let chat = ChatMessage { from: b("a"), message: b("m"), time: u64::MAX };
    let data = encode_chat(&chat);
    let back = decode_chat(&data).expect("u64::MAX must round-trip");
    assert_eq!(back.time, u64::MAX);

    // One past u64::MAX is rejected, not wrapped.
    let over = b(r#"{"from":"a","message":"m","time":18446744073709551616}"#);
    assert!(decode_chat(&over).is_none());
}

#[test]
fn decimal_rendering() {
    assert_eq!(u64_to_dec(0), b("0"));
    assert_eq!(u64_to_dec(9), b("9"));
    assert_eq!(u64_to_dec(1234567890), b("1234567890"));
    assert_eq!(u64_to_dec(u64::MAX), b("18446744073709551615"));
}

#[test]
fn encoder_output_is_json_for_serde() {
    let env = Envelope {
        kind: MsgKind::Users,
        data: Some(b("x\"y\\z\n")),
        data_array: Some(vec![b("alice"), b("bob")]),
    };
    let frame = encode_envelope(&env);
    let text = String::from_utf8(frame).expect("frames are valid UTF-8");
    let value: serde_json::Value = serde_json::from_str(&text).expect("frames are valid JSON");
    assert_eq!(value.get("messageType").unwrap().as_str().unwrap(), "users");
    assert_eq!(value.get("data").unwrap().as_str().unwrap(), "x\"y\\z\n");
    let arr = value.get("dataArray").unwrap().as_array().unwrap();
    assert_eq!(arr.len(), 2);
    assert_eq!(arr[0].as_str().unwrap(), "alice");
    assert_eq!(arr[1].as_str().unwrap(), "bob");
}

#[test]
fn serde_reads_chat_frames_like_our_decoder() {
    let chat = ChatMessage { from: b("a\"b"), message: b("line\nbreak"), time: 42 };
    let data = encode_chat(&chat);
    let text = String::from_utf8(data).expect("frames are valid UTF-8");
    let value: serde_json::Value = serde_json::from_str(&text).expect("frames are valid JSON");
    assert_eq!(value.get("from").unwrap().as_str().unwrap(), "a\"b");
    assert_eq!(value.get("message").unwrap().as_str().unwrap(), "line\nbreak");
    assert_eq!(value.get("time").unwrap().as_u64().unwrap(), 42);
}
