//! The wire codec: exact frame shapes, escaping, and round trips.
use my_chat::codec::{decode_event, decode_request, encode_event, encode_request};
use my_chat::protocol::{ClientRequest, ServerEvent};

fn req_round_trip(req: ClientRequest) {
    let json = encode_request(&req);
    assert_eq!(decode_request(&json), Some(req));
}

fn ev_round_trip(ev: ServerEvent) {
    let json = encode_event(&ev);
    assert_eq!(decode_event(&json), Some(ev));
}

#[test]
fn serialize_join() {
    let req = ClientRequest::Join {
        room: "rust".into(),
        name: "alice".into(),
    };
    let json = encode_request(&req);
    assert_eq!(decode_request(&json), Some(req));
}

#[test]
fn serialize_new_msg() {
    let ev = ServerEvent::NewMessage {
        room: "rust".into(),
        name: "bob".into(),
        text: "hello".into(),
        ts: 123,
    };
    let json = encode_event(&ev);
    assert_eq!(decode_event(&json), Some(ev));
}

#[test]
fn serialize_member_list() {
    let ev = ServerEvent::MemberList {
        room: "rust".into(),
        members: vec!["alice".into(), "bob".into()],
    };
    let json = encode_event(&ev);
    assert_eq!(decode_event(&json), Some(ev));
}

#[test]
fn exact_request_shapes() {
    assert_eq!(
        encode_request(&ClientRequest::Join { room: "rust".into(), name: "alice".into() }),
        r#"{"Join":{"room":"rust","name":"alice"}}"#
    );
    assert_eq!(encode_request(&ClientRequest::RoomList), r#""RoomList""#);
    assert_eq!(
        encode_request(&ClientRequest::Members { room: "rust".into() }),
        r#"{"Members":{"room":"rust"}}"#
    );
    assert_eq!(
        encode_request(&ClientRequest::Message { room: "rust".into(), text: "hi".into() }),
        r#"{"Message":{"room":"rust","text":"hi"}}"#
    );
    assert_eq!(
        encode_request(&ClientRequest::Leave { room: "rust".into() }),
        r#"{"Leave":{"room":"rust"}}"#
    );
}

#[test]
fn exact_event_shapes() {
    assert_eq!(
        encode_event(&ServerEvent::UserJoined { room: "rust".into(), name: "alice".into() }),
        r#"{"UserJoined":{"room":"rust","name":"alice"}}"#
    );
    assert_eq!(
        encode_event(&ServerEvent::NewMessage {
            room: "rust".into(),
            name: "alice".into(),
            text: "hi".into(),
            ts: 1234567890123,
        }),
        r#"{"NewMessage":{"room":"rust","name":"alice","text":"hi","ts":1234567890123}}"#
    );
    assert_eq!(
        encode_event(&ServerEvent::UserLeft { room: "rust".into(), name: "alice".into() }),
        r#"{"UserLeft":{"room":"rust","name":"alice"}}"#
    );
    assert_eq!(
        encode_event(&ServerEvent::RoomList { rooms: vec!["rust".into(), "go".into()] }),
        r#"{"RoomList":{"rooms":["rust","go"]}}"#
    );
    assert_eq!(
        encode_event(&ServerEvent::RoomList { rooms: vec![] }),
        r#"{"RoomList":{"rooms":[]}}"#
    );
    assert_eq!(
        encode_event(&ServerEvent::MemberList {
            room: "rust".into(),
            members: vec!["alice".into(), "bob".into()],
        }),
        r#"{"MemberList":{"room":"rust","members":["alice","bob"]}}"#
    );
}

#[test]
fn decode_accepts_the_documented_frames() {
    assert_eq!(
        decode_request(r#"{"Join":{"room":"rust","name":"alice"}}"#),
        Some(ClientRequest::Join { room: "rust".into(), name: "alice".into() })
    );
    assert_eq!(decode_request(r#""RoomList""#), Some(ClientRequest::RoomList));
    assert_eq!(
        decode_request(r#"{"Members":{"room":"rust"}}"#),
        Some(ClientRequest::Members { room: "rust".into() })
    );
    assert_eq!(
        decode_request(r#"{"Message":{"room":"rust","text":"hi"}}"#),
        Some(ClientRequest::Message { room: "rust".into(), text: "hi".into() })
    );
    assert_eq!(
        decode_request(r#"{"Leave":{"room":"rust"}}"#),
        Some(ClientRequest::Leave { room: "rust".into() })
    );
    assert_eq!(
        decode_event(r#"{"NewMessage":{"room":"rust","name":"alice","text":"hi","ts":1234567890123}}"#),
        Some(ServerEvent::NewMessage {
            room: "rust".into(),
            name: "alice".into(),
            text: "hi".into(),
            ts: 1234567890123,
        })
    );
    assert_eq!(
        decode_event(r#"{"RoomList":{"rooms":["rust","go"]}}"#),
        Some(ServerEvent::RoomList { rooms: vec!["rust".into(), "go".into()] })
    );
}

#[test]
fn round_trips_all_variants() {
    req_round_trip(ClientRequest::Join { room: "a".into(), name: "b".into() });
    req_round_trip(ClientRequest::Leave { room: "a".into() });
    req_round_trip(ClientRequest::Message { room: "a".into(), text: "t".into() });
    req_round_trip(ClientRequest::RoomList);
    req_round_trip(ClientRequest::Members { room: "a".into() });
    ev_round_trip(ServerEvent::UserJoined { room: "a".into(), name: "b".into() });
    ev_round_trip(ServerEvent::UserLeft { room: "a".into(), name: "b".into() });
    ev_round_trip(ServerEvent::NewMessage {
        room: "a".into(),
        name: "b".into(),
        text: "t".into(),
        ts: 0,
    });
    ev_round_trip(ServerEvent::RoomList { rooms: vec![] });
    ev_round_trip(ServerEvent::MemberList { room: "a".into(), members: vec![] });
}

#[test]
fn escaping_round_trips() {
    let texts = [
        "with \"quotes\"",
        "back\\slash",
        "line\nbreak\r\ttab",
        "bell\u{7}and\u{1f}",
        "backspace\u{8}formfeed\u{c}",
        "unicode: héllo 中文 🦀",
        "",
    ];
    for t in texts {
        req_round_trip(ClientRequest::Message { room: "r".into(), text: (*t).into() });
    }
}

#[test]
fn escaping_exact_forms() {
    assert_eq!(
        encode_request(&ClientRequest::Leave { room: "a\"b\\c".into() }),
        r#"{"Leave":{"room":"a\"b\\c"}}"#
    );
    assert_eq!(
        encode_request(&ClientRequest::Leave { room: "x\ny\t\u{8}\u{c}\r".into() }),
        "{\"Leave\":{\"room\":\"x\\ny\\t\\b\\f\\r\"}}"
    );
    assert_eq!(
        encode_request(&ClientRequest::Leave { room: "\u{1}\u{1f}".into() }),
        "{\"Leave\":{\"room\":\"\\u0001\\u001f\"}}"
    );
}

#[test]
fn timestamp_extremes_round_trip() {
    ev_round_trip(ServerEvent::NewMessage {
        room: "r".into(),
        name: "n".into(),
        text: "t".into(),
        ts: u64::MAX,
    });
    ev_round_trip(ServerEvent::NewMessage {
        room: "r".into(),
        name: "n".into(),
        text: "t".into(),
        ts: 0,
    });
}

#[test]
fn decode_rejects_malformed_frames() {
    let bad = [
        "",
        "{}",
        "garbage",
        r#""Unknown""#,
        r#"{"Join":{"room":"a","name":"b"}} "#,      // trailing byte
        r#"{"Join": {"room":"a","name":"b"}}"#,      // non-canonical space
        r#"{"Join":{"name":"b","room":"a"}}"#,       // field order
        r#"{"Join":{"room":"a"}}"#,                  // missing field
        r#"{"Leave":{"room":"a"}"#,                  // unclosed
        r#"{"Leave":{"room":"a}}"#,                  // unterminated string
        r#"{"Leave":{"room":"a\qb"}}"#,              // unknown escape
        "{\"Leave\":{\"room\":\"a\\u0041b\"}}", // escape of a printable
        r#"{"Leave":{"room":"a\u0009"}}"#,           // long escape with short form
    ];
    for b in bad {
        assert_eq!(decode_request(b), None, "accepted: {b}");
    }
}

#[test]
fn decode_rejects_bad_numbers() {
    assert_eq!(
        decode_event(r#"{"NewMessage":{"room":"r","name":"n","text":"t","ts":01}}"#),
        None
    );
    assert_eq!(
        decode_event(r#"{"NewMessage":{"room":"r","name":"n","text":"t","ts":}}"#),
        None
    );
    assert_eq!(
        decode_event(r#"{"NewMessage":{"room":"r","name":"n","text":"t","ts":-1}}"#),
        None
    );
    // one past u64::MAX
    assert_eq!(
        decode_event(r#"{"NewMessage":{"room":"r","name":"n","text":"t","ts":18446744073709551616}}"#),
        None
    );
    // exactly u64::MAX
    assert_eq!(
        decode_event(r#"{"NewMessage":{"room":"r","name":"n","text":"t","ts":18446744073709551615}}"#),
        Some(ServerEvent::NewMessage {
            room: "r".into(),
            name: "n".into(),
            text: "t".into(),
            ts: u64::MAX,
        })
    );
}

#[test]
fn encoded_frames_parse_as_standard_json() {
    let s = encode_request(&ClientRequest::Join { room: "rust".into(), name: "al\"ice".into() });
    let v: serde_json::Value = serde_json::from_str(&s).unwrap();
    assert_eq!(v["Join"]["room"], serde_json::Value::String("rust".into()));
    assert_eq!(v["Join"]["name"], serde_json::Value::String("al\"ice".into()));

    let s = encode_event(&ServerEvent::NewMessage {
        room: "rust".into(),
        name: "bob".into(),
        text: "x\ny 中".into(),
        ts: 42,
    });
    let v: serde_json::Value = serde_json::from_str(&s).unwrap();
    assert_eq!(v["NewMessage"]["text"], serde_json::Value::String("x\ny 中".into()));
    assert_eq!(v["NewMessage"]["ts"], serde_json::Value::from(42u64));

    let s = encode_event(&ServerEvent::MemberList {
        room: "r".into(),
        members: vec!["a".into(), "b".into()],
    });
    let v: serde_json::Value = serde_json::from_str(&s).unwrap();
    assert_eq!(v["MemberList"]["members"][1], serde_json::Value::String("b".into()));
}
