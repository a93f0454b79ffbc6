use discord_relay::codec::{decode, decode_frame, encode, read_envelope};
use discord_relay::envelope::{Envelope, RelayMessage};

fn message(channel_id: u64, content: &str) -> Envelope {
    Envelope::Message(RelayMessage::new(channel_id, content.to_string()))
}

fn fields(e: &Envelope) -> Option<(u64, String)> {
    match e {
        Envelope::Message(m) => Some((m.channel_id, m.content.clone())),
        Envelope::KeepAlive => None,
    }
}

fn round_trip(e: &Envelope) {
    let text = encode(e);
    let back = decode(&text).expect("the wire text of an envelope decodes");
    assert_eq!(fields(&back), fields(e));
    let from_bytes = decode_frame(text.as_bytes()).expect("the frame decodes");
    assert_eq!(fields(&from_bytes), fields(e));
}

#[test]
fn keep_alive_is_a_bare_tag() {
    assert_eq!(encode(&Envelope::KeepAlive), "\"KeepAlive\"");
    assert!(matches!(decode("\"KeepAlive\""), Some(Envelope::KeepAlive)));
}

#[test]
fn message_wire_text() {
    assert_eq!(encode(&message(42, "hi")), "{\"Message\":{\"channel_id\":42,\"content\":\"hi\"}}");
}

#[test]
fn round_trip_of_envelopes() {
    round_trip(&Envelope::KeepAlive);
    round_trip(&message(1, ""));
    round_trip(&message(123456789, "plain text"));
    round_trip(&message(10, "back\\slash and tab\t"));
}

#[test]
fn channel_id_extremes_round_trip() {
    round_trip(&message(0, "zero"));
    round_trip(&message(u64::MAX, "max"));
    assert_eq!(
        encode(&message(u64::MAX, "")),
        "{\"Message\":{\"channel_id\":18446744073709551615,\"content\":\"\"}}"
    );
}

#[test]
fn awkward_content_round_trips() {
    let content = "line one\nline two \u{1F600} \"quoted\" \r\u{1}\u{8}\u{c}\u{1f}";
    round_trip(&message(5, content));
    assert_eq!(
        encode(&message(5, "a\"b\nc\u{1}")),
        "{\"Message\":{\"channel_id\":5,\"content\":\"a\\\"b\\nc\\u0001\"}}"
    );
}

#[test]
fn encoding_agrees_with_serde_json() {
    let content = "quote \" newline \n astral \u{1F680} control \u{2}";
    let text = encode(&message(77, content));
    let value: serde_json::Value = serde_json::from_str(&text).expect("valid JSON");
    let inner = value.get("Message").expect("tag");
    assert_eq!(inner.get("channel_id").and_then(|v| v.as_u64()), Some(77));
    assert_eq!(inner.get("content").and_then(|v| v.as_str()), Some(content));
    let mut map = serde_json::Map::new();
    map.insert("channel_id".to_string(), serde_json::Value::from(77u64));
    map.insert("content".to_string(), serde_json::Value::from(content));
    let mut outer = serde_json::Map::new();
    outer.insert("Message".to_string(), serde_json::Value::Object(map));
    let theirs = serde_json::to_string(&serde_json::Value::Object(outer)).expect("serialises");
    assert_eq!(theirs, text);
    let keep = serde_json::to_string(&serde_json::Value::from("KeepAlive")).expect("serialises");
    assert!(matches!(decode(&keep), Some(Envelope::KeepAlive)));
}

#[test]
fn malformed_texts_are_rejected() {
    assert!(decode("not-json").is_none());
    assert!(decode("").is_none());
    assert!(decode("\"KeepAlive").is_none());
    assert!(decode("{\"Message\":{\"channel_id\":18446744073709551616,\"content\":\"x\"}}").is_none());
    assert!(decode("{\"Message\":{\"channel_id\":-1,\"content\":\"x\"}}").is_none());
    assert!(decode("{\"Message\":{\"channel_id\":1,\"content\":\"x\"}").is_none());
    assert!(decode("{\"Message\":{\"channel_id\":1,\"content\":\"x\"}} ").is_none());
    assert!(decode("{\"Message\":{\"channel_id\":01,\"content\":\"x\"}}").is_none());
    assert!(decode_frame(&[0x22, 0xc3, 0x28, 0x22]).is_none());
}

#[test]
fn any_json_layout_is_read() {
    let spaced = "{ \"Message\" : { \"channel_id\" : 42 , \"content\" : \"hi\" } }\n";
    assert!(decode(spaced).is_none());
    let read = read_envelope(spaced).expect("spaced JSON reads");
    assert_eq!(fields(&read), Some((42, "hi".to_string())));
    let reordered = "{\"Message\":{\"content\":\"caf\\u00e9 \\/\",\"channel_id\":9}}";
    let read = read_envelope(reordered).expect("reordered JSON reads");
    assert_eq!(fields(&read), Some((9, "caf\u{e9} /".to_string())));
    assert!(matches!(read_envelope("  \"KeepAlive\"  "), Some(Envelope::KeepAlive)));
}

#[test]
fn json_of_other_shapes_is_rejected() {
    assert!(read_envelope("not-json").is_none());
    assert!(read_envelope("{\"Message\":{\"channel_id\":1.5,\"content\":\"x\"}}").is_none());
    assert!(read_envelope("{\"Message\":{\"channel_id\":1}}").is_none());
    assert!(read_envelope("{\"Message\":{\"channel_id\":1,\"content\":2}}").is_none());
    assert!(read_envelope("\"Other\"").is_none());
    assert!(read_envelope("[1, 2]").is_none());
}
