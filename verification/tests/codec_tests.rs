//! The wire codec: JSON text in, commands out; messages in, JSON text out.

use aether_db::codec::{decode_command_text, encode_command_at, message_to_string};
use aether_db::command::Command;
use aether_db::db::{BroadcastMessage, Data, Value};
use aether_db::json::JsonValue;
use aether_db::jsontext::{json_to_string, parse_json};
use aether_db::message::{Message, StatusMessage};

#[test]
fn decodes_a_set_command() {
    let text = "{\"set\":{\"key\":\"k\",\"value\":{\"data\":{\"string\":\"v\"},\"expiry\":null}}}";
    match decode_command_text(text) {
        Some(Command::SetValue { key, value }) => {
            assert_eq!(key, "k");
            assert_eq!(value.expiry, None);
            match value.data {
                Data::String(s) => assert_eq!(s, "v"),
                _ => panic!("wrong payload"),
            }
        },
        _ => panic!("the set command must decode"),
    }
}

#[test]
fn decodes_a_get_command() {
    match decode_command_text("{\"get\":{\"key\":\"k\"}}") {
        Some(Command::Get { key }) => assert_eq!(key, "k"),
        _ => panic!("the get command must decode"),
    }
}

#[test]
fn decodes_subscribe_with_and_without_the_option() {
    match decode_command_text("{\"subscribe_broadcast\":{\"channel\":\"room\"}}") {
        Some(Command::SubscribeBroadcast { channel, subscribe_to_self }) => {
            assert_eq!(channel, "room");
            assert!(!subscribe_to_self);
        },
        _ => panic!("must decode with the option defaulted"),
    }
    match decode_command_text(
        "{\"subscribe_broadcast\":{\"channel\":\"room\",\"subscribe_to_self\":true}}",
    ) {
        Some(Command::SubscribeBroadcast { subscribe_to_self, .. }) => {
            assert!(subscribe_to_self);
        },
        _ => panic!("must decode with the option set"),
    }
}

#[test]
fn decodes_unsubscribe_and_send() {
    match decode_command_text("{\"unsubscribe_broadcast\":\"room\"}") {
        Some(Command::UnsubscribeBroadcast(channel)) => assert_eq!(channel, "room"),
        _ => panic!("must decode"),
    }
    match decode_command_text("{\"send_broadcast\":{\"channel\":\"room\",\"message\":\"hi\"}}") {
        Some(Command::SendBroadcast { channel, message }) => {
            assert_eq!(channel, "room");
            assert_eq!(message, "hi");
        },
        _ => panic!("must decode"),
    }
}

#[test]
fn decodes_int_and_expiry_values() {
    let text = "{\"set\":{\"key\":\"n\",\"value\":{\"data\":{\"int\":-42},\"expiry\":60}}}";
    match decode_command_text(text) {
        Some(Command::SetValue { value, .. }) => {
            assert_eq!(value.expiry, Some(60));
            match value.data {
                Data::Int(i) => assert_eq!(i, -42),
                _ => panic!("wrong payload"),
            }
        },
        _ => panic!("must decode"),
    }
}

#[test]
fn decodes_a_json_document_payload() {
    let text = "{\"set\":{\"key\":\"doc\",\"value\":{\"data\":{\"json\":{\"a\":[1,true,null]}}}}}";
    match decode_command_text(text) {
        Some(Command::SetValue { value, .. }) => match value.data {
            Data::Json(_) => {},
            _ => panic!("wrong payload"),
        },
        _ => panic!("must decode"),
    }
}

#[test]
fn rejects_what_is_not_a_command() {
    assert!(decode_command_text("not json").is_none());
    assert!(decode_command_text("{}").is_none());
    assert!(decode_command_text("{\"warble\":1}").is_none());
    assert!(decode_command_text("{\"get\":{\"key\":1}}").is_none());
    assert!(decode_command_text("{\"get\":{\"key\":\"k\",\"extra\":1}}").is_none());
    assert!(decode_command_text("{\"get\":{\"key\":\"a\",\"key\":\"b\"}}").is_none());
    // a time to live must be a whole unsigned 32-bit count of seconds
    assert!(decode_command_text(
        "{\"set\":{\"key\":\"k\",\"value\":{\"data\":{\"int\":1},\"expiry\":-1}}}",
    )
    .is_none());
    assert!(decode_command_text(
        "{\"set\":{\"key\":\"k\",\"value\":{\"data\":{\"int\":1},\"expiry\":4294967296}}}",
    )
    .is_none());
    // an int payload must fit a signed 64-bit number
    assert!(decode_command_text(
        "{\"set\":{\"key\":\"k\",\"value\":{\"data\":{\"int\":9223372036854775808}}}}",
    )
    .is_none());
}

#[test]
fn command_round_trip_is_semantically_identity() {
    // decoding then re-encoding a fully explicit command yields the same
    // JSON value; here the member order is already canonical, so even the
    // text comes back unchanged
    let text = "{\"set\":{\"key\":\"k\",\"value\":{\"data\":{\"int\":-7},\"expiry\":9}}}";
    let command = decode_command_text(text).expect("must decode");
    let doc = encode_command_at(&command);
    assert_eq!(json_to_string(&doc), text);

    let text2 = "{\"subscribe_broadcast\":{\"channel\":\"room\",\"subscribe_to_self\":false}}";
    let command2 = decode_command_text(text2).expect("must decode");
    assert_eq!(json_to_string(&encode_command_at(&command2)), text2);
}

#[test]
fn command_round_trip_ignores_member_order() {
    let scrambled = "{\"subscribe_broadcast\":{\"subscribe_to_self\":true,\"channel\":\"room\"}}";
    let canonical = "{\"subscribe_broadcast\":{\"channel\":\"room\",\"subscribe_to_self\":true}}";
    let command = decode_command_text(scrambled).expect("must decode");
    assert_eq!(json_to_string(&encode_command_at(&command)), canonical);
}

#[test]
fn command_survives_the_whole_wire() {
    // encode to a document, write it as text, read the text back, decode:
    // the very command comes out, JSON payload and all
    let original = "{\"set\":{\"key\":\"doc\",\"value\":{\"data\":{\"json\":{\"a\":[1,true],\"b\":\"x\"}},\"expiry\":null}}}";
    let command = decode_command_text(original).expect("must decode");
    let text = json_to_string(&encode_command_at(&command));
    assert_eq!(text, original);
    let again = decode_command_text(&text).expect("must decode again");
    assert_eq!(json_to_string(&encode_command_at(&again)), original);
}

#[test]
fn encodes_the_ok_status() {
    let text = message_to_string(&Message::Status(StatusMessage::Okay));
    assert_eq!(text, "{\"status\":\"ok\"}");
}

#[test]
fn encodes_the_decode_error_status() {
    let status = StatusMessage::Error {
        message: "Could not deserialize string message".to_string(),
        operation: None,
    };
    let text = message_to_string(&Message::Status(status));
    let expected = "{\"status\":{\"error\":{\"message\":\"Could not deserialize string message\",\"operation\":null}}}";
    assert_eq!(text, expected);
}

#[test]
fn encodes_the_client_id_message() {
    let text = message_to_string(&Message::ClientId("abc-1".to_string()));
    assert_eq!(text, "{\"client_id\":\"abc-1\"}");
}

#[test]
fn encodes_a_broadcast_envelope() {
    let envelope = BroadcastMessage {
        client_id: "a".to_string(),
        channel: "room".to_string(),
        message: "hi".to_string(),
    };
    let text = message_to_string(&Message::BroadcastMessage(envelope));
    assert_eq!(
        text,
        "{\"broadcast_message\":{\"client_id\":\"a\",\"channel\":\"room\",\"message\":\"hi\"}}",
    );
}

#[test]
fn encodes_a_read_reply_with_rfc3339_expiry() {
    // 2024-10-04T12:00:00Z is 1728043200 seconds into the epoch; the
    // rendering comes from the calendar, so a wrong formatter would show
    let value = Value { data: Data::Int(1), expiry: Some(1728043200) };
    let text = message_to_string(&Message::Get(Some(value)));
    assert_eq!(
        text,
        "{\"get\":{\"data\":{\"int\":1},\"expiry\":\"2024-10-04T12:00:00Z\"}}",
    );
}

#[test]
fn encodes_an_absent_read_reply() {
    let text = message_to_string(&Message::Get(None));
    assert_eq!(text, "{\"get\":null}");
}

#[test]
fn serialize() {
    // the envelope and the enveloping message, written out
    let item = BroadcastMessage {
        client_id: "test".to_string(),
        channel: "test".to_string(),
        message: "testing message".to_string(),
    };
    let item_enum = Message::BroadcastMessage(BroadcastMessage {
        client_id: "test".to_string(),
        channel: "test".to_string(),
        message: "testing message".to_string(),
    });
    let json = format!(
        "{{\"client_id\":\"{}\",\"channel\":\"{}\",\"message\":\"{}\"}}",
        item.client_id, item.channel, item.message
    );
    let json_enum = message_to_string(&item_enum);
    println!("json: {:?}", json);
    println!("json enum: {:?}", json_enum);
    assert_eq!(4, 4);
}

#[test]
fn parses_and_prints_json_text() {
    let cases = [
        "null",
        "true",
        "false",
        "0",
        "-12",
        "3.5e-7",
        "\"hello\"",
        "[]",
        "[1,2,3]",
        "{}",
        "{\"a\":1,\"b\":[true,null]}",
    ];
    for case in cases {
        let doc = parse_json(case).expect("must parse");
        assert_eq!(json_to_string(&doc), case);
    }
}

#[test]
fn parser_accepts_whitespace_between_tokens() {
    let doc = parse_json(" { \"a\" : [ 1 , 2 ] } ").expect("must parse");
    assert_eq!(json_to_string(&doc), "{\"a\":[1,2]}");
}

#[test]
fn parser_handles_string_escapes() {
    let doc = parse_json("\"a\\n\\\"b\\\\c\\u0041\\u00e9\"").expect("must parse");
    match &doc {
        JsonValue::Str(s) => assert_eq!(s, "a\n\"b\\cA\u{e9}"),
        _ => panic!("expected a string"),
    }
    // the writer escapes quotes, backslashes and controls again
    assert_eq!(json_to_string(&doc), "\"a\\n\\\"b\\\\cA\u{e9}\"");
}

#[test]
fn parser_rejects_malformed_text() {
    for case in [
        "", "tru", "nul", "01", "1.", "1e", "-", "\"unterminated", "\"bad\\q\"",
        "\"\\u12g4\"", "\"\\ud800\"", "[1,", "[1 2]", "{\"a\"}", "{\"a\":}", "{a:1}",
        "{\"a\":1,}", "[1]]", "1 2",
    ] {
        assert!(parse_json(case).is_none(), "must reject: {}", case);
    }
}
