//! Round-trip and exact-form tests for the record and reply codec.

use kvs::codec::{decode_command, decode_response, encode_command, encode_response};
use kvs::text::{chars_to_string, str_to_chars};
use kvs::{Command, Response};

fn encode_command_text(c: &Command) -> String {
    chars_to_string(&encode_command(c))
}

fn decode_command_text(s: &str) -> Option<Command> {
    decode_command(&str_to_chars(s))
}

fn decode_response_text(s: &str) -> Option<Response> {
    decode_response(&str_to_chars(s))
}

#[test]
fn put_encodes_as_documented() {
    let c = Command::Put { key: "a".to_string(), value: "b".to_string() };
    assert_eq!(encode_command_text(&c), "{\"Set\":{\"key\":\"a\",\"value\":\"b\"}}");
}

#[test]
fn get_encodes_as_documented() {
    let c = Command::Get { key: "k1".to_string() };
    assert_eq!(encode_command_text(&c), "{\"Get\":{\"key\":\"k1\"}}");
}

#[test]
fn rm_encodes_as_documented() {
    let c = Command::Rm { key: "k1".to_string() };
    assert_eq!(encode_command_text(&c), "{\"Rm\":{\"key\":\"k1\"}}");
}

#[test]
fn delimiter_is_escaped() {
    let c = Command::Put { key: "a#b".to_string(), value: "x".to_string() };
    let text = encode_command_text(&c);
    assert!(!text.contains('#'));
    assert_eq!(text, "{\"Set\":{\"key\":\"a\\u0023b\",\"value\":\"x\"}}");
    assert_eq!(decode_command_text(&text), Some(c));
}

#[test]
fn command_round_trip_with_special_characters() {
    let cases = vec![
        Command::Put { key: String::new(), value: String::new() },
        Command::Put { key: "quote\"key".to_string(), value: "back\\slash".to_string() },
        Command::Put { key: "##".to_string(), value: "\"#\\".to_string() },
        Command::Put { key: "naïve🎈".to_string(), value: "значение".to_string() },
        Command::Get { key: "some key".to_string() },
        Command::Rm { key: "a\\u0023".to_string() },
    ];
    for c in cases {
        let text = encode_command_text(&c);
        assert!(!text.contains('#'));
        assert_eq!(decode_command_text(&text), Some(c));
    }
}

#[test]
fn response_round_trip_all_variants() {
    let cases = vec![
        Response::SuccessSet,
        Response::SuccessRm,
        Response::SuccessGet(None),
        Response::SuccessGet(Some("v".to_string())),
        Response::SuccessGet(Some("null".to_string())),
        Response::SuccessGet(Some(String::new())),
        Response::Fail("Key not found".to_string()),
        Response::Fail("a#b\"c\\d".to_string()),
    ];
    for r in cases {
        let text = chars_to_string(&encode_response(&r));
        assert!(!text.contains('#'));
        assert_eq!(decode_response_text(&text), Some(r));
    }
}

#[test]
fn response_fixed_forms() {
    assert_eq!(chars_to_string(&encode_response(&Response::SuccessSet)), "{\"SuccessSet\":[]}");
    assert_eq!(chars_to_string(&encode_response(&Response::SuccessRm)), "{\"SuccessRm\":[]}");
    assert_eq!(
        chars_to_string(&encode_response(&Response::SuccessGet(None))),
        "{\"SuccessGet\":null}"
    );
    assert_eq!(
        chars_to_string(&encode_response(&Response::SuccessGet(Some("w".to_string())))),
        "{\"SuccessGet\":\"w\"}"
    );
    assert_eq!(
        chars_to_string(&encode_response(&Response::Fail("no".to_string()))),
        "{\"Fail\":\"no\"}"
    );
}

#[test]
fn malformed_inputs_decode_to_none() {
    for bad in [
        "",
        "{",
        "{\"Set\":{\"key\":\"a\",\"value\":\"b\"}",
        "{\"Set\":{\"key\":\"a\"}}",
        "{\"Put\":{\"key\":\"a\",\"value\":\"b\"}}",
        "{\"Set\":{\"key\":\"a\",\"value\":\"b\"}}}",
        "{\"Set\":{\"key\":\"a\\q\",\"value\":\"b\"}}",
        "{\"Get\":{\"key\":\"a#b\"}}",
    ] {
        assert_eq!(decode_command_text(bad), None);
    }
    assert_eq!(decode_response_text("{\"SuccessGet\":nul}"), None);
    assert_eq!(decode_response_text("{\"SuccessSet\":[]"), None);
}

#[test]
fn unicode_string_conversions_are_inverse() {
    let s = "héllo #wörld\u{1F600}";
    assert_eq!(chars_to_string(&str_to_chars(s)), s);
}
