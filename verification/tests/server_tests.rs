//! Tests for the per-connection request handling and the startup engine
//! check.

use kvs::codec::{decode_response, encode_command};
use kvs::text::{chars_to_string, str_to_chars};
use kvs::{check_engine, handle_request, Command, EngineKind, Error, KvStore, Response, SegmentOp};

fn frame_request(c: &Command) -> String {
    chars_to_string(&encode_command(c))
}

fn unframe_response(reply: &str) -> Response {
    assert!(reply.ends_with('#'), "a reply is terminated by the delimiter");
    let body = &reply[..reply.len() - 1];
    decode_response(&str_to_chars(body)).expect("the server writes well-formed replies")
}

fn run(store: &mut KvStore, ops_sink: &mut Vec<SegmentOp>, c: &Command) -> Response {
    let (reply, mut ops) = handle_request(store, &frame_request(c));
    ops_sink.append(&mut ops);
    unframe_response(&reply)
}

#[test]
fn one_request_one_reply_per_kind() {
    let (mut store, _) = KvStore::open(Vec::new()).unwrap();
    let mut sink = Vec::new();
    let put = Command::Put { key: "k".to_string(), value: "v".to_string() };
    assert_eq!(run(&mut store, &mut sink, &put), Response::SuccessSet);
    let after_put = sink.len();
    let get = Command::Get { key: "k".to_string() };
    assert_eq!(run(&mut store, &mut sink, &get), Response::SuccessGet(Some("v".to_string())));
    assert_eq!(sink.len(), after_put, "a Get writes nothing to the log");
    let rm = Command::Rm { key: "k".to_string() };
    assert_eq!(run(&mut store, &mut sink, &rm), Response::SuccessRm);
    let get2 = Command::Get { key: "k".to_string() };
    assert_eq!(run(&mut store, &mut sink, &get2), Response::SuccessGet(None));
}

#[test]
fn removing_a_missing_key_fails_over_the_wire() {
    let (mut store, _) = KvStore::open(Vec::new()).unwrap();
    let mut sink = Vec::new();
    let rm = Command::Rm { key: "nope".to_string() };
    assert_eq!(run(&mut store, &mut sink, &rm), Response::Fail("Key not found".to_string()));
}

#[test]
fn malformed_request_fails_over_the_wire() {
    let (mut store, _) = KvStore::open(Vec::new()).unwrap();
    let (reply, ops) = handle_request(&mut store, "{\"Nonsense\":3}");
    assert!(ops.is_empty());
    assert_eq!(unframe_response(&reply), Response::Fail("malformed request".to_string()));
}

#[test]
fn engine_defaults_and_detection() {
    assert!(matches!(check_engine(None, false, false), Ok(EngineKind::Kvs)));
    assert!(matches!(check_engine(None, true, false), Ok(EngineKind::Kvs)));
    assert!(matches!(check_engine(None, false, true), Ok(EngineKind::Sled)));
    assert!(matches!(check_engine(Some(EngineKind::Kvs), false, false), Ok(EngineKind::Kvs)));
    assert!(matches!(check_engine(Some(EngineKind::Sled), false, true), Ok(EngineKind::Sled)));
}

#[test]
fn engine_mismatch_is_fatal() {
    assert!(matches!(
        check_engine(Some(EngineKind::Kvs), false, true),
        Err(Error::EngineMismatch)
    ));
    assert!(matches!(
        check_engine(Some(EngineKind::Sled), true, false),
        Err(Error::EngineMismatch)
    ));
}

#[test]
fn engine_names() {
    assert_eq!(EngineKind::Kvs.as_str(), "kvs");
    assert_eq!(EngineKind::Sled.as_str(), "sled");
}
