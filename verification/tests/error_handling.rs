//! Parsing failures and the error taxonomy.

use maelstrom_lib::error::MaelstromError;
use maelstrom_lib::json::{parse_text, JsonValue};
use maelstrom_lib::message::decode_envelope;

#[test]
fn parse_json() {
    let src = "c1";
    let dest = "n1";
    let msg_id = 1;
    let msg = "Please echo 35";
    let msg_type = "echo";

    let valid_json = format!(
        "{{\"src\":\"{src}\",\"dest\":\"{dest}\",\"body\":{{\"type\":\"{msg_type}\",\"msg_id\":{msg_id},\"echo\":\"{msg}\"}}}}"
    );
    let invalid_json = format!(
        "{{\"src\":\"{src}\",\"dest\":\"{dest}\",\"blah\":{{\"type\":\"{msg_type}\",\"msg_id\":{msg_id},\"echo\":\"{msg}\"}}}}"
    );

    let valid = parse_text(&valid_json).expect("Unable to parse json");
    let actual_msg = decode_envelope(&valid).expect("Unable to parse json");
    assert_eq!(actual_msg.src, "c1".to_string());
    assert_eq!(actual_msg.dest, "n1".to_string());
    assert_eq!(actual_msg.body.msg_id, Some(1));

    let invalid = parse_text(&invalid_json).expect("still valid JSON text");
    let actual_error = decode_envelope(&invalid).expect_err("no body field");
    assert!(matches!(actual_error, MaelstromError::SerdeJsonError(..)));
}

#[test]
fn error_codes_are_the_wire_contract() {
    assert_eq!(MaelstromError::EndOfInput.code(), 1000);
    assert_eq!(MaelstromError::MalformedRequest("x".to_string()).code(), 1001);
    assert_eq!(MaelstromError::MissingWorkloadHandlers.code(), 1002);
    assert_eq!(MaelstromError::NodeAlreadyInitialized.code(), 1003);
    assert_eq!(MaelstromError::NodeNotInitialized.code(), 1004);
    assert_eq!(MaelstromError::SerdeJsonError("x".to_string()).code(), 1005);
    assert_eq!(MaelstromError::StdinReadError("x".to_string()).code(), 1006);
    assert_eq!(MaelstromError::StdinUtf8ReadError("x".to_string()).code(), 1007);
    assert_eq!(MaelstromError::NoHandlerForRequestType.code(), 1008);
    assert_eq!(MaelstromError::UnknownRequestType.code(), 1009);
    assert_eq!(MaelstromError::MissingMessageId.code(), 1010);
    assert_eq!(MaelstromError::RWLockError("x".to_string()).code(), 1011);
    assert_eq!(MaelstromError::PoisonError("x".to_string()).code(), 1012);
    assert_eq!(MaelstromError::JoinError("x".to_string()).code(), 1013);
    assert_eq!(MaelstromError::Crash.code(), 13);
}

#[test]
fn error_reply_carries_code_and_text() {
    let line = maelstrom_lib::error::error_line(&MaelstromError::NoHandlerForRequestType, 7);
    let v = parse_text(&line).expect("an error reply is valid JSON");
    let fields = match v {
        JsonValue::Obj(fields) => fields,
        _ => panic!("an error reply is an object"),
    };
    let mut saw_type = false;
    let mut saw_code = false;
    let mut saw_reply_to = false;
    let mut saw_text = false;
    for (k, w) in &fields {
        match (k.as_str(), w) {
            ("type", JsonValue::Str(s)) => {
                assert_eq!(s, "error");
                saw_type = true;
            }
            ("code", JsonValue::Num(n)) => {
                assert_eq!(*n, 1008);
                saw_code = true;
            }
            ("in_reply_to", JsonValue::Num(n)) => {
                assert_eq!(*n, 7);
                saw_reply_to = true;
            }
            ("text", JsonValue::Str(s)) => {
                assert_eq!(s, "No handler found for request type");
                saw_text = true;
            }
            _ => panic!("unexpected field in an error reply"),
        }
    }
    assert!(saw_type && saw_code && saw_reply_to && saw_text);
}
