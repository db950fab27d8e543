//! Round trips of every documented request and reply shape through the
//! JSON codec, with the shapes the Maelstrom harness exchanges.

use maelstrom_lib::json::{parse_text, to_text, JsonValue};
use maelstrom_lib::message::decode_envelope;

fn parse(s: &str) -> JsonValue {
    parse_text(s).expect("the literal is valid JSON")
}

/// Object fields sorted by name, recursively, so documents compare
/// regardless of field order.
fn canon(v: &JsonValue) -> JsonValue {
    match v {
        JsonValue::Null => JsonValue::Null,
        JsonValue::Bool(b) => JsonValue::Bool(*b),
        JsonValue::Num(n) => JsonValue::Num(*n),
        JsonValue::Str(s) => JsonValue::Str(s.clone()),
        JsonValue::Arr(items) => JsonValue::Arr(items.iter().map(canon).collect()),
        JsonValue::Obj(fields) => {
            let mut fs: Vec<(String, JsonValue)> =
                fields.iter().map(|(k, w)| (k.clone(), canon(w))).collect();
            fs.sort_by(|a, b| a.0.cmp(&b.0));
            JsonValue::Obj(fs)
        }
    }
}

fn can_serde(json: &str) {
    let v = parse(json);
    assert!(decode_envelope(&v).is_ok(), "the envelope decodes");
    let out = to_text(&v);
    let v2 = parse_text(&out).expect("encoded text parses back");
    assert_eq!(canon(&v), canon(&v2));
}

const ECHO_REQUEST: &str = r#"
    { "src": "c2", "dest": "n1",
      "body": { "type": "echo", "msg_id": 42, "echo": "Meaning of life" } }
"#;

const ECHO_RESPONSE: &str = r#"
    { "src": "n1", "dest": "c2",
      "body": { "type": "echo_ok", "echo": "Meaning of life", "msg_id": 2, "in_reply_to": 42 } }
"#;

#[test]
fn echo_test_serde() {
    can_serde(ECHO_REQUEST);
    can_serde(ECHO_RESPONSE);
}

const INIT_REQUEST: &str = r#"
    { "src": "c2", "dest": "n1",
      "body": { "type": "init", "msg_id": 4, "node_id": "n0", "node_ids": [ "c1", "c2", "c3" ] } }
"#;

const INIT_RESPONSE: &str = r#"
    { "src": "n1", "dest": "c2",
      "body": { "msg_id": 1, "type": "init_ok", "in_reply_to": 4 } }
"#;

#[test]
fn init_test_serde() {
    can_serde(INIT_REQUEST);
    can_serde(INIT_RESPONSE);
}

const BROADCAST_REQUEST: &str = r#"
    { "src": "c2", "dest": "n1",
      "body": { "type": "broadcast", "msg_id": 42, "message": 1000 } }
"#;

const BROADCAST_RESPONSE: &str = r#"
    { "src": "n1", "dest": "c2",
      "body": { "type": "broadcast_ok", "msg_id": 2, "in_reply_to": 42 } }
"#;

#[test]
fn test_serde_broadcast() {
    can_serde(BROADCAST_REQUEST);
    can_serde(BROADCAST_RESPONSE);
}

const READ_REQUEST: &str = r#"
    { "src": "c2", "dest": "n1", "body": { "type": "read", "msg_id": 44 } }
"#;

const READ_RESPONSE: &str = r#"
    { "src": "n1", "dest": "c2",
      "body": { "in_reply_to": 44, "messages": [1000, 9001], "msg_id": 4, "type": "read_ok" } }
"#;

#[test]
fn broadcast_test_serde_read() {
    can_serde(READ_REQUEST);
    can_serde(READ_RESPONSE);
}

const SYNC_REQUEST: &str = r#"
    { "src": "c2", "dest": "n1",
      "body": { "msg_id": 42, "type": "sync", "messages": [1] } }
"#;

#[test]
fn broadcast_test_serde_sync() {
    can_serde(SYNC_REQUEST);
}

const TOPOLOGY_REQUEST: &str = r#"
    { "src": "c2", "dest": "n1",
      "body": { "msg_id": 42, "type": "topology",
                "topology": { "n1": ["n2", "n3"], "n2": ["n1"], "n3": ["n1"] } } }
"#;

const TOPOLOGY_RESPONSE: &str = r#"
    { "src": "n1", "dest": "c2",
      "body": { "type": "topology_ok", "msg_id": 2, "in_reply_to": 42 } }
"#;

#[test]
fn test_serde_topology() {
    can_serde(TOPOLOGY_REQUEST);
    can_serde(TOPOLOGY_RESPONSE);
}

const ADD_REQUEST: &str = r#"
    { "src": "c2", "dest": "n1",
      "body": { "type": "add", "msg_id": 1, "delta": 40 } }
"#;

const ADD_RESPONSE: &str = r#"
    { "src": "n1", "dest": "c2",
      "body": { "type": "add_ok", "in_reply_to": 1, "msg_id": 2 } }
"#;

#[test]
fn test_serde_gcounter() {
    can_serde(ADD_REQUEST);
    can_serde(ADD_RESPONSE);
}

const COUNTER_READ_REQUEST: &str = r#"
    { "src": "c1", "dest": "n1", "body": { "type": "read", "msg_id": 14 } }
"#;

const COUNTER_READ_RESPONSE: &str = r#"
    { "src": "n1", "dest": "c1",
      "body": { "in_reply_to": 14, "value": 42, "msg_id": 4, "type": "read_ok" } }
"#;

#[test]
fn g_counter_test_serde_read() {
    can_serde(COUNTER_READ_REQUEST);
    can_serde(COUNTER_READ_RESPONSE);
}

const COUNTER_SYNC_REQUEST: &str = r#"
    { "src": "n1", "dest": "n2",
      "body": { "msg_id": 4, "type": "sync_counter", "messages": {"n1": 42} } }
"#;

#[test]
fn g_counter_test_serde_sync() {
    can_serde(COUNTER_SYNC_REQUEST);
}

const GENERATE_REQUEST: &str = r#"
    { "src": "c5", "dest": "n1", "body": { "type": "generate", "msg_id": 42 } }
"#;

const GENERATE_RESPONSE: &str = r#"
    { "src": "n1", "dest": "c5",
      "body": { "type": "generate_ok", "id": "a8fefd10-fb07-4b1a-bd66-96b6ae354b0c",
                "in_reply_to": 42, "msg_id": 2 } }
"#;

#[test]
fn generate_test_serde() {
    can_serde(GENERATE_REQUEST);
    can_serde(GENERATE_RESPONSE);
}

const MOCK_REQUEST: &str = r#"
    { "src": "c1", "dest": "n1", "body": { "type": "echo", "msg": "The answer is 42" } }
"#;

const MOCK_RESPONSE: &str = r#"
    { "src": "n1", "dest": "c1", "body": { "type": "echo_ok", "msg": "The answer is 42" } }
"#;

#[test]
fn stdin_test_serde() {
    can_serde(MOCK_REQUEST);
    can_serde(MOCK_RESPONSE);
}
