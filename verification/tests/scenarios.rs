//! End-to-end scenarios, one node at a time: lines in, lines out.

use maelstrom_lib::json::{parse_text, JsonValue};
use maelstrom_lib::server::router::process_messages;
use maelstrom_lib::server::stdio::{IoServerContext, IoServerType};

const INIT: &str = r#"{"src":"c2","dest":"n1","body":{"type":"init","msg_id":4,"node_id":"n1","node_ids":["n1","c2"]}}"#;

fn body_fields(line: &str) -> Vec<(String, JsonValue)> {
    let v = parse_text(line).expect("a reply is valid JSON");
    let fields = match v {
        JsonValue::Obj(fields) => fields,
        _ => panic!("a reply is an object"),
    };
    for (k, w) in fields {
        if k == "body" {
            match w {
                JsonValue::Obj(bf) => return bf,
                _ => panic!("a body is an object"),
            }
        }
    }
    panic!("a reply has a body");
}

fn field<'a>(fields: &'a [(String, JsonValue)], name: &str) -> &'a JsonValue {
    for (k, w) in fields {
        if k == name {
            return w;
        }
    }
    panic!("missing field");
}

fn num(fields: &[(String, JsonValue)], name: &str) -> u64 {
    match field(fields, name) {
        JsonValue::Num(n) => *n,
        _ => panic!("not a number"),
    }
}

fn tag(fields: &[(String, JsonValue)]) -> String {
    match field(fields, "type") {
        JsonValue::Str(s) => s.clone(),
        _ => panic!("not a string tag"),
    }
}

fn envelope_part(line: &str, name: &str) -> String {
    let v = parse_text(line).expect("valid JSON");
    let fields = match v {
        JsonValue::Obj(fields) => fields,
        _ => panic!("an envelope is an object"),
    };
    for (k, w) in fields {
        if k == name {
            match w {
                JsonValue::Str(s) => return s,
                _ => panic!("not a string"),
            }
        }
    }
    panic!("missing envelope part");
}

#[test]
fn echo_replies_with_the_same_value() {
    let mut ctx = IoServerContext::default();
    let init_reply = process_messages(IoServerType::Echo, &mut ctx, INIT);
    let ib = body_fields(&init_reply);
    assert_eq!(tag(&ib), "init_ok");
    assert_eq!(num(&ib, "msg_id"), 1);
    assert_eq!(num(&ib, "in_reply_to"), 4);

    let reply = process_messages(
        IoServerType::Echo,
        &mut ctx,
        r#"{"src":"c2","dest":"n1","body":{"type":"echo","msg_id":42,"echo":"Meaning of life"}}"#,
    );
    assert_eq!(envelope_part(&reply, "src"), "n1");
    assert_eq!(envelope_part(&reply, "dest"), "c2");
    let b = body_fields(&reply);
    assert_eq!(tag(&b), "echo_ok");
    assert_eq!(num(&b, "msg_id"), 2);
    assert_eq!(num(&b, "in_reply_to"), 42);
    match field(&b, "echo") {
        JsonValue::Str(s) => assert_eq!(s, "Meaning of life"),
        _ => panic!("echo carries the value back"),
    }
}

fn messages_of(fields: &[(String, JsonValue)]) -> Vec<u64> {
    match field(fields, "messages") {
        JsonValue::Arr(items) => items
            .iter()
            .map(|v| match v {
                JsonValue::Num(n) => *n,
                _ => panic!("a broadcast value is a number"),
            })
            .collect(),
        _ => panic!("messages is an array"),
    }
}

#[test]
fn read_reports_broadcasts_sorted() {
    let mut ctx = IoServerContext::default();
    let _ = process_messages(IoServerType::Broadcast, &mut ctx, INIT);
    let b1 = process_messages(
        IoServerType::Broadcast,
        &mut ctx,
        r#"{"src":"c2","dest":"n1","body":{"type":"broadcast","msg_id":42,"message":9001}}"#,
    );
    assert_eq!(tag(&body_fields(&b1)), "broadcast_ok");
    let b2 = process_messages(
        IoServerType::Broadcast,
        &mut ctx,
        r#"{"src":"c3","dest":"n1","body":{"type":"broadcast","msg_id":43,"message":1000}}"#,
    );
    assert_eq!(tag(&body_fields(&b2)), "broadcast_ok");
    let r = process_messages(
        IoServerType::Broadcast,
        &mut ctx,
        r#"{"src":"c2","dest":"n1","body":{"type":"read","msg_id":44}}"#,
    );
    let rb = body_fields(&r);
    assert_eq!(tag(&rb), "read_ok");
    assert_eq!(messages_of(&rb), vec![1000, 9001]);
}

#[test]
fn sync_merges_into_saved_messages() {
    let mut ctx = IoServerContext::default();
    let _ = process_messages(IoServerType::Broadcast, &mut ctx, INIT);
    for line in [
        r#"{"src":"c2","dest":"n1","body":{"type":"broadcast","msg_id":42,"message":1000}}"#,
        r#"{"src":"c3","dest":"n1","body":{"type":"broadcast","msg_id":43,"message":9001}}"#,
    ] {
        let _ = process_messages(IoServerType::Broadcast, &mut ctx, line);
    }
    let silent = process_messages(
        IoServerType::Broadcast,
        &mut ctx,
        r#"{"src":"c2","dest":"n1","body":{"msg_id":42,"type":"sync","messages":[1]}}"#,
    );
    assert_eq!(silent, "");
    let r = process_messages(
        IoServerType::Broadcast,
        &mut ctx,
        r#"{"src":"c2","dest":"n1","body":{"type":"read","msg_id":44}}"#,
    );
    assert_eq!(messages_of(&body_fields(&r)), vec![1, 1000, 9001]);
}

#[test]
fn topology_replaces_neighbors() {
    let mut ctx = IoServerContext::default();
    let _ = process_messages(
        IoServerType::Broadcast,
        &mut ctx,
        r#"{"src":"c2","dest":"n1","body":{"type":"init","msg_id":4,"node_id":"n1","node_ids":["n1","n2","n3"]}}"#,
    );
    let t = process_messages(
        IoServerType::Broadcast,
        &mut ctx,
        r#"{"src":"c2","dest":"n1","body":{"msg_id":42,"type":"topology","topology":{"n1":["n2","n3"],"n2":["n1"],"n3":["n1"]}}}"#,
    );
    assert_eq!(tag(&body_fields(&t)), "topology_ok");
    let names: Vec<String> = ctx.neighbors().iter().cloned().collect();
    assert_eq!(names, vec!["n2".to_string(), "n3".to_string()]);
}

#[test]
fn counter_adds_up() {
    let mut ctx = IoServerContext::default();
    let _ = process_messages(IoServerType::Gcounter, &mut ctx, INIT);
    let a1 = process_messages(
        IoServerType::Gcounter,
        &mut ctx,
        r#"{"src":"c2","dest":"n1","body":{"type":"add","msg_id":1,"delta":40}}"#,
    );
    assert_eq!(tag(&body_fields(&a1)), "add_ok");
    let a2 = process_messages(
        IoServerType::Gcounter,
        &mut ctx,
        r#"{"src":"c3","dest":"n1","body":{"type":"add","msg_id":3,"delta":2}}"#,
    );
    assert_eq!(tag(&body_fields(&a2)), "add_ok");
    let r = process_messages(
        IoServerType::Gcounter,
        &mut ctx,
        r#"{"src":"c1","dest":"n1","body":{"type":"read","msg_id":14}}"#,
    );
    let rb = body_fields(&r);
    assert_eq!(tag(&rb), "read_ok");
    assert_eq!(num(&rb, "value"), 42);
}

#[test]
fn counter_sync_merges_by_maximum() {
    let mut ctx = IoServerContext::default();
    let _ = process_messages(IoServerType::Gcounter, &mut ctx, INIT);
    let silent = process_messages(
        IoServerType::Gcounter,
        &mut ctx,
        r#"{"src":"n2","dest":"n1","body":{"msg_id":4,"type":"sync_counter","messages":{"n2":7,"n3":5}}}"#,
    );
    assert_eq!(silent, "");
    let r1 = process_messages(
        IoServerType::Gcounter,
        &mut ctx,
        r#"{"src":"c1","dest":"n1","body":{"type":"read","msg_id":14}}"#,
    );
    assert_eq!(num(&body_fields(&r1), "value"), 12);
    let _ = process_messages(
        IoServerType::Gcounter,
        &mut ctx,
        r#"{"src":"n2","dest":"n1","body":{"msg_id":5,"type":"sync_counter","messages":{"n2":10,"n3":5}}}"#,
    );
    let r2 = process_messages(
        IoServerType::Gcounter,
        &mut ctx,
        r#"{"src":"c1","dest":"n1","body":{"type":"read","msg_id":15}}"#,
    );
    assert_eq!(num(&body_fields(&r2), "value"), 15);
    // a stale report never lowers an entry: the merge is by maximum
    let _ = process_messages(
        IoServerType::Gcounter,
        &mut ctx,
        r#"{"src":"n2","dest":"n1","body":{"msg_id":6,"type":"sync_counter","messages":{"n2":4,"n3":5}}}"#,
    );
    let r3 = process_messages(
        IoServerType::Gcounter,
        &mut ctx,
        r#"{"src":"c1","dest":"n1","body":{"type":"read","msg_id":16}}"#,
    );
    assert_eq!(num(&body_fields(&r3), "value"), 15);
}

#[test]
fn unregistered_type_is_refused() {
    let mut ctx = IoServerContext::default();
    let _ = process_messages(IoServerType::Init, &mut ctx, INIT);
    let reply = process_messages(
        IoServerType::Init,
        &mut ctx,
        r#"{"src":"c1","dest":"n1","body":{"type":"echo","msg_id":9,"echo":"x"}}"#,
    );
    assert!(reply.contains("No handler found for request type"));
    assert!(reply.contains("1008"));
}

#[test]
fn requests_before_init_are_refused() {
    let mut ctx = IoServerContext::default();
    let reply = process_messages(
        IoServerType::Echo,
        &mut ctx,
        r#"{"src":"c1","dest":"n1","body":{"type":"echo","msg_id":9,"echo":"x"}}"#,
    );
    assert!(reply.contains("1004"));
}

#[test]
fn second_init_is_refused() {
    let mut ctx = IoServerContext::default();
    let _ = process_messages(IoServerType::Echo, &mut ctx, INIT);
    let reply = process_messages(IoServerType::Echo, &mut ctx, INIT);
    assert!(reply.contains("1003"));
}

#[test]
fn outbound_msg_ids_strictly_increase() {
    let mut ctx = IoServerContext::default();
    let mut last: u64 = 0;
    let _ = process_messages(IoServerType::Echo, &mut ctx, INIT);
    for i in 0..5u64 {
        let line = format!(
            "{{\"src\":\"c2\",\"dest\":\"n1\",\"body\":{{\"type\":\"echo\",\"msg_id\":{},\"echo\":\"x\"}}}}",
            100 + i
        );
        let reply = process_messages(IoServerType::Echo, &mut ctx, &line);
        let id = num(&body_fields(&reply), "msg_id");
        assert!(id > last, "msg_id must be strictly increasing");
        last = id;
    }
}

#[test]
fn generate_returns_distinct_ids() {
    let mut ctx = IoServerContext::default();
    let _ = process_messages(IoServerType::Generate, &mut ctx, INIT);
    let mut ids: Vec<String> = Vec::new();
    for i in 0..8u64 {
        let line = format!(
            "{{\"src\":\"c5\",\"dest\":\"n1\",\"body\":{{\"type\":\"generate\",\"msg_id\":{}}}}}",
            40 + i
        );
        let reply = process_messages(IoServerType::Generate, &mut ctx, &line);
        let b = body_fields(&reply);
        assert_eq!(tag(&b), "generate_ok");
        match field(&b, "id") {
            JsonValue::Str(s) => {
                assert_eq!(s.len(), 36);
                assert!(!ids.contains(s));
                ids.push(s.clone());
            }
            _ => panic!("an id is a string"),
        }
    }
}
