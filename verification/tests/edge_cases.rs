//! Edge cases: extreme values, degenerate inputs, and text the codec must
//! refuse.

use maelstrom_lib::json::{parse_text, to_text, JsonValue};
use maelstrom_lib::server::router::process_messages;
use maelstrom_lib::server::stdio::{IoServerContext, IoServerType};

fn body_fields(line: &str) -> Vec<(String, JsonValue)> {
    match parse_text(line).expect("valid JSON") {
        JsonValue::Obj(fields) => {
            for (k, w) in fields {
                if k == "body" {
                    match w {
                        JsonValue::Obj(bf) => return bf,
                        _ => panic!("a body is an object"),
                    }
                }
            }
            panic!("no body")
        }
        _ => panic!("not an object"),
    }
}

fn field<'a>(fields: &'a [(String, JsonValue)], name: &str) -> &'a JsonValue {
    for (k, w) in fields {
        if k == name {
            return w;
        }
    }
    panic!("missing field");
}

const INIT: &str = r#"{"src":"c2","dest":"n1","body":{"type":"init","msg_id":4,"node_id":"n1","node_ids":["n1","c2"]}}"#;

#[test]
fn the_largest_value_survives_a_broadcast() {
    let mut ctx = IoServerContext::default();
    let _ = process_messages(IoServerType::Broadcast, &mut ctx, INIT);
    let line = format!(
        "{{\"src\":\"c2\",\"dest\":\"n1\",\"body\":{{\"type\":\"broadcast\",\"msg_id\":7,\"message\":{}}}}}",
        u64::MAX
    );
    let _ = process_messages(IoServerType::Broadcast, &mut ctx, &line);
    let r = process_messages(
        IoServerType::Broadcast,
        &mut ctx,
        r#"{"src":"c2","dest":"n1","body":{"type":"read","msg_id":8}}"#,
    );
    match field(&body_fields(&r), "messages") {
        JsonValue::Arr(items) => {
            assert_eq!(items.len(), 1);
            assert!(matches!(items[0], JsonValue::Num(u64::MAX)));
        }
        _ => panic!("messages is an array"),
    }
}

#[test]
fn a_zero_delta_is_a_legal_no_op() {
    let mut ctx = IoServerContext::default();
    let _ = process_messages(IoServerType::Gcounter, &mut ctx, INIT);
    let a = process_messages(
        IoServerType::Gcounter,
        &mut ctx,
        r#"{"src":"c2","dest":"n1","body":{"type":"add","msg_id":2,"delta":0}}"#,
    );
    assert!(a.contains("add_ok"));
    let r = process_messages(
        IoServerType::Gcounter,
        &mut ctx,
        r#"{"src":"c2","dest":"n1","body":{"type":"read","msg_id":3}}"#,
    );
    assert!(matches!(field(&body_fields(&r), "value"), JsonValue::Num(0)));
}

#[test]
fn sync_values_are_deduplicated_and_sorted() {
    let mut ctx = IoServerContext::default();
    let _ = process_messages(IoServerType::Broadcast, &mut ctx, INIT);
    let _ = process_messages(
        IoServerType::Broadcast,
        &mut ctx,
        r#"{"src":"c2","dest":"n1","body":{"msg_id":5,"type":"sync","messages":[5,1,5,3,1]}}"#,
    );
    let r = process_messages(
        IoServerType::Broadcast,
        &mut ctx,
        r#"{"src":"c2","dest":"n1","body":{"type":"read","msg_id":6}}"#,
    );
    match field(&body_fields(&r), "messages") {
        JsonValue::Arr(items) => {
            let got: Vec<u64> = items
                .iter()
                .map(|v| match v {
                    JsonValue::Num(n) => *n,
                    _ => panic!("numbers"),
                })
                .collect();
            assert_eq!(got, vec![1, 3, 5]);
        }
        _ => panic!("messages is an array"),
    }
}

#[test]
fn a_topology_without_this_node_changes_nothing() {
    let mut ctx = IoServerContext::default();
    let _ = process_messages(IoServerType::Broadcast, &mut ctx, INIT);
    let before: Vec<String> = ctx.neighbors().clone();
    let t = process_messages(
        IoServerType::Broadcast,
        &mut ctx,
        r#"{"src":"c2","dest":"n1","body":{"msg_id":5,"type":"topology","topology":{"n9":["n8"]}}}"#,
    );
    assert!(t.contains("topology_ok"));
    assert_eq!(ctx.neighbors(), &before);
}

#[test]
fn init_drops_duplicates_and_self() {
    let mut ctx = IoServerContext::default();
    let _ = process_messages(
        IoServerType::Broadcast,
        &mut ctx,
        r#"{"src":"c2","dest":"n1","body":{"type":"init","msg_id":1,"node_id":"n1","node_ids":["n2","n1","n2","n3"]}}"#,
    );
    let names: Vec<String> = ctx.neighbors().clone();
    assert_eq!(names, vec!["n2".to_string(), "n3".to_string()]);
}

#[test]
fn duplicate_counter_sync_is_harmless() {
    let mut ctx = IoServerContext::default();
    let _ = process_messages(IoServerType::Gcounter, &mut ctx, INIT);
    let _ = process_messages(
        IoServerType::Gcounter,
        &mut ctx,
        r#"{"src":"c2","dest":"n1","body":{"type":"add","msg_id":2,"delta":3}}"#,
    );
    let sync = r#"{"src":"n2","dest":"n1","body":{"msg_id":4,"type":"sync_counter","messages":{"n2":7,"n3":5}}}"#;
    let _ = process_messages(IoServerType::Gcounter, &mut ctx, sync);
    let once: Vec<(String, u64)> = ctx.node_counters().clone();
    let counter_once = ctx.counter;
    let _ = process_messages(IoServerType::Gcounter, &mut ctx, sync);
    assert_eq!(ctx.node_counters(), &once, "a replayed delivery changes nothing");
    assert_eq!(ctx.counter, counter_once);
}

#[test]
fn the_codec_refuses_what_it_cannot_model() {
    assert!(parse_text("-5").is_none(), "negative numbers are not modeled");
    assert!(parse_text("1.5").is_none(), "fractions are not modeled");
    assert!(parse_text("\"a\\nb\"").is_none(), "escapes are not handled");
    assert!(parse_text("[1,]").is_none(), "trailing commas are refused");
    assert!(parse_text("{\"a\":1 \"b\":2}").is_none(), "a separator is required");
    assert!(parse_text("18446744073709551616").is_none(), "too large for a u64");
    assert!(parse_text("18446744073709551615").is_some(), "the largest u64 is fine");
}

#[test]
fn nested_documents_round_trip() {
    let text = r#"{"a":[1,true,null,"x",{"b":[]},[]],"c":{"d":{"e":0}},"f":false}"#;
    let v = parse_text(text).expect("parses");
    let out = to_text(&v);
    let v2 = parse_text(&out).expect("parses again");
    assert_eq!(v, v2);
    assert_eq!(out, text.to_string());
}
