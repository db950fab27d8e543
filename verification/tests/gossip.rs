//! The anti-entropy loops: flushing queues, publishing counters, and the
//! convergence they buy.

use maelstrom_lib::json::{parse_text, JsonValue};
use maelstrom_lib::server::router::process_messages;
use maelstrom_lib::server::stdio::{
    deliver_counters, retry_sync_messages, sync_messages, IoServerContext, IoServerType,
};

fn init_line(me: &str, others: &[&str]) -> String {
    let mut ids = format!("\"{me}\"");
    for o in others {
        ids.push_str(&format!(",\"{o}\""));
    }
    format!(
        "{{\"src\":\"c2\",\"dest\":\"{me}\",\"body\":{{\"type\":\"init\",\"msg_id\":1,\"node_id\":\"{me}\",\"node_ids\":[{ids}]}}}}"
    )
}

fn body_fields(line: &str) -> Vec<(String, JsonValue)> {
    let v = parse_text(line).expect("valid JSON");
    match v {
        JsonValue::Obj(fields) => {
            for (k, w) in fields {
                if k == "body" {
                    match w {
                        JsonValue::Obj(bf) => return bf,
                        _ => panic!("a body is an object"),
                    }
                }
            }
            panic!("no body")
        }
        _ => panic!("not an object"),
    }
}

fn dest_of(line: &str) -> String {
    match parse_text(line).expect("valid JSON") {
        JsonValue::Obj(fields) => {
            for (k, w) in fields {
                if k == "dest" {
                    match w {
                        JsonValue::Str(s) => return s,
                        _ => panic!("dest is a string"),
                    }
                }
            }
            panic!("no dest")
        }
        _ => panic!("not an object"),
    }
}

#[test]
fn broadcast_flush_drains_the_queues() {
    let mut ctx = IoServerContext::default();
    let _ = process_messages(IoServerType::Broadcast, &mut ctx, &init_line("n1", &["n2"]));
    let _ = process_messages(
        IoServerType::Broadcast,
        &mut ctx,
        r#"{"src":"c2","dest":"n1","body":{"type":"broadcast","msg_id":42,"message":7}}"#,
    );
    let (lines, remaining) = sync_messages(&mut ctx, 125);
    assert_eq!(remaining, 0);
    assert_eq!(lines.len(), 1);
    assert_eq!(dest_of(&lines[0]), "n2");
    let b = body_fields(&lines[0]);
    let mut saw_sync = false;
    let mut saw_seven = false;
    for (k, w) in &b {
        match (k.as_str(), w) {
            ("type", JsonValue::Str(s)) => {
                assert_eq!(s, "sync");
                saw_sync = true;
            }
            ("messages", JsonValue::Arr(items)) => {
                assert_eq!(items.len(), 1);
                saw_seven = matches!(items[0], JsonValue::Num(7));
            }
            ("in_reply_to", _) => panic!("gossip carries no in_reply_to"),
            _ => {}
        }
    }
    assert!(saw_sync && saw_seven);
    // once drained, the next tick has nothing to send
    let (more, rest) = retry_sync_messages(&mut ctx, 250);
    assert_eq!(rest, 0);
    assert!(more.is_empty());
}

#[test]
fn counter_gossip_reaches_every_neighbor() {
    let mut ctx = IoServerContext::default();
    let _ = process_messages(
        IoServerType::Gcounter,
        &mut ctx,
        &init_line("n1", &["n2", "n3"]),
    );
    // no counters yet: nothing goes out
    let silent = deliver_counters(&mut ctx);
    assert!(silent.is_empty());
    let _ = process_messages(
        IoServerType::Gcounter,
        &mut ctx,
        r#"{"src":"c2","dest":"n1","body":{"type":"add","msg_id":2,"delta":5}}"#,
    );
    let lines = deliver_counters(&mut ctx);
    assert_eq!(lines.len(), 2);
    let dests: Vec<String> = lines.iter().map(|l| dest_of(l)).collect();
    assert_eq!(dests, vec!["n2".to_string(), "n3".to_string()]);
    for line in &lines {
        let b = body_fields(line);
        let mut saw_vector = false;
        for (k, w) in &b {
            if k == "messages" {
                match w {
                    JsonValue::Obj(entries) => {
                        assert_eq!(entries.len(), 1);
                        assert_eq!(entries[0].0, "n1");
                        assert!(matches!(entries[0].1, JsonValue::Num(5)));
                        saw_vector = true;
                    }
                    _ => panic!("a counter vector is an object"),
                }
            }
        }
        assert!(saw_vector);
    }
}

fn messages_of(fields: &[(String, JsonValue)]) -> Vec<u64> {
    for (k, w) in fields {
        if k == "messages" {
            match w {
                JsonValue::Arr(items) => {
                    return items
                        .iter()
                        .map(|v| match v {
                            JsonValue::Num(n) => *n,
                            _ => panic!("numbers"),
                        })
                        .collect();
                }
                _ => panic!("messages is an array"),
            }
        }
    }
    panic!("no messages field")
}

/// The anti-entropy padding: what the neighbor is missing goes out
/// together with up to `max(10, |missing|/10)` values the neighbor is
/// already known to hold, smallest first.
#[test]
fn padding_cross_checks_known_values() {
    let mut ctx = IoServerContext::default();
    let _ = process_messages(IoServerType::Broadcast, &mut ctx, &init_line("n1", &["n2"]));
    // the peer asserts it holds 1, 2 and 3; nothing is missing, but the
    // cross-check padding queues those very values right back
    let _ = process_messages(
        IoServerType::Broadcast,
        &mut ctx,
        r#"{"src":"n2","dest":"n1","body":{"msg_id":9,"type":"sync","messages":[3,1,2]}}"#,
    );
    let (lines, _) = sync_messages(&mut ctx, 125);
    assert_eq!(lines.len(), 1);
    assert_eq!(messages_of(&body_fields(&lines[0])), vec![1, 2, 3]);
    // a new broadcast queues the missing value plus the known padding
    let _ = process_messages(
        IoServerType::Broadcast,
        &mut ctx,
        r#"{"src":"c2","dest":"n1","body":{"type":"broadcast","msg_id":10,"message":9}}"#,
    );
    let (lines, _) = sync_messages(&mut ctx, 250);
    assert_eq!(lines.len(), 1);
    assert_eq!(messages_of(&body_fields(&lines[0])), vec![1, 2, 3, 9]);
}

/// Carries every flushed `sync` line to the peer until both queues stay
/// empty; the two nodes must then hold the same values.
#[test]
fn gossip_converges_two_nodes() {
    let mut a = IoServerContext::default();
    let mut b = IoServerContext::default();
    let _ = process_messages(IoServerType::Broadcast, &mut a, &init_line("n1", &["n2"]));
    let _ = process_messages(IoServerType::Broadcast, &mut b, &init_line("n2", &["n1"]));
    let _ = process_messages(
        IoServerType::Broadcast,
        &mut a,
        r#"{"src":"c2","dest":"n1","body":{"type":"broadcast","msg_id":5,"message":11}}"#,
    );
    let _ = process_messages(
        IoServerType::Broadcast,
        &mut b,
        r#"{"src":"c2","dest":"n2","body":{"type":"broadcast","msg_id":6,"message":22}}"#,
    );
    // The padding heuristic keeps cross-check traffic flowing even at
    // quiescence, so the exchange is run for a fixed number of ticks;
    // the saved sets must agree by then.
    let mut now = 0u64;
    for _ in 0..10 {
        now += 125;
        let (from_a, _) = retry_sync_messages(&mut a, now);
        let (from_b, _) = retry_sync_messages(&mut b, now);
        for line in &from_a {
            let _ = process_messages(IoServerType::Broadcast, &mut b, line);
        }
        for line in &from_b {
            let _ = process_messages(IoServerType::Broadcast, &mut a, line);
        }
    }
    let read = r#"{"src":"c9","dest":"nx","body":{"type":"read","msg_id":99}}"#;
    let ra = process_messages(IoServerType::Broadcast, &mut a, read);
    let rb = process_messages(IoServerType::Broadcast, &mut b, read);
    let ma: Vec<(String, JsonValue)> = body_fields(&ra)
        .into_iter()
        .filter(|(k, _)| k == "messages")
        .collect();
    let mb: Vec<(String, JsonValue)> = body_fields(&rb)
        .into_iter()
        .filter(|(k, _)| k == "messages")
        .collect();
    assert_eq!(ma, mb);
    assert!(matches!(&ma[0].1, JsonValue::Arr(items) if items.len() == 2));
}
