use base64::engine::general_purpose::STANDARD;
use base64::Engine;
use enigma_relay::config::{RelayConfig, RelayLimits};
use enigma_relay::error::EnigmaRelayError;
use enigma_relay::model::{MessageMeta, PushRequest};
use enigma_relay::server::{build_inbound_message_at, pull_limit};
use enigma_relay::store::{AckItem, InboundMessage, PushResult};
use enigma_relay::store_mem::MemStore;

fn limits() -> RelayLimits {
    RelayConfig::default().relay
}

fn push_body(recipient: &str, id: u128, chunk_index: u32, chunk_count: u32, payload: &str) -> PushRequest {
    PushRequest {
        recipient: recipient.to_string(),
        message_id: id,
        ciphertext_b64: STANDARD.encode(payload.as_bytes()),
        meta: MessageMeta {
            kind: "msg".to_string(),
            total_len: payload.len() as u64,
            chunk_index,
            chunk_count,
            sent_ms: 0,
        },
    }
}

fn inbound(body: PushRequest, limits: &RelayLimits, now: u64) -> InboundMessage {
    build_inbound_message_at(body, limits, now).unwrap()
}

fn push(store: &mut MemStore, body: PushRequest, limits: &RelayLimits, now: u64) -> Result<PushResult, EnigmaRelayError> {
    store.push(inbound(body, limits, now), limits)
}

fn ids(store: &mut MemStore, recipient: &str, max: u64, now: u64) -> Vec<u128> {
    let batch = store.pull(recipient, None, max, now).unwrap();
    batch.items.iter().map(|m| m.message_id).collect()
}

fn ack_all(store: &mut MemStore, recipient: &str, items: Vec<(u128, u32)>) -> (u64, u64, u64) {
    let items = items
        .into_iter()
        .map(|(message_id, chunk_index)| AckItem { message_id, chunk_index })
        .collect();
    let o = store.ack(recipient, items).unwrap();
    (o.deleted, o.missing, o.remaining)
}

#[test]
fn push_then_pull_returns_items_in_order() {
    let l = limits();
    let mut store = MemStore::new();
    push(&mut store, push_body("alice", 1, 0, 1, "one"), &l, 1000).unwrap();
    push(&mut store, push_body("alice", 2, 0, 1, "two"), &l, 1001).unwrap();
    push(&mut store, push_body("alice", 3, 0, 1, "three"), &l, 1002).unwrap();
    let got = ids(&mut store, "alice", 10, 2000);
    assert_eq!(got.len(), 3);
    assert_eq!(got, vec![1, 2, 3]);
    let (deleted, _, _) = ack_all(&mut store, "alice", vec![(1, 0), (2, 0), (3, 0)]);
    assert_eq!(deleted, 3);
    assert!(ids(&mut store, "alice", 10, 2000).is_empty());
}

#[test]
fn duplicate_push_is_idempotent() {
    let l = limits();
    let mut store = MemStore::new();
    let first = push(&mut store, push_body("bob", 7, 0, 1, "payload"), &l, 10).unwrap();
    assert!(first.stored);
    assert!(!first.duplicate);
    let second = push(&mut store, push_body("bob", 7, 0, 1, "payload"), &l, 11).unwrap();
    assert!(!second.stored);
    assert!(second.duplicate);
    assert_eq!(second.queue_len, 1);
    assert_eq!(second.queue_bytes, 7);
}

#[test]
fn ack_deletes_and_is_idempotent() {
    let l = limits();
    let mut store = MemStore::new();
    push(&mut store, push_body("carol", 9, 0, 1, "payload"), &l, 10).unwrap();
    let (deleted, missing, remaining) = ack_all(&mut store, "carol", vec![(9, 0)]);
    assert_eq!(deleted, 1);
    assert_eq!(missing, 0);
    assert_eq!(remaining, 0);
    let (deleted, missing, _) = ack_all(&mut store, "carol", vec![(9, 0)]);
    assert_eq!(deleted, 0);
    assert_eq!(missing, 1);
}

#[test]
fn quota_blocks_when_exceeded() {
    let mut l = limits();
    l.max_messages_per_user = 1;
    l.max_queue_bytes_per_user = 32;
    let mut store = MemStore::new();
    push(&mut store, push_body("dave", 1, 0, 1, "one"), &l, 10).unwrap();
    let err = push(&mut store, push_body("dave", 2, 0, 1, "two"), &l, 11).unwrap_err();
    assert!(matches!(err, EnigmaRelayError::QuotaExceeded));
    assert_eq!(err.status_code(), 409);
    assert_eq!(err.into_response().error.code, "quota_exceeded");
    assert_eq!(ids(&mut store, "dave", 10, 20).len(), 1);
}

#[test]
fn quota_counts_bytes_too() {
    let mut l = limits();
    l.max_queue_bytes_per_user = 5;
    let mut store = MemStore::new();
    let r = push(&mut store, push_body("dave", 1, 0, 1, "abc"), &l, 10).unwrap();
    assert_eq!(r.queue_bytes, 3);
    let err = push(&mut store, push_body("dave", 2, 0, 1, "abc"), &l, 11).unwrap_err();
    assert!(matches!(err, EnigmaRelayError::QuotaExceeded));
    let r = push(&mut store, push_body("dave", 3, 0, 1, "ab"), &l, 12).unwrap();
    assert!(r.stored);
    assert_eq!(r.queue_len, 2);
    assert_eq!(r.queue_bytes, 5);
}

#[test]
fn ttl_gc_removes_expired() {
    let mut l = limits();
    l.message_ttl_seconds = 1;
    let mut store = MemStore::new();
    let msg = inbound(push_body("erin", 5, 0, 1, "ttl"), &l, 10_000);
    assert_eq!(msg.deadline_ms, 11_000);
    store.push(msg, &l).unwrap();
    assert_eq!(store.purge_expired(10_500, 1024), 0);
    assert_eq!(store.purge_expired(11_500, 1024), 1);
    assert!(ids(&mut store, "erin", 10, 11_500).is_empty());
}

#[test]
fn pull_skips_and_drops_expired() {
    let mut l = limits();
    l.message_ttl_seconds = 1;
    let mut store = MemStore::new();
    push(&mut store, push_body("erin", 1, 0, 1, "a"), &l, 1_000).unwrap();
    push(&mut store, push_body("erin", 2, 0, 1, "b"), &l, 5_000).unwrap();
    let batch = store.pull("erin", None, 10, 3_000).unwrap();
    assert_eq!(batch.items.len(), 1);
    assert_eq!(batch.items[0].message_id, 2);
    assert_eq!(batch.remaining_estimate, 0);
    // the expired message left the index too: it can be pushed again
    let again = push(&mut store, push_body("erin", 1, 0, 1, "a"), &l, 3_000).unwrap();
    assert!(again.stored);
}

#[test]
fn random_chunk_indices_preserve_arrival_order() {
    let l = limits();
    let mut store = MemStore::new();
    let mut expected = Vec::new();
    let mut state: u64 = 12345;
    for i in 0..50u128 {
        state = state.wrapping_mul(6364136223846793005).wrapping_add(1442695040888963407);
        let chunk_index = ((state >> 33) % 5) as u32;
        let id = 1000 + i;
        expected.push(id);
        push(&mut store, push_body("gina", id, chunk_index, 5, &format!("chunk-{i}")), &l, 100).unwrap();
    }
    let got = ids(&mut store, "gina", 100, 200);
    assert_eq!(got.len(), 50);
    assert_eq!(got, expected);
}

#[test]
fn paging_walks_all_envelopes() {
    let l = limits();
    let mut store = MemStore::new();
    for i in 0..200u128 {
        push(&mut store, push_body("bob", i, 0, 1, &format!("msg-{i}")), &l, 100).unwrap();
    }
    let mut cursor: Option<String> = None;
    let mut received: Vec<u128> = Vec::new();
    let mut pages = 0;
    loop {
        let batch = store.pull("bob", cursor.clone(), 50, 200).unwrap();
        received.extend(batch.items.iter().map(|m| m.message_id));
        pages += 1;
        cursor = batch.next_cursor;
        if cursor.is_none() {
            break;
        }
    }
    assert_eq!(received.len(), 200);
    assert_eq!(received, (0..200u128).collect::<Vec<_>>());
    assert_eq!(pages, 4);
}

#[test]
fn push_pull_ack_flow() {
    let l = limits();
    let mut store = MemStore::new();
    for i in 1..=3u128 {
        let r = push(&mut store, push_body("alice", i, 0, 1, &format!("payload-{i}")), &l, 100).unwrap();
        assert!(r.stored);
    }
    let batch = store.pull("alice", None, 10, 100).unwrap();
    assert_eq!(batch.items.len(), 3);
    let acks: Vec<(u128, u32)> = batch.items.iter().map(|m| (m.message_id, m.meta.chunk_index)).collect();
    let (deleted, _, _) = ack_all(&mut store, "alice", acks);
    assert_eq!(deleted, 3);
    assert_eq!(store.pull("alice", None, 10, 100).unwrap().items.len(), 0);
}

#[test]
fn expired_envelopes_are_purged() {
    let mut l = limits();
    l.message_ttl_seconds = 10;
    let mut store = MemStore::new();
    push(&mut store, push_body("carol", 1, 0, 1, "ttl-1"), &l, 0).unwrap();
    push(&mut store, push_body("carol", 2, 0, 1, "ttl-2"), &l, 10_000).unwrap();
    assert_eq!(store.purge_expired(10_030, 1024), 1);
    let batch = store.pull("carol", None, 10, 10_030).unwrap();
    assert_eq!(batch.items.len(), 1);
    assert_eq!(batch.items[0].message_id, 2);
}

#[test]
fn invalid_inputs_are_rejected() {
    let l = limits();
    let mut store = MemStore::new();
    push(&mut store, push_body("dave", 1, 0, 1, "one"), &l, 0).unwrap();
    let bad = store.pull("dave", Some("not-a-cursor!".to_string()), 10, 0).unwrap_err();
    assert!(matches!(bad, EnigmaRelayError::InvalidInput(ref m) if m == "invalid cursor"));
    assert_eq!(bad.status_code(), 400);
    let mut body = push_body("dave", 3, 0, 1, "x");
    body.ciphertext_b64 = "%%%".to_string();
    match build_inbound_message_at(body, &l, 0) {
        Err(EnigmaRelayError::InvalidInput(m)) => assert_eq!(m, "invalid base64"),
        other => panic!("unexpected {:?}", other.map(|m| m.payload_bytes)),
    }
    let mut many = MemStore::new();
    for i in 0..200u128 {
        push(&mut many, push_body("dave", i, 0, 1, &format!("msg-{i}")), &l, 0).unwrap();
    }
    let limit = pull_limit(Some(10_000), 300).unwrap();
    assert_eq!(limit, 300);
    let batch = many.pull("dave", None, limit, 0).unwrap();
    assert_eq!(batch.items.len(), 200);
    assert!(batch.next_cursor.is_none());
}

#[test]
fn unknown_recipient_pull_and_ack() {
    let mut store = MemStore::new();
    let batch = store.pull("nobody", Some("garbage".to_string()), 10, 0).unwrap();
    assert!(batch.items.is_empty());
    assert!(batch.next_cursor.is_none());
    assert_eq!(batch.remaining_estimate, 0);
    let (deleted, missing, remaining) = ack_all(&mut store, "nobody", vec![(1, 0), (1, 0)]);
    assert_eq!((deleted, missing, remaining), (0, 2, 0));
}

#[test]
fn ack_counts_repeats_once() {
    let l = limits();
    let mut store = MemStore::new();
    push(&mut store, push_body("hank", 1, 0, 2, "a"), &l, 0).unwrap();
    push(&mut store, push_body("hank", 1, 1, 2, "b"), &l, 0).unwrap();
    let (deleted, missing, remaining) = ack_all(&mut store, "hank", vec![(1, 0), (1, 0), (2, 0)]);
    assert_eq!((deleted, missing, remaining), (1, 1, 1));
}

#[test]
fn refused_push_still_registers_recipient() {
    let mut l = limits();
    l.max_messages_per_user = 0;
    let mut store = MemStore::new();
    assert!(push(&mut store, push_body("ivy", 1, 0, 1, "a"), &l, 0).is_err());
    let (deleted, missing, remaining) = ack_all(&mut store, "ivy", vec![(1, 0), (1, 0)]);
    assert_eq!((deleted, missing, remaining), (0, 1, 0));
}

#[test]
fn cursor_of_other_recipient_is_rejected() {
    let l = limits();
    let mut store = MemStore::new();
    for i in 0..3u128 {
        push(&mut store, push_body("jack", i, 0, 1, "x"), &l, 0).unwrap();
        push(&mut store, push_body("kate", i, 0, 1, "x"), &l, 0).unwrap();
    }
    let page = store.pull("jack", None, 1, 0).unwrap();
    let cursor = page.next_cursor.unwrap();
    match store.pull("kate", Some(cursor.clone()), 1, 0) {
        Err(EnigmaRelayError::InvalidInput(m)) => assert_eq!(m, "cursor recipient mismatch"),
        other => panic!("unexpected {:?}", other.map(|b| b.items.len())),
    }
    let next = store.pull("jack", Some(cursor), 10, 0).unwrap();
    let got: Vec<u128> = next.items.iter().map(|m| m.message_id).collect();
    assert_eq!(got, vec![1, 2]);
    assert_eq!(next.remaining_estimate, 1);
}

#[test]
fn gc_respects_budget_and_order() {
    let mut l = limits();
    l.message_ttl_seconds = 1;
    let mut store = MemStore::new();
    for i in 0..3u128 {
        push(&mut store, push_body("zed", i, 0, 1, "x"), &l, 0).unwrap();
        push(&mut store, push_body("amy", i, 0, 1, "x"), &l, 0).unwrap();
    }
    assert_eq!(store.purge_expired(5_000, 4), 4);
    // "amy" sorts first, so all of hers went and one of zed's
    assert!(ids(&mut store, "amy", 10, 0).is_empty());
    assert_eq!(ids(&mut store, "zed", 10, 0), vec![1, 2]);
    assert_eq!(store.purge_expired(5_000, 0), 0);
    assert_eq!(store.purge_expired(5_000, 5000), 2);
}

#[test]
fn quotas_follow_the_queue_through_every_operation() {
    let mut l = limits();
    l.message_ttl_seconds = 1;
    let mut store = MemStore::new();
    push(&mut store, push_body("hana", 1, 0, 2, "abcd"), &l, 1_000).unwrap();
    push(&mut store, push_body("hana", 1, 1, 2, "ef"), &l, 1_000).unwrap();
    let r = push(&mut store, push_body("hana", 2, 0, 1, "ghi"), &l, 5_000).unwrap();
    assert_eq!((r.queue_len, r.queue_bytes), (3, 9));
    // acknowledging one chunk releases its message and its bytes
    assert_eq!(ack_all(&mut store, "hana", vec![(1, 1), (1, 1), (7, 0)]), (1, 1, 2));
    // a pull drops the expired chunk from the queue and the quotas
    let batch = store.pull("hana", None, 10, 3_000).unwrap();
    assert_eq!(batch.items.len(), 1);
    assert_eq!(batch.remaining_estimate, 0);
    let again = push(&mut store, push_body("hana", 3, 0, 1, "j"), &l, 3_000).unwrap();
    assert_eq!((again.queue_len, again.queue_bytes), (2, 4));
}

#[test]
fn paging_past_expired_messages_sees_each_live_one_once() {
    let mut l = limits();
    l.message_ttl_seconds = 1;
    let mut store = MemStore::new();
    for i in 0..10u128 {
        let at = if i % 2 == 0 { 0 } else { 5_000 };
        push(&mut store, push_body("ivan", i, 0, 1, "x"), &l, at).unwrap();
    }
    let mut cursor: Option<String> = None;
    let mut received: Vec<u128> = Vec::new();
    loop {
        let batch = store.pull("ivan", cursor.clone(), 2, 2_000).unwrap();
        received.extend(batch.items.iter().map(|m| m.message_id));
        cursor = batch.next_cursor;
        if cursor.is_none() {
            break;
        }
    }
    assert_eq!(received, vec![1, 3, 5, 7, 9]);
}

#[test]
fn gc_removes_expired_messages_behind_a_live_one() {
    let mut l = limits();
    l.message_ttl_seconds = 10;
    let mut store = MemStore::new();
    // a live message (deadline 10 000 + 10 000) ahead of an expired one (deadline 10)
    push(&mut store, push_body("carol", 1, 0, 1, "live"), &l, 10_000).unwrap();
    let early = inbound(push_body("carol", 2, 0, 1, "old"), &l, 0);
    let mut early = early;
    early.deadline_ms = 10;
    store.push(early, &l).unwrap();
    assert_eq!(store.purge_expired(30, 1024), 1);
    let batch = store.pull("carol", None, 10, 30).unwrap();
    assert_eq!(batch.items.len(), 1);
    assert_eq!(batch.items[0].message_id, 1);
    assert_eq!(batch.remaining_estimate, 0);
    assert_eq!(store.purge_expired(30, 1024), 0);
}

#[test]
fn arrival_order_is_not_id_order() {
    let l = limits();
    let mut store = MemStore::new();
    let ids_in = [0xffff_0000u128, 7, 0x1234_5678_9abc, 3, 0x8000_0000_0000_0000_0000_0000_0000_0000];
    for (k, id) in ids_in.iter().enumerate() {
        push(&mut store, push_body("jo", *id, 0, 1, "x"), &l, 100 + k as u64).unwrap();
    }
    assert_eq!(ids(&mut store, "jo", 10, 200), ids_in.to_vec());
}
