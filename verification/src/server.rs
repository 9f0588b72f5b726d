use vstd::prelude::*;
use vstd::utf8::*;

use crate::codec::{b64_decode, base64_standard_decode};
use crate::config::{RateLimitConfig, RelayLimits, RelayMode};
use crate::error::{EnigmaRelayError, Result};
use crate::model::{
    AckEntry, AckResponse, DeliveryItem, PullResponse, PushRequest, PushRequestView, PushResponse,
};
use crate::store::{AckItem, AckOutcome, InboundMessage, InboundMessageView, PullBatch, PushResult, QueueMessage};
use crate::text::{is_blank, is_blank_spec};
use crate::ttl::now_millis;

verus! {

// The decisions that the HTTP handlers make around the store: checking and
// shaping requests, and shaping replies.

/// The first rule that a push request breaks, as the message reported for
/// it, or `None`.
pub open spec fn push_problem(body: PushRequestView, limits: RelayLimits) -> Option<Seq<char>> {
    if is_blank_spec(body.recipient) {
        Some("recipient required"@)
    } else if body.meta.chunk_count == 0 {
        Some("chunk_count must be positive"@)
    } else if body.meta.chunk_index >= body.meta.chunk_count {
        Some("chunk_index out of range"@)
    } else if is_blank_spec(body.meta.kind) {
        Some("kind required"@)
    } else {
        match base64_standard_decode(encode_utf8(body.ciphertext_b64)) {
            None => Some("invalid base64"@),
            Some(payload) => if payload.len() > limits.max_message_bytes {
                Some("message too large"@)
            } else {
                None
            },
        }
    }
}

/// The message that an acceptable push request becomes when it arrives at
/// `arrival_ms`: its payload size is the decoded ciphertext's, and it expires
/// the message TTL later (both saturating).
pub open spec fn inbound_of(body: PushRequestView, limits: RelayLimits, arrival_ms: u64) -> InboundMessageView {
    InboundMessageView {
        recipient: body.recipient,
        message_id: body.message_id,
        ciphertext_b64: body.ciphertext_b64,
        meta: body.meta,
        payload_bytes: base64_standard_decode(encode_utf8(body.ciphertext_b64)).unwrap().len() as u64,
        arrival_ms,
        deadline_ms: arrival_ms.saturating_add(ttl_millis(limits.message_ttl_seconds)),
    }
}

/// The request names a recipient, a chunk within a positive chunk count,
/// and a kind.
pub open spec fn well_addressed(body: PushRequestView) -> bool {
    &&& !is_blank_spec(body.recipient)
    &&& body.meta.chunk_count > 0
    &&& body.meta.chunk_index < body.meta.chunk_count
    &&& !is_blank_spec(body.meta.kind)
}

/// The verdict on a well-addressed request's ciphertext: text that is not
/// Base64 is refused as such; otherwise the request is accepted exactly when
/// the decoded payload fits `max_message_bytes`, whatever the length of the
/// Base64 text, and an accepted message records the decoded size.
pub open spec fn size_verdict(body: PushRequestView, limits: RelayLimits, r: Result<InboundMessage>) -> bool {
    match base64_standard_decode(encode_utf8(body.ciphertext_b64)) {
        None => r matches Err(e) && (e matches EnigmaRelayError::InvalidInput(t) && t@ == "invalid base64"@),
        Some(payload) => {
            &&& (r is Ok <==> payload.len() <= limits.max_message_bytes)
            &&& r matches Ok(m) ==> m.payload_bytes == payload.len()
            &&& r is Err ==> (r matches Err(e) && (e matches EnigmaRelayError::InvalidInput(t) && t@
                == "message too large"@))
        },
    }
}

/// The size rule of a push: a request that breaks no other rule and whose
/// Base64 decodes to `payload` is accepted exactly when the payload is at
/// most `max_message_bytes` bytes, and is refused as too large exactly when
/// it is longer; the accepted message's size is the payload's.
pub proof fn lemma_push_size_rule(body: PushRequestView, limits: RelayLimits, payload: Seq<u8>, arrival_ms: u64)
    requires
        well_addressed(body),
        base64_standard_decode(encode_utf8(body.ciphertext_b64)) == Some(payload),
    ensures
        push_problem(body, limits) is None <==> payload.len() <= limits.max_message_bytes,
        push_problem(body, limits) == Some("message too large"@) <==> payload.len() > limits.max_message_bytes,
        push_problem(body, limits) is None ==> inbound_of(body, limits, arrival_ms).payload_bytes == payload.len(),
{
    reveal_strlit("message too large");
    reveal_strlit("invalid base64");
}

/// Only the decoded size counts: two requests alike but for their
/// ciphertexts, whose ciphertexts decode to payloads of the same length
/// (however long the Base64 texts), get the same verdict.
pub proof fn lemma_push_verdict_ignores_text_length(
    b1: PushRequestView,
    b2: PushRequestView,
    limits: RelayLimits,
    p1: Seq<u8>,
    p2: Seq<u8>,
)
    requires
        b1.recipient == b2.recipient,
        b1.meta == b2.meta,
        base64_standard_decode(encode_utf8(b1.ciphertext_b64)) == Some(p1),
        base64_standard_decode(encode_utf8(b2.ciphertext_b64)) == Some(p2),
        p1.len() == p2.len(),
    ensures
        push_problem(b1, limits) == push_problem(b2, limits),
{
}

/// A TTL in seconds as milliseconds, saturating at `u64::MAX` as
/// `saturating_mul` does.
pub open spec fn ttl_millis(seconds: u64) -> u64 {
    if seconds * 1000 > u64::MAX {
        u64::MAX
    } else {
        (seconds * 1000) as u64
    }
}

fn ttl_millis_exec(seconds: u64) -> (r: u64)
    ensures
        r == ttl_millis(seconds),
{
    match seconds.checked_mul(1000) {
        Some(v) => v,
        None => u64::MAX,
    }
}

fn invalid(msg: &str) -> (e: EnigmaRelayError)
    ensures
        e matches EnigmaRelayError::InvalidInput(m) && m@ == msg@,
{
    EnigmaRelayError::InvalidInput(msg.to_owned())
}

/// Checks a push request and turns it into the message to store, arriving
/// at `arrival_ms`.
pub fn build_inbound_message_at(body: PushRequest, limits: &RelayLimits, arrival_ms: u64) -> (r: Result<InboundMessage>)
    ensures
        match push_problem(body@, *limits) {
            Some(msg) => r matches Err(e) && (e matches EnigmaRelayError::InvalidInput(m) && m@ == msg),
            None => r matches Ok(m) && m@ == inbound_of(body@, *limits, arrival_ms),
        },
        r is Ok ==> well_addressed(body@),
        well_addressed(body@) ==> size_verdict(body@, *limits, r),
        r matches Ok(m) ==> m.arrival_ms == arrival_ms && m.deadline_ms == arrival_ms.saturating_add(
            ttl_millis(limits.message_ttl_seconds),
        ),
{
    if is_blank(body.recipient.as_str()) {
        return Err(invalid("recipient required"));
    }
    if body.meta.chunk_count == 0 {
        return Err(invalid("chunk_count must be positive"));
    }
    if body.meta.chunk_index >= body.meta.chunk_count {
        return Err(invalid("chunk_index out of range"));
    }
    if is_blank(body.meta.kind.as_str()) {
        return Err(invalid("kind required"));
    }
    let decoded = match b64_decode(body.ciphertext_b64.as_str().as_bytes()) {
        Some(d) => d,
        None => return Err(invalid("invalid base64")),
    };
    let payload_bytes = decoded.len() as u64;
    if payload_bytes > limits.max_message_bytes {
        return Err(invalid("message too large"));
    }
    let ttl_ms = ttl_millis_exec(limits.message_ttl_seconds);
    let deadline_ms = arrival_ms.saturating_add(ttl_ms);
    Ok(
        InboundMessage {
            recipient: body.recipient,
            message_id: body.message_id,
            ciphertext_b64: body.ciphertext_b64,
            meta: body.meta,
            payload_bytes,
            arrival_ms,
            deadline_ms,
        },
    )
}

/// Checks a push request and turns it into the message to store, arriving
/// now: the same as `build_inbound_message_at` at the current time.
pub fn build_inbound_message(body: PushRequest, limits: &RelayLimits) -> (r: Result<InboundMessage>)
    ensures
        match push_problem(body@, *limits) {
            Some(msg) => r matches Err(e) && (e matches EnigmaRelayError::InvalidInput(m) && m@ == msg),
            None => r matches Ok(m) && m@ == inbound_of(body@, *limits, m.arrival_ms),
        },
        r is Ok ==> well_addressed(body@),
        well_addressed(body@) ==> size_verdict(body@, *limits, r),
        r matches Ok(m) ==> m.deadline_ms == m.arrival_ms.saturating_add(
            ttl_millis(limits.message_ttl_seconds),
        ),
{
    let arrival_ms = now_millis();
    build_inbound_message_at(body, limits, arrival_ms)
}

/// A request that names no recipient is refused.
pub fn require_recipient(recipient: &str) -> (r: Result<()>)
    ensures
        r is Ok <==> !is_blank_spec(recipient@),
        r matches Err(e) ==> (e matches EnigmaRelayError::InvalidInput(m) && m@ == "recipient required"@),
{
    if is_blank(recipient) {
        return Err(invalid("recipient required"));
    }
    Ok(())
}

/// The page size of a pull: the requested maximum, or the configured one
/// when none is asked for; zero is refused; more than the configured maximum
/// is cut down to it.
pub fn pull_limit(requested: Option<u64>, pull_batch_max: u64) -> (r: Result<u64>)
    ensures
        ({
            let max = match requested {
                Some(m) => m,
                None => pull_batch_max,
            };
            &&& max == 0 ==> (r matches Err(e) && (e matches EnigmaRelayError::InvalidInput(m) && m@ == "max must be positive"@))
            &&& max != 0 ==> r == Ok::<u64, EnigmaRelayError>(if max < pull_batch_max { max } else { pull_batch_max })
        }),
{
    let max = match requested {
        Some(m) => m,
        None => pull_batch_max,
    };
    if max == 0 {
        return Err(invalid("max must be positive"));
    }
    Ok(if max < pull_batch_max { max } else { pull_batch_max })
}

/// The acknowledged chunks of an ack request, in order.
pub fn ack_items(entries: &Vec<AckEntry>) -> (r: Vec<AckItem>)
    ensures
        r@.len() == entries@.len(),
        forall|i: int| 0 <= i < r@.len() ==> (#[trigger] r@[i]).message_id == entries@[i].message_id
            && r@[i].chunk_index == entries@[i].chunk_index,
{
    let mut items: Vec<AckItem> = Vec::new();
    let mut i: usize = 0;
    while i < entries.len()
        invariant
            i <= entries@.len(),
            items@.len() == i,
            forall|j: int| 0 <= j < i ==> (#[trigger] items@[j]).message_id == entries@[j].message_id
                && items@[j].chunk_index == entries@[j].chunk_index,
        decreases entries@.len() - i,
    {
        items.push(AckItem { message_id: entries[i].message_id, chunk_index: entries[i].chunk_index });
        i = i + 1;
    }
    items
}

/// A queued message as delivered to the client.
pub fn to_delivery(msg: QueueMessage) -> (r: DeliveryItem)
    ensures
        r.recipient@ == msg.recipient@,
        r.message_id == msg.message_id,
        r.ciphertext_b64@ == msg.ciphertext_b64@,
        r.meta@ == msg.meta@,
        r.arrival_ms == msg.arrival_ms,
        r.deadline_ms == msg.deadline_ms,
{
    DeliveryItem {
        recipient: msg.recipient,
        message_id: msg.message_id,
        ciphertext_b64: msg.ciphertext_b64,
        meta: msg.meta,
        arrival_ms: msg.arrival_ms,
        deadline_ms: msg.deadline_ms,
    }
}

/// A page of the queue as sent to the client.
pub fn pull_response(batch: PullBatch) -> (r: PullResponse)
    ensures
        r.items@.len() == batch.items@.len(),
        forall|i: int| 0 <= i < r.items@.len() ==> {
            &&& (#[trigger] r.items@[i]).recipient@ == batch.items@[i].recipient@
            &&& r.items@[i].message_id == batch.items@[i].message_id
            &&& r.items@[i].ciphertext_b64@ == batch.items@[i].ciphertext_b64@
            &&& r.items@[i].meta@ == batch.items@[i].meta@
            &&& r.items@[i].arrival_ms == batch.items@[i].arrival_ms
            &&& r.items@[i].deadline_ms == batch.items@[i].deadline_ms
        },
        r.next_cursor == batch.next_cursor,
        r.remaining_estimate == batch.remaining_estimate,
{
    let PullBatch { items: mut queued, next_cursor, remaining_estimate } = batch;
    let ghost all = queued@;
    let n = queued.len();
    let mut out: Vec<DeliveryItem> = Vec::new();
    let mut i: usize = 0;
    while i < n
        invariant
            i <= n,
            n == all.len(),
            queued@ == all.subrange(i as int, n as int),
            out@.len() == i,
            forall|j: int| 0 <= j < i ==> {
                &&& (#[trigger] out@[j]).recipient@ == all[j].recipient@
                &&& out@[j].message_id == all[j].message_id
                &&& out@[j].ciphertext_b64@ == all[j].ciphertext_b64@
                &&& out@[j].meta@ == all[j].meta@
                &&& out@[j].arrival_ms == all[j].arrival_ms
                &&& out@[j].deadline_ms == all[j].deadline_ms
            },
        decreases n - i,
    {
        let msg = queued.remove(0);
        assert(msg == all[i as int]);
        assert(queued@ =~= all.subrange(i + 1, n as int));
        out.push(to_delivery(msg));
        i = i + 1;
    }
    PullResponse { items: out, next_cursor, remaining_estimate }
}

/// The reply to a push.
pub fn push_response(result: PushResult) -> (r: PushResponse)
    ensures
        r.stored == result.stored,
        r.duplicate == result.duplicate,
        r.queue_len == Some(result.queue_len),
        r.queue_bytes == Some(result.queue_bytes),
{
    PushResponse {
        stored: result.stored,
        duplicate: result.duplicate,
        queue_len: Some(result.queue_len),
        queue_bytes: Some(result.queue_bytes),
    }
}

/// The reply to an acknowledgement.
pub fn ack_response(outcome: AckOutcome) -> (r: AckResponse)
    ensures
        r.deleted == outcome.deleted,
        r.missing == outcome.missing,
        r.remaining == outcome.remaining,
{
    AckResponse { deleted: outcome.deleted, missing: outcome.missing, remaining: outcome.remaining }
}

/// The requests per second allowed on an endpoint: its own limit for
/// `push`, `pull` and `ack`, the per-IP limit for anything else.
pub fn endpoint_rps(cfg: &RateLimitConfig, label: &str) -> (r: u32)
    ensures
        r == if label@ == "push"@ {
            cfg.endpoints.push_rps
        } else if label@ == "pull"@ {
            cfg.endpoints.pull_rps
        } else if label@ == "ack"@ {
            cfg.endpoints.ack_rps
        } else {
            cfg.per_ip_rps
        },
{
    if crate::text::same_text(label, "push") {
        cfg.endpoints.push_rps
    } else if crate::text::same_text(label, "pull") {
        cfg.endpoints.pull_rps
    } else if crate::text::same_text(label, "ack") {
        cfg.endpoints.ack_rps
    } else {
        cfg.per_ip_rps
    }
}

/// The URL scheme under which the relay is reached.
pub fn url_scheme(mode: RelayMode) -> (r: &'static str)
    ensures
        mode == RelayMode::Http ==> r@ == "http"@,
        mode == RelayMode::Tls ==> r@ == "https"@,
{
    match mode {
        RelayMode::Http => "http",
        RelayMode::Tls => "https",
    }
}

} // verus!
