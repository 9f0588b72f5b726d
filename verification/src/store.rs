use vstd::prelude::*;
use vstd::utf8::*;

use crate::codec::{
    b64_decode, b64_encode, base64_standard_decode, base64_standard_encode, push_char,
    string_from_utf8,
};
use crate::config::RelayLimits;
use crate::error::{EnigmaRelayError, Result};
use crate::model::{MessageMeta, MessageMetaView};
use crate::text::{
    dec_digits, lemma_dec_digits_len, lemma_parse_twenty_digits, parse_u64, parse_u64_spec,
    push_dec_digits,
};

verus! {

broadcast use {encode_utf8_valid_utf8, encode_utf8_decode_utf8};

/// A message accepted for a recipient, before the store gives it its place in
/// the queue.
#[derive(Debug)]
pub struct InboundMessage {
    pub recipient: String,
    pub message_id: u128,
    pub ciphertext_b64: String,
    pub meta: MessageMeta,
    pub payload_bytes: u64,
    pub arrival_ms: u64,
    pub deadline_ms: u64,
}

pub struct InboundMessageView {
    pub recipient: Seq<char>,
    pub message_id: u128,
    pub ciphertext_b64: Seq<char>,
    pub meta: MessageMetaView,
    pub payload_bytes: u64,
    pub arrival_ms: u64,
    pub deadline_ms: u64,
}

impl View for InboundMessage {
    type V = InboundMessageView;

    open spec fn view(&self) -> InboundMessageView {
        InboundMessageView {
            recipient: self.recipient@,
            message_id: self.message_id,
            ciphertext_b64: self.ciphertext_b64@,
            meta: self.meta@,
            payload_bytes: self.payload_bytes,
            arrival_ms: self.arrival_ms,
            deadline_ms: self.deadline_ms,
        }
    }
}

/// A queued message, with the arrival sequence number that orders its
/// recipient's queue.
#[derive(Debug)]
pub struct QueueMessage {
    pub recipient: String,
    pub message_id: u128,
    pub ciphertext_b64: String,
    pub meta: MessageMeta,
    pub arrival_ms: u64,
    pub deadline_ms: u64,
    pub payload_bytes: u64,
    pub arrival_seq: u64,
}

pub struct QueueMessageView {
    pub recipient: Seq<char>,
    pub message_id: u128,
    pub ciphertext_b64: Seq<char>,
    pub meta: MessageMetaView,
    pub arrival_ms: u64,
    pub deadline_ms: u64,
    pub payload_bytes: u64,
    pub arrival_seq: u64,
}

impl View for QueueMessage {
    type V = QueueMessageView;

    open spec fn view(&self) -> QueueMessageView {
        QueueMessageView {
            recipient: self.recipient@,
            message_id: self.message_id,
            ciphertext_b64: self.ciphertext_b64@,
            meta: self.meta@,
            arrival_ms: self.arrival_ms,
            deadline_ms: self.deadline_ms,
            payload_bytes: self.payload_bytes,
            arrival_seq: self.arrival_seq,
        }
    }
}

impl Clone for QueueMessage {
    fn clone(&self) -> (r: Self)
        ensures
            r@ == self@,
    {
        QueueMessage {
            recipient: self.recipient.clone(),
            message_id: self.message_id,
            ciphertext_b64: self.ciphertext_b64.clone(),
            meta: self.meta.clone(),
            arrival_ms: self.arrival_ms,
            deadline_ms: self.deadline_ms,
            payload_bytes: self.payload_bytes,
            arrival_seq: self.arrival_seq,
        }
    }
}

/// The answer to a push: whether the message was stored or was already
/// there, and the recipient's queue length and bytes afterwards.
#[derive(Clone, Copy, Debug)]
pub struct PushResult {
    pub stored: bool,
    pub duplicate: bool,
    pub queue_len: u64,
    pub queue_bytes: u64,
}

/// One page of a recipient's queue.
#[derive(Debug)]
pub struct PullBatch {
    pub items: Vec<QueueMessage>,
    pub next_cursor: Option<String>,
    pub remaining_estimate: u64,
}

/// The answer to an acknowledgement.
#[derive(Clone, Copy, Debug)]
pub struct AckOutcome {
    pub deleted: u64,
    pub missing: u64,
    pub remaining: u64,
}

impl Default for AckOutcome {
    fn default() -> (r: AckOutcome)
        ensures
            r.deleted == 0,
            r.missing == 0,
            r.remaining == 0,
    {
        AckOutcome { deleted: 0, missing: 0, remaining: 0 }
    }
}

/// A message chunk named by an acknowledgement.
#[derive(Clone, Copy, Debug, PartialEq, Eq, Hash, Structural)]
pub struct AckItem {
    pub message_id: u128,
    pub chunk_index: u32,
}


/// What a push comes to, given whether its chunk is already indexed, the
/// recipient's quota counters and next arrival number.
#[derive(Clone, Copy, Debug)]
pub enum PushPlan {
    /// The chunk is already stored.
    Duplicate,
    /// Storing it would exceed the message or byte quota.
    Refused,
    /// Store it under `arrival_seq`; the counters become the given values.
    Store { arrival_seq: u64, next_seq: u64, queue_len: u64, queue_bytes: u64 },
}

pub open spec fn plan_push_spec(
    indexed: bool,
    quota_count: u64,
    quota_bytes: u64,
    next_seq: u64,
    payload_bytes: u64,
    limits: RelayLimits,
) -> PushPlan {
    if indexed {
        PushPlan::Duplicate
    } else if quota_count.saturating_add(1) > limits.max_messages_per_user {
        PushPlan::Refused
    } else if quota_bytes.saturating_add(payload_bytes) > limits.max_queue_bytes_per_user {
        PushPlan::Refused
    } else {
        PushPlan::Store {
            arrival_seq: next_seq,
            next_seq: next_seq.saturating_add(1),
            queue_len: quota_count.saturating_add(1),
            queue_bytes: quota_bytes.saturating_add(payload_bytes),
        }
    }
}

/// Decides a push: a chunk already indexed is a duplicate; one that takes
/// the message count or the queued bytes past the recipient's quota is
/// refused; any other is stored under the next arrival number.
pub fn plan_push(
    indexed: bool,
    quota_count: u64,
    quota_bytes: u64,
    next_seq: u64,
    payload_bytes: u64,
    limits: &RelayLimits,
) -> (r: PushPlan)
    ensures
        r == plan_push_spec(indexed, quota_count, quota_bytes, next_seq, payload_bytes, *limits),
{
    if indexed {
        return PushPlan::Duplicate;
    }
    let next_count = quota_count.saturating_add(1);
    if next_count > limits.max_messages_per_user {
        return PushPlan::Refused;
    }
    let next_bytes = quota_bytes.saturating_add(payload_bytes);
    if next_bytes > limits.max_queue_bytes_per_user {
        return PushPlan::Refused;
    }
    PushPlan::Store {
        arrival_seq: next_seq,
        next_seq: next_seq.saturating_add(1),
        queue_len: next_count,
        queue_bytes: next_bytes,
    }
}



/// Whether a message with this deadline has expired at `now_ms`: its
/// deadline is not after now.
pub fn is_expired(deadline_ms: u64, now_ms: u64) -> (r: bool)
    ensures
        r == (deadline_ms <= now_ms),
{
    deadline_ms <= now_ms
}

/// What a page does with the next live-or-expired message it meets.
#[derive(Clone, Copy, Debug, PartialEq, Eq, Structural)]
pub enum PageStep {
    /// Expired: leave it out.
    Skip,
    /// Live and there is room: put it on the page.
    Take,
    /// Live but the page is full: more remain.
    Stop,
}

/// How many items a page can hold: the requested limit, capped at
/// `u32::MAX`.
pub fn page_capacity(limit: u64) -> (r: usize)
    ensures
        r as int == if limit > u32::MAX as u64 { u32::MAX as int } else { limit as int },
{
    if limit > u32::MAX as u64 {
        u32::MAX as usize
    } else {
        limit as usize
    }
}

/// Whether a message numbered `seq` comes after the cursor's number.
pub fn resumes_after(seq: u64, start: Option<u64>) -> (r: bool)
    ensures
        r == match start {
            Some(s) => seq > s,
            None => true,
        },
{
    match start {
        Some(s) => seq > s,
        None => true,
    }
}

/// The step a page takes at a message: expired messages (deadline at or
/// before `now`) are skipped, live ones are taken while fewer than `room`
/// have been, and the first live one beyond that stops the page.
pub fn page_step(deadline_ms: u64, now_ms: u64, taken: usize, room: usize) -> (r: PageStep)
    ensures
        r == if deadline_ms <= now_ms {
            PageStep::Skip
        } else if taken < room {
            PageStep::Take
        } else {
            PageStep::Stop
        },
{
    if deadline_ms <= now_ms {
        PageStep::Skip
    } else if taken < room {
        PageStep::Take
    } else {
        PageStep::Stop
    }
}

/// How many messages one garbage-collection pass may remove: the asked
/// maximum, capped at `GC_BATCH_LIMIT`.
pub fn gc_target(max: usize) -> (r: usize)
    ensures
        r == if max < crate::store_mem::GC_BATCH_LIMIT { max } else { crate::store_mem::GC_BATCH_LIMIT },
{
    if max < crate::store_mem::GC_BATCH_LIMIT {
        max
    } else {
        crate::store_mem::GC_BATCH_LIMIT
    }
}

/// What is left of an estimate of the queue after a page: the queue length
/// less the items on the page, saturating at zero.
pub fn remaining_after_page(quota_count: u64, page_len: usize) -> (r: u64)
    ensures
        r == quota_count.saturating_sub(page_len as u64),
{
    quota_count.saturating_sub(page_len as u64)
}

/// The text inside a cursor: the recipient, a colon, and the arrival sequence
/// number in twenty zero-padded digits.
pub open spec fn cursor_text(recipient: Seq<char>, arrival_seq: u64) -> Seq<char> {
    recipient.push(':') + dec_digits(arrival_seq as nat, 20)
}

/// The cursor that points just after `arrival_seq` in `recipient`'s queue:
/// the Base64 of the UTF-8 bytes of its text.
pub open spec fn cursor_for(recipient: Seq<char>, arrival_seq: u64) -> Seq<char> {
    base64_standard_encode(encode_utf8(cursor_text(recipient, arrival_seq)))
}

pub open spec fn is_first_colon(t: Seq<char>, i: int) -> bool {
    &&& 0 <= i < t.len()
    &&& t[i] == ':'
    &&& forall|j: int| 0 <= j < i ==> t[j] != ':'
}

/// A cursor's text split at its first colon: the recipient before it and the
/// number after it.
pub open spec fn split_cursor_text(t: Seq<char>) -> Option<(Seq<char>, u64)> {
    if exists|i: int| is_first_colon(t, i) {
        let i = choose|i: int| is_first_colon(t, i);
        match parse_u64_spec(t.subrange(i + 1, t.len() as int)) {
            Some(n) => Some((t.subrange(0, i), n)),
            None => None,
        }
    } else {
        None
    }
}

/// What a cursor names: `None` when it is not Base64 of UTF-8 text of the
/// form `recipient:number`.
pub open spec fn decode_cursor_spec(cursor: Seq<char>) -> Option<(Seq<char>, u64)> {
    match base64_standard_decode(encode_utf8(cursor)) {
        Some(bytes) => if valid_utf8(bytes) {
            split_cursor_text(decode_utf8(bytes))
        } else {
            None
        },
        None => None,
    }
}

/// The byte lengths up to which Base64 encoding cannot overflow.
pub open spec fn fits_encoding(n: int) -> bool {
    n + 21 <= usize::MAX / 2
}

pub proof fn lemma_encode_utf8_concat(a: Seq<char>, b: Seq<char>)
    ensures
        encode_utf8(a + b) == encode_utf8(a) + encode_utf8(b),
    decreases a.len(),
{
    if a.len() > 0 {
        lemma_encode_utf8_concat(a.drop_first(), b);
        assert((a + b).drop_first() =~= a.drop_first() + b);
        assert(encode_utf8(a) + encode_utf8(b) =~= encode_scalar(a[0] as u32) + (encode_utf8(
            a.drop_first(),
        ) + encode_utf8(b)));
    } else {
        assert(a + b =~= b);
    }
}

pub proof fn lemma_encode_utf8_ascii_len(s: Seq<char>)
    requires
        forall|i: int| 0 <= i < s.len() ==> (#[trigger] s[i] as u32) < 0x80,
    ensures
        encode_utf8(s).len() == s.len(),
    decreases s.len(),
{
    if s.len() > 0 {
        lemma_encode_utf8_ascii_len(s.drop_first());
    }
}

proof fn lemma_cursor_text_bytes(recipient: Seq<char>, seq: u64)
    ensures
        encode_utf8(cursor_text(recipient, seq)).len() == encode_utf8(recipient).len() + 21,
{
    let tail = seq![':'] + dec_digits(seq as nat, 20);
    assert(cursor_text(recipient, seq) =~= recipient + tail);
    lemma_encode_utf8_concat(recipient, tail);
    lemma_dec_digits_len(seq as nat, 20);
    crate::text::lemma_dec_digits_all_digits(seq as nat, 20);
    assert forall|i: int| 0 <= i < tail.len() implies (#[trigger] tail[i] as u32) < 0x80 by {
        if i > 0 {
            assert(tail[i] == dec_digits(seq as nat, 20)[i - 1]);
        }
    }
    lemma_encode_utf8_ascii_len(tail);
}

/// A cursor made for a recipient without colons reads back as that recipient
/// and number.
proof fn lemma_cursor_text_splits(recipient: Seq<char>, seq: u64)
    requires
        !recipient.contains(':'),
    ensures
        split_cursor_text(cursor_text(recipient, seq)) == Some((recipient, seq)),
{
    let t = cursor_text(recipient, seq);
    let k = recipient.len() as int;
    lemma_dec_digits_len(seq as nat, 20);
    assert(t[k] == ':');
    assert forall|j: int| 0 <= j < k implies t[j] != ':' by {
        assert(t[j] == recipient[j]);
    }
    assert(is_first_colon(t, k));
    let i = choose|i: int| is_first_colon(t, i);
    assert(i == k) by {
        if i < k {
            assert(t[i] == recipient[i]);
        } else if i > k {
            assert(t[k] == ':');
        }
    }
    assert(t.subrange(k + 1, t.len() as int) =~= dec_digits(seq as nat, 20));
    assert(t.subrange(0, k) =~= recipient);
    lemma_parse_twenty_digits(seq);
}

fn invalid_cursor() -> (e: EnigmaRelayError)
    ensures
        e matches EnigmaRelayError::InvalidInput(m) && m@ == "invalid cursor"@,
{
    EnigmaRelayError::InvalidInput("invalid cursor".to_owned())
}

/// The cursor that resumes `recipient`'s queue after `arrival_seq`. It reads
/// back as the same recipient and number when the recipient holds no colon.
pub fn encode_cursor(recipient: &str, arrival_seq: u64) -> (r: String)
    requires
        fits_encoding(encode_utf8(recipient@).len() as int),
    ensures
        r@ == cursor_for(recipient@, arrival_seq),
        !recipient@.contains(':') ==> decode_cursor_spec(r@) == Some((recipient@, arrival_seq)),
{
    let mut text = recipient.to_owned();
    push_char(&mut text, ':');
    push_dec_digits(&mut text, arrival_seq, 20);
    assert(text@ =~= cursor_text(recipient@, arrival_seq));
    proof {
        lemma_cursor_text_bytes(recipient@, arrival_seq);
    }
    let bytes = text.as_str().as_bytes();
    let r = b64_encode(bytes);
    proof {
        if !recipient@.contains(':') {
            lemma_cursor_text_splits(recipient@, arrival_seq);
        }
    }
    r
}

/// Reads a cursor back as its recipient and arrival sequence number; any
/// cursor that does not have that shape is invalid input.
pub fn decode_cursor(cursor: &str) -> (r: Result<(String, u64)>)
    ensures
        match r {
            Ok((recipient, seq)) => decode_cursor_spec(cursor@) == Some((recipient@, seq)),
            Err(e) => decode_cursor_spec(cursor@) is None && (e matches EnigmaRelayError::InvalidInput(
                m,
            ) && m@ == "invalid cursor"@),
        },
{
    let decoded = match b64_decode(cursor.as_bytes()) {
        Some(d) => d,
        None => return Err(invalid_cursor()),
    };
    let ghost bytes = decoded@;
    let text = match string_from_utf8(decoded) {
        Some(t) => t,
        None => return Err(invalid_cursor()),
    };
    let t = text.as_str();
    let len = t.unicode_len();
    let mut i: usize = 0;
    while i < len
        invariant
            i <= len,
            len == t@.len(),
            forall|j: int| 0 <= j < i ==> t@[j] != ':',
        ensures
            i <= len,
            forall|j: int| 0 <= j < i ==> t@[j] != ':',
            i < len ==> t@[i as int] == ':',
        decreases len - i,
    {
        if t.get_char(i) == ':' {
            break;
        }
        i = i + 1;
    }
    if i == len {
        assert(!exists|k: int| is_first_colon(t@, k));
        return Err(invalid_cursor());
    }
    assert(t@[i as int] == ':');
    assert(is_first_colon(t@, i as int));
    let ghost k = choose|k: int| is_first_colon(t@, k);
    assert(k == i) by {
        if k < i {
        } else if k > i {
        }
    }
    let recipient = t.substring_char(0, i).to_owned();
    match parse_u64(t.substring_char(i + 1, len)) {
        Some(seq) => Ok((recipient, seq)),
        None => Err(invalid_cursor()),
    }
}

} // verus!
