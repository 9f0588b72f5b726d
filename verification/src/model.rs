use vstd::prelude::*;

verus! {

/// What the sender says of a message: its kind, its total length, and which
/// chunk of how many this envelope carries.
#[derive(Debug)]
pub struct MessageMeta {
    pub kind: String,
    pub total_len: u64,
    pub chunk_index: u32,
    pub chunk_count: u32,
    pub sent_ms: u64,
}

pub struct MessageMetaView {
    pub kind: Seq<char>,
    pub total_len: u64,
    pub chunk_index: u32,
    pub chunk_count: u32,
    pub sent_ms: u64,
}

impl View for MessageMeta {
    type V = MessageMetaView;

    open spec fn view(&self) -> MessageMetaView {
        MessageMetaView {
            kind: self.kind@,
            total_len: self.total_len,
            chunk_index: self.chunk_index,
            chunk_count: self.chunk_count,
            sent_ms: self.sent_ms,
        }
    }
}

impl Clone for MessageMeta {
    fn clone(&self) -> (r: Self)
        ensures
            r@ == self@,
    {
        MessageMeta {
            kind: self.kind.clone(),
            total_len: self.total_len,
            chunk_index: self.chunk_index,
            chunk_count: self.chunk_count,
            sent_ms: self.sent_ms,
        }
    }
}

#[derive(Debug)]
pub struct PushRequest {
    pub recipient: String,
    pub message_id: u128,
    pub ciphertext_b64: String,
    pub meta: MessageMeta,
}

pub struct PushRequestView {
    pub recipient: Seq<char>,
    pub message_id: u128,
    pub ciphertext_b64: Seq<char>,
    pub meta: MessageMetaView,
}

impl View for PushRequest {
    type V = PushRequestView;

    open spec fn view(&self) -> PushRequestView {
        PushRequestView {
            recipient: self.recipient@,
            message_id: self.message_id,
            ciphertext_b64: self.ciphertext_b64@,
            meta: self.meta@,
        }
    }
}

#[derive(Clone, Copy, Debug)]
pub struct PushResponse {
    pub stored: bool,
    pub duplicate: bool,
    pub queue_len: Option<u64>,
    pub queue_bytes: Option<u64>,
}

#[derive(Debug)]
pub struct PullRequest {
    pub recipient: String,
    pub cursor: Option<String>,
    pub max: Option<u64>,
}

#[derive(Debug)]
pub struct DeliveryItem {
    pub recipient: String,
    pub message_id: u128,
    pub ciphertext_b64: String,
    pub meta: MessageMeta,
    pub arrival_ms: u64,
    pub deadline_ms: u64,
}

#[derive(Debug)]
pub struct PullResponse {
    pub items: Vec<DeliveryItem>,
    pub next_cursor: Option<String>,
    pub remaining_estimate: u64,
}

#[derive(Clone, Copy, Debug, PartialEq, Eq, Hash, Structural)]
pub struct AckEntry {
    pub message_id: u128,
    pub chunk_index: u32,
}

#[derive(Debug)]
pub struct AckRequest {
    pub recipient: String,
    pub ack: Vec<AckEntry>,
}

#[derive(Clone, Copy, Debug)]
pub struct AckResponse {
    pub deleted: u64,
    pub missing: u64,
    pub remaining: u64,
}

/// Whether a flag is unset; a push response leaves out its `duplicate` field
/// then.
pub fn is_false(value: &bool) -> (r: bool)
    ensures
        r == !*value,
{
    !*value
}

} // verus!
