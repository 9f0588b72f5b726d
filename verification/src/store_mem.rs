use vstd::prelude::*;
use vstd::utf8::*;

use crate::config::RelayLimits;
use crate::text::{bytes_lt, lemma_bytes_lt_asym, lemma_bytes_lt_total, lemma_bytes_lt_trans};
use crate::error::{EnigmaRelayError, Result};
use crate::store::{gc_target, page_capacity, remaining_after_page, plan_push, PushPlan, AckItem, AckOutcome, PullBatch, decode_cursor, decode_cursor_spec, encode_cursor, cursor_for, fits_encoding, InboundMessage, InboundMessageView, PushResult, QueueMessage, QueueMessageView};

verus! {

/// The most messages one garbage-collection pass removes.
pub const GC_BATCH_LIMIT: usize = 1024;

/// The key under which a message chunk is stored once: its message id and
/// chunk index.
pub open spec fn dedup_key_of(m: InboundMessageView) -> (u128, u32) {
    (m.message_id, m.meta.chunk_index)
}

pub open spec fn queued_key(m: QueueMessageView) -> (u128, u32) {
    (m.message_id, m.meta.chunk_index)
}

/// One entry of a recipient's dedup index.
struct IdxEntry {
    message_id: u128,
    chunk_index: u32,
    seq: u64,
}

spec fn idx_key(e: IdxEntry) -> (u128, u32) {
    (e.message_id, e.chunk_index)
}

spec fn idx_map(s: Seq<IdxEntry>) -> Map<(u128, u32), u64>
    decreases s.len(),
{
    if s.len() == 0 {
        Map::empty()
    } else {
        idx_map(s.drop_last()).insert(idx_key(s.last()), s.last().seq)
    }
}

spec fn idx_distinct(s: Seq<IdxEntry>) -> bool {
    forall|i: int, j: int| 0 <= i < j < s.len() ==> idx_key(s[i]) != idx_key(s[j])
}

proof fn lemma_idx_map_absent(s: Seq<IdxEntry>, k: (u128, u32))
    requires
        forall|i: int| 0 <= i < s.len() ==> idx_key(#[trigger] s[i]) != k,
    ensures
        !idx_map(s).contains_key(k),
    decreases s.len(),
{
    if s.len() > 0 {
        lemma_idx_map_absent(s.drop_last(), k);
    }
}

proof fn lemma_idx_map_get(s: Seq<IdxEntry>, i: int)
    requires
        idx_distinct(s),
        0 <= i < s.len(),
    ensures
        idx_map(s).contains_key(idx_key(s[i])),
        idx_map(s)[idx_key(s[i])] == s[i].seq,
    decreases s.len(),
{
    if i < s.len() - 1 {
        lemma_idx_map_get(s.drop_last(), i);
    }
}

proof fn lemma_idx_map_remove(s: Seq<IdxEntry>, i: int)
    requires
        idx_distinct(s),
        0 <= i < s.len(),
    ensures
        idx_map(s.remove(i)) =~= idx_map(s).remove(idx_key(s[i])),
    decreases s.len(),
{
    let k = idx_key(s[i]);
    let d = s.drop_last();
    if i == s.len() - 1 {
        assert(s.remove(i) =~= d);
        lemma_idx_map_absent(d, k);
        assert(idx_map(s) == idx_map(d).insert(k, s.last().seq));
        assert(idx_map(d).insert(k, s.last().seq).remove(k) =~= idx_map(d));
    } else {
        lemma_idx_map_remove(d, i);
        let r = d.remove(i).push(s.last());
        assert(s.remove(i) =~= r);
        assert(r.drop_last() =~= d.remove(i));
        assert(idx_key(s.last()) != k);
        assert(idx_map(r) == idx_map(d.remove(i)).insert(idx_key(s.last()), s.last().seq));
        assert(idx_map(d).remove(k).insert(idx_key(s.last()), s.last().seq) =~= idx_map(d).insert(
            idx_key(s.last()),
            s.last().seq,
        ).remove(k));
    }
}

/// Finds the index entry of a key.
fn idx_find(idx: &Vec<IdxEntry>, message_id: u128, chunk_index: u32) -> (r: Option<usize>)
    ensures
        match r {
            Some(i) => i < idx@.len() && idx_key(idx@[i as int]) == (message_id, chunk_index),
            None => forall|i: int| 0 <= i < idx@.len() ==> idx_key(#[trigger] idx@[i]) != (
                message_id,
                chunk_index,
            ),
        },
{
    let mut i: usize = 0;
    while i < idx.len()
        invariant
            i <= idx@.len(),
            forall|j: int| 0 <= j < i ==> idx_key(#[trigger] idx@[j]) != (message_id, chunk_index),
        decreases idx@.len() - i,
    {
        if idx[i].message_id == message_id && idx[i].chunk_index == chunk_index {
            return Some(i);
        }
        i = i + 1;
    }
    None
}

/// The messages of a queue ordered by strictly increasing arrival sequence.
pub open spec fn strictly_sorted(q: Seq<QueueMessageView>) -> bool {
    forall|i: int, j: int| 0 <= i < j < q.len() ==> q[i].arrival_seq < q[j].arrival_seq
}

/// The queue without the message that has arrival sequence `s`, if any.
pub open spec fn remove_seq(q: Seq<QueueMessageView>, s: u64) -> Seq<QueueMessageView> {
    if exists|i: int| 0 <= i < q.len() && q[i].arrival_seq == s {
        q.remove(choose|i: int| 0 <= i < q.len() && q[i].arrival_seq == s)
    } else {
        q
    }
}

/// The message with arrival sequence `s`, if any.
pub open spec fn find_seq(q: Seq<QueueMessageView>, s: u64) -> Option<QueueMessageView> {
    if exists|i: int| 0 <= i < q.len() && q[i].arrival_seq == s {
        Some(q[choose|i: int| 0 <= i < q.len() && q[i].arrival_seq == s])
    } else {
        None
    }
}

pub(crate) proof fn lemma_seq_unique(q: Seq<QueueMessageView>, i: int)
    requires
        strictly_sorted(q),
        0 <= i < q.len(),
    ensures
        (choose|j: int| 0 <= j < q.len() && q[j].arrival_seq == q[i].arrival_seq) == i,
        remove_seq(q, q[i].arrival_seq) == q.remove(i),
        find_seq(q, q[i].arrival_seq) == Some(q[i]),
{
    let s = q[i].arrival_seq;
    assert(0 <= i < q.len() && q[i].arrival_seq == s);
    let j = choose|j: int| 0 <= j < q.len() && q[j].arrival_seq == s;
    if j < i {
        assert(q[j].arrival_seq < q[i].arrival_seq);
    } else if j > i {
        assert(q[i].arrival_seq < q[j].arrival_seq);
    }
}

pub(crate) proof fn lemma_remove_keeps_sorted(q: Seq<QueueMessageView>, i: int)
    requires
        strictly_sorted(q),
        0 <= i < q.len(),
    ensures
        strictly_sorted(q.remove(i)),
{
    let r = q.remove(i);
    assert forall|a: int, b: int| 0 <= a < b < r.len() implies r[a].arrival_seq
        < r[b].arrival_seq by {
        let a1 = if a < i {
            a
        } else {
            a + 1
        };
        let b1 = if b < i {
            b
        } else {
            b + 1
        };
        assert(r[a] == q[a1]);
        assert(r[b] == q[b1]);
    }
}

/// Finds the position of the message with arrival sequence `s`.
fn queue_find(q: &Vec<QueueMessage>, s: u64) -> (r: Option<usize>)
    ensures
        match r {
            Some(i) => i < q@.len() && q@[i as int].arrival_seq == s,
            None => forall|i: int| 0 <= i < q@.len() ==> (#[trigger] q@[i]).arrival_seq != s,
        },
{
    let mut i: usize = 0;
    while i < q.len()
        invariant
            i <= q@.len(),
            forall|j: int| 0 <= j < i ==> (#[trigger] q@[j]).arrival_seq != s,
        decreases q@.len() - i,
    {
        if q[i].arrival_seq == s {
            return Some(i);
        }
        i = i + 1;
    }
    None
}

/// The abstract state of one recipient: its next arrival sequence number, its
/// queue in arrival order, its dedup index from message chunk to arrival
/// sequence, and its quota counters.
pub struct RecipientView {
    pub seq: u64,
    pub queue: Seq<QueueMessageView>,
    pub idx: Map<(u128, u32), u64>,
    pub quota_bytes: u64,
    pub quota_count: u64,
}

/// The state of a recipient that has never been written to.
pub open spec fn empty_recipient() -> RecipientView {
    RecipientView {
        seq: 0,
        queue: Seq::empty(),
        idx: Map::empty(),
        quota_bytes: 0,
        quota_count: 0,
    }
}

/// What a well-formed recipient state keeps: its queue is in strictly
/// increasing arrival order, no queued number reaches the next one to be given
/// (unless the counter is exhausted), and every queued message is addressed
/// to the recipient.
pub open spec fn recipient_wf(name: Seq<char>, rv: RecipientView) -> bool {
    &&& strictly_sorted(rv.queue)
    &&& forall|i: int|
        0 <= i < rv.queue.len() ==> {
            &&& (#[trigger] rv.queue[i]).arrival_seq <= rv.seq
            &&& (rv.queue[i].arrival_seq == rv.seq ==> rv.seq == u64::MAX)
            &&& rv.queue[i].recipient == name
        }
}

pub open spec fn stored_message(m: InboundMessageView, arrival_seq: u64) -> QueueMessageView {
    QueueMessageView {
        recipient: m.recipient,
        message_id: m.message_id,
        ciphertext_b64: m.ciphertext_b64,
        meta: m.meta,
        arrival_ms: m.arrival_ms,
        deadline_ms: m.deadline_ms,
        payload_bytes: m.payload_bytes,
        arrival_seq,
    }
}

/// Stores `m` under its arrival sequence number, replacing a message already
/// stored under that number.
pub open spec fn queue_insert(q: Seq<QueueMessageView>, m: QueueMessageView) -> Seq<
    QueueMessageView,
> {
    if q.len() > 0 && q.last().arrival_seq == m.arrival_seq {
        q.drop_last().push(m)
    } else {
        q.push(m)
    }
}

/// What a push does to a recipient: a chunk already in the index is reported
/// as a duplicate; one that would take the queue past its message or byte
/// quota is refused; any other is appended with the next arrival number.
pub open spec fn push_spec(rv: RecipientView, m: InboundMessageView, limits: RelayLimits) -> (
    Result<PushResult>,
    RecipientView,
) {
    let key = dedup_key_of(m);
    if rv.idx.contains_key(key) {
        (
            Ok(
                PushResult {
                    stored: false,
                    duplicate: true,
                    queue_len: rv.quota_count,
                    queue_bytes: rv.quota_bytes,
                },
            ),
            rv,
        )
    } else {
        let next_count = rv.quota_count.saturating_add(1);
        let next_bytes = rv.quota_bytes.saturating_add(m.payload_bytes);
        if next_count > limits.max_messages_per_user {
            (Err(EnigmaRelayError::QuotaExceeded), rv)
        } else if next_bytes > limits.max_queue_bytes_per_user {
            (Err(EnigmaRelayError::QuotaExceeded), rv)
        } else {
            (
                Ok(
                    PushResult {
                        stored: true,
                        duplicate: false,
                        queue_len: next_count,
                        queue_bytes: next_bytes,
                    },
                ),
                RecipientView {
                    seq: rv.seq.saturating_add(1),
                    queue: queue_insert(rv.queue, stored_message(m, rv.seq)),
                    idx: rv.idx.insert(key, rv.seq),
                    quota_bytes: next_bytes,
                    quota_count: next_count,
                },
            )
        }
    }
}


/// How many leading messages of a queue have arrival numbers up to `s`; in a
/// strictly ordered queue these are all the messages at or before `s`.
pub open spec fn leading_at_most(q: Seq<QueueMessageView>, s: u64) -> nat
    decreases q.len(),
{
    if q.len() == 0 || q[0].arrival_seq > s {
        0
    } else {
        1 + leading_at_most(q.drop_first(), s)
    }
}

/// The part of a queue that a page starts from: all of it, or what comes
/// after the cursor's arrival number.
pub open spec fn after_cursor(q: Seq<QueueMessageView>, start: Option<u64>) -> Seq<
    QueueMessageView,
> {
    match start {
        None => q,
        Some(s) => q.skip(leading_at_most(q, s) as int),
    }
}

/// Walks a queue in order: expired messages (deadline at or before `now`) are
/// set aside, live ones are collected while there is room, and the walk stops
/// at the first live message for which there is no room, reporting that more
/// remain. The result is (collected, expired, more).
pub open spec fn scan(s: Seq<QueueMessageView>, now: u64, room: nat) -> (
    Seq<QueueMessageView>,
    Seq<QueueMessageView>,
    bool,
)
    decreases s.len(),
{
    if s.len() == 0 {
        (Seq::empty(), Seq::empty(), false)
    } else if s[0].deadline_ms <= now {
        let r = scan(s.drop_first(), now, room);
        (r.0, seq![s[0]] + r.1, r.2)
    } else if room > 0 {
        let r = scan(s.drop_first(), now, (room - 1) as nat);
        (seq![s[0]] + r.0, r.1, r.2)
    } else {
        (Seq::empty(), Seq::empty(), true)
    }
}

/// Removes the message with arrival number `s`, with its dedup entry and its
/// share of the quotas; nothing changes when there is none.
pub open spec fn drop_seq(rv: RecipientView, s: u64) -> RecipientView {
    match find_seq(rv.queue, s) {
        Some(m) => RecipientView {
            seq: rv.seq,
            queue: remove_seq(rv.queue, s),
            idx: rv.idx.remove(queued_key(m)),
            quota_bytes: rv.quota_bytes.saturating_sub(m.payload_bytes),
            quota_count: rv.quota_count.saturating_sub(1),
        },
        None => rv,
    }
}

/// `drop_seq` for each number in turn.
pub open spec fn drop_all(rv: RecipientView, seqs: Seq<u64>) -> RecipientView
    decreases seqs.len(),
{
    if seqs.len() == 0 {
        rv
    } else {
        drop_seq(drop_all(rv, seqs.drop_last()), seqs.last())
    }
}

pub open spec fn seqs_of(ms: Seq<QueueMessageView>) -> Seq<u64> {
    ms.map_values(|m: QueueMessageView| m.arrival_seq)
}

/// The room of a page: the limit, capped at `u32::MAX`.
pub open spec fn page_room(limit: u64) -> nat {
    if limit > u32::MAX as u64 {
        u32::MAX as nat
    } else {
        limit as nat
    }
}

/// One page of a recipient's queue: the collected messages, whether more
/// remain, and the recipient after the expired messages met on the way are
/// removed.
pub open spec fn page_spec(rv: RecipientView, start: Option<u64>, limit: u64, now: u64) -> (
    Seq<QueueMessageView>,
    bool,
    RecipientView,
) {
    let r = scan(after_cursor(rv.queue, start), now, page_room(limit));
    (r.0, r.2, drop_all(rv, seqs_of(r.1)))
}

proof fn lemma_skip_drop_first<A>(s: Seq<A>, i: int)
    requires
        0 <= i < s.len(),
    ensures
        s.skip(i).drop_first() =~= s.skip(i + 1),
        s.skip(i)[0] == s[i],
{
}


/// The items of a list with repeats left out, in order of first occurrence.
pub open spec fn dedup(items: Seq<AckItem>) -> Seq<AckItem>
    decreases items.len(),
{
    if items.len() == 0 {
        Seq::empty()
    } else {
        let d = dedup(items.drop_last());
        if d.contains(items.last()) {
            d
        } else {
            d.push(items.last())
        }
    }
}

/// One acknowledged chunk: a key in the dedup index leaves it, and its message
/// leaves the queue and the quotas and counts as deleted if it is still
/// queued; a key not in the index counts as missing. The counts are
/// (deleted, missing).
pub open spec fn ack_step(rv: RecipientView, counts: (u64, u64), item: AckItem) -> (
    RecipientView,
    (u64, u64),
) {
    let key = (item.message_id, item.chunk_index);
    if rv.idx.contains_key(key) {
        let s = rv.idx[key];
        let rv1 = RecipientView { idx: rv.idx.remove(key), ..rv };
        match find_seq(rv1.queue, s) {
            Some(m) => (
                RecipientView {
                    queue: remove_seq(rv1.queue, s),
                    quota_count: rv1.quota_count.saturating_sub(1),
                    quota_bytes: rv1.quota_bytes.saturating_sub(m.payload_bytes),
                    ..rv1
                },
                (counts.0.saturating_add(1), counts.1),
            ),
            None => (rv1, counts),
        }
    } else {
        (rv, (counts.0, counts.1.saturating_add(1)))
    }
}

/// `ack_step` for each item in turn, from zero counts.
pub open spec fn ack_fold(rv: RecipientView, items: Seq<AckItem>) -> (RecipientView, (u64, u64))
    decreases items.len(),
{
    if items.len() == 0 {
        (rv, (0, 0))
    } else {
        let r = ack_fold(rv, items.drop_last());
        ack_step(r.0, r.1, items.last())
    }
}

/// Leaves out the repeats of a list of acknowledged chunks.
pub fn dedup_items(items: &Vec<AckItem>) -> (r: Vec<AckItem>)
    ensures
        r@ == dedup(items@),
{
    let mut out: Vec<AckItem> = Vec::new();
    let mut i: usize = 0;
    while i < items.len()
        invariant
            i <= items@.len(),
            out@ == dedup(items@.take(i as int)),
        decreases items@.len() - i,
    {
        let it = items[i];
        let mut found = false;
        let mut j: usize = 0;
        while j < out.len()
            invariant
                j <= out@.len(),
                found == (exists|x: int| 0 <= x < j && out@[x] == it),
            decreases out@.len() - j,
        {
            if out[j] == it {
                found = true;
            }
            j = j + 1;
        }
        proof {
            assert(items@.take(i + 1).drop_last() =~= items@.take(i as int));
            assert(items@.take(i + 1).last() == it);
            assert(found == out@.contains(it));
        }
        if !found {
            out.push(it);
        }
        i = i + 1;
    }
    assert(items@.take(items@.len() as int) =~= items@);
    out
}


/// The expired messages of a queue (deadline at or before `now`), in order.
pub open spec fn expired_in(q: Seq<QueueMessageView>, now: u64) -> Seq<QueueMessageView>
    decreases q.len(),
{
    if q.len() == 0 {
        Seq::empty()
    } else if q.last().deadline_ms <= now {
        expired_in(q.drop_last(), now).push(q.last())
    } else {
        expired_in(q.drop_last(), now)
    }
}

/// A recipient after garbage collection with room for `budget` removals: its
/// expired messages, wherever they stand in the queue, are removed in
/// arrival order, as many as the budget allows. Returns the recipient and
/// how many messages were removed.
pub open spec fn purge_recipient(rv: RecipientView, now: u64, budget: nat) -> (RecipientView, nat) {
    let e = expired_in(rv.queue, now);
    let n = if budget < e.len() {
        budget
    } else {
        e.len()
    };
    (drop_all(rv, seqs_of(e.take(n as int))), n)
}

pub proof fn lemma_expired_concat(a: Seq<QueueMessageView>, b: Seq<QueueMessageView>, now: u64)
    ensures
        expired_in(a + b, now) == expired_in(a, now) + expired_in(b, now),
    decreases b.len(),
{
    if b.len() == 0 {
        assert(a + b =~= a);
        assert(expired_in(a, now) + expired_in(b, now) =~= expired_in(a, now));
    } else {
        lemma_expired_concat(a, b.drop_last(), now);
        assert((a + b).drop_last() =~= a + b.drop_last());
        assert((a + b).last() == b.last());
        if b.last().deadline_ms <= now {
            assert(expired_in(a, now) + expired_in(b.drop_last(), now).push(b.last()) =~= (
            expired_in(a, now) + expired_in(b.drop_last(), now)).push(b.last()));
        }
    }
}

/// Garbage collection over the recipients in their order, while the budget
/// lasts. Returns the recipients and how many messages were removed.
pub open spec fn purge_entries(es: Seq<(Seq<char>, RecipientView)>, now: u64, budget: nat) -> (
    Seq<(Seq<char>, RecipientView)>,
    nat,
)
    decreases es.len(),
{
    if es.len() == 0 || budget == 0 {
        (es, 0)
    } else {
        let p = purge_recipient(es[0].1, now, budget);
        let r = purge_entries(es.drop_first(), now, (budget - p.1) as nat);
        (seq![(es[0].0, p.0)] + r.0, p.1 + r.1)
    }
}

/// Whether recipient `a` sorts before `b`: by the bytes of their UTF-8
/// encodings, as Rust orders strings.
pub open spec fn name_before(a: Seq<char>, b: Seq<char>) -> bool {
    bytes_lt(encode_utf8(a), encode_utf8(b))
}

/// The state of a recipient in the store, if it has one.
pub open spec fn lookup(es: Seq<(Seq<char>, RecipientView)>, name: Seq<char>) -> Option<
    RecipientView,
>
    decreases es.len(),
{
    if es.len() == 0 {
        None
    } else if es[0].0 == name {
        Some(es[0].1)
    } else {
        lookup(es.drop_first(), name)
    }
}

/// The store with `name`'s state set to `v`: replaced where the recipient is
/// already there, otherwise inserted before the first recipient that sorts
/// after it.
pub open spec fn upsert(es: Seq<(Seq<char>, RecipientView)>, name: Seq<char>, v: RecipientView) -> Seq<
    (Seq<char>, RecipientView),
>
    decreases es.len(),
{
    if es.len() == 0 {
        seq![(name, v)]
    } else if es[0].0 == name {
        seq![(name, v)] + es.drop_first()
    } else if name_before(name, es[0].0) {
        seq![(name, v)] + es
    } else {
        seq![es[0]] + upsert(es.drop_first(), name, v)
    }
}

/// Recipients in strictly increasing order of their names.
pub open spec fn names_sorted(es: Seq<(Seq<char>, RecipientView)>) -> bool {
    forall|i: int| 0 <= i < es.len() - 1 ==> name_before(#[trigger] es[i].0, es[i + 1].0)
}

/// A state set by `upsert` is the one found by `lookup`.
pub proof fn lemma_lookup_upsert_same(es: Seq<(Seq<char>, RecipientView)>, name: Seq<char>, v: RecipientView)
    ensures
        lookup(upsert(es, name, v), name) == Some(v),
    decreases es.len(),
{
    if es.len() > 0 && es[0].0 != name && !name_before(name, es[0].0) {
        lemma_lookup_upsert_same(es.drop_first(), name, v);
        assert((seq![es[0]] + upsert(es.drop_first(), name, v)).drop_first() =~= upsert(
            es.drop_first(),
            name,
            v,
        ));
    }
}

/// `upsert` leaves the other recipients as they were.
pub proof fn lemma_lookup_upsert_other(
    es: Seq<(Seq<char>, RecipientView)>,
    name: Seq<char>,
    v: RecipientView,
    other: Seq<char>,
)
    requires
        other != name,
    ensures
        lookup(upsert(es, name, v), other) == lookup(es, other),
    decreases es.len(),
{
    let u = upsert(es, name, v);
    if es.len() == 0 {
        assert(u[0].0 == name);
        assert(u.drop_first().len() == 0);
        assert(lookup(u.drop_first(), other) is None);
    } else if es[0].0 == name {
        assert(u[0].0 == name);
        assert(u.drop_first() =~= es.drop_first());
        assert(lookup(u, other) == lookup(u.drop_first(), other));
    } else if name_before(name, es[0].0) {
        assert(u[0].0 == name);
        assert(u.drop_first() =~= es);
        assert(lookup(u, other) == lookup(u.drop_first(), other));
    } else {
        lemma_lookup_upsert_other(es.drop_first(), name, v, other);
        assert(u[0] == es[0]);
        assert(u.drop_first() =~= upsert(es.drop_first(), name, v));
        if es[0].0 == other {
            assert(lookup(u, other) == Some(es[0].1));
        } else {
            assert(lookup(u, other) == lookup(u.drop_first(), other));
        }
    }
}

struct RecipientState {
    seq: u64,
    queue: Vec<QueueMessage>,
    idx: Vec<IdxEntry>,
    quota_bytes: u64,
    quota_count: u64,
}

impl RecipientState {
    spec fn view(&self) -> RecipientView {
        RecipientView {
            seq: self.seq,
            queue: self.queue@.map_values(|m: QueueMessage| m@),
            idx: idx_map(self.idx@),
            quota_bytes: self.quota_bytes,
            quota_count: self.quota_count,
        }
    }

    spec fn wf(&self, name: Seq<char>) -> bool {
        &&& recipient_wf(name, self.view())
        &&& idx_distinct(self.idx@)
    }

    fn new() -> (r: RecipientState)
        ensures
            r.view() == empty_recipient(),
            forall|name: Seq<char>| r.wf(name),
    {
        let r = RecipientState {
            seq: 0,
            queue: Vec::new(),
            idx: Vec::new(),
            quota_bytes: 0,
            quota_count: 0,
        };
        assert(r.view().queue =~= Seq::empty());
        r
    }

    fn push_message(&mut self, msg: InboundMessage, limits: &RelayLimits) -> (r: Result<
        PushResult,
    >)
        requires
            old(self).wf(msg.recipient@),
        ensures
            final(self).wf(msg.recipient@),
            (r, final(self).view()) == push_spec(old(self).view(), msg@, *limits),
    {
        let ghost name = msg.recipient@;
        let ghost before = self.view();
        match idx_find(&self.idx, msg.message_id, msg.meta.chunk_index) {
            Some(i) => {
                proof {
                    lemma_idx_map_get(self.idx@, i as int);
                }
                return Ok(
                    PushResult {
                        stored: false,
                        duplicate: true,
                        queue_len: self.quota_count,
                        queue_bytes: self.quota_bytes,
                    },
                );
            },
            None => {
                proof {
                    lemma_idx_map_absent(self.idx@, dedup_key_of(msg@));
                }
            },
        }
        let (arrival_seq, next_seq, next_count, next_bytes) = match plan_push(
            false,
            self.quota_count,
            self.quota_bytes,
            self.seq,
            msg.payload_bytes,
            limits,
        ) {
            PushPlan::Store { arrival_seq, next_seq, queue_len, queue_bytes } => (
                arrival_seq,
                next_seq,
                queue_len,
                queue_bytes,
            ),
            _ => return Err(EnigmaRelayError::QuotaExceeded),
        };
        self.seq = next_seq;
        let message_id = msg.message_id;
        let chunk_index = msg.meta.chunk_index;
        let stored = QueueMessage {
            arrival_seq,
            recipient: msg.recipient,
            message_id: msg.message_id,
            ciphertext_b64: msg.ciphertext_b64,
            meta: msg.meta,
            arrival_ms: msg.arrival_ms,
            deadline_ms: msg.deadline_ms,
            payload_bytes: msg.payload_bytes,
        };
        assert(stored@ == stored_message(msg@, arrival_seq));
        let ghost q0 = before.queue;
        let n = self.queue.len();
        if n > 0 && self.queue[n - 1].arrival_seq == arrival_seq {
            self.queue.set(n - 1, stored);
            proof {
                assert(self.queue@.map_values(|m: QueueMessage| m@) =~= q0.drop_last().push(
                    stored_message(msg@, arrival_seq),
                ));
            }
        } else {
            self.queue.push(stored);
            proof {
                assert(self.queue@.map_values(|m: QueueMessage| m@) =~= q0.push(
                    stored_message(msg@, arrival_seq),
                ));
            }
        }
        let ghost idx0 = self.idx@;
        self.idx.push(IdxEntry { message_id, chunk_index, seq: arrival_seq });
        assert(self.idx@.drop_last() =~= idx0);
        assert(idx_map(self.idx@) == idx_map(idx0).insert(dedup_key_of(msg@), arrival_seq));
        self.quota_count = next_count;
        self.quota_bytes = next_bytes;
        proof {
            let q = self.view().queue;
            assert(q == queue_insert(q0, stored_message(msg@, arrival_seq)));
            assert forall|a: int, b: int| 0 <= a < b < q.len() implies q[a].arrival_seq
                < q[b].arrival_seq by {
                if b == q.len() - 1 {
                    assert(q[a] == q0[a]);
                    assert(q0[a].arrival_seq <= arrival_seq);
                    if q0[a].arrival_seq == arrival_seq {
                        assert(arrival_seq == u64::MAX);
                        if q0.len() > 0 && q0.last().arrival_seq == arrival_seq {
                        } else {
                            assert(q0[q0.len() - 1].arrival_seq < u64::MAX + 1);
                            if a < q0.len() - 1 {
                                assert(q0[a].arrival_seq < q0[q0.len() - 1].arrival_seq);
                            }
                        }
                    }
                } else {
                    assert(q[a] == q0[a]);
                    assert(q[b] == q0[b]);
                }
            }
            assert(idx_distinct(self.idx@));
        }
        Ok(PushResult { stored: true, duplicate: false, queue_len: next_count, queue_bytes: next_bytes })
    }

    /// Removes the message with arrival number `s` from the queue only.
    fn take_from_queue(&mut self, s: u64, Ghost(name): Ghost<Seq<char>>) -> (r: Option<QueueMessage>)
        requires
            old(self).wf(name),
        ensures
            final(self).wf(name),
            final(self).view() == (RecipientView {
                queue: remove_seq(old(self).view().queue, s),
                ..old(self).view()
            }),
            match r {
                Some(m) => find_seq(old(self).view().queue, s) == Some(m@),
                None => find_seq(old(self).view().queue, s) is None,
            },
    {
        let ghost q0 = self.view().queue;
        match queue_find(&self.queue, s) {
            Some(i) => {
                proof {
                    assert(q0[i as int] == self.queue@[i as int]@);
                    lemma_seq_unique(q0, i as int);
                    lemma_remove_keeps_sorted(q0, i as int);
                }
                let m = self.queue.remove(i);
                proof {
                    assert(self.queue@.map_values(|m: QueueMessage| m@) =~= q0.remove(i as int));
                    let q = q0.remove(i as int);
                    assert forall|j: int| 0 <= j < q.len() implies {
                        &&& (#[trigger] q[j]).arrival_seq <= self.seq
                        &&& (q[j].arrival_seq == self.seq ==> self.seq == u64::MAX)
                        &&& q[j].recipient == name
                    } by {
                        if j < i {
                            assert(q[j] == q0[j]);
                        } else {
                            assert(q[j] == q0[j + 1]);
                        }
                    }
                }
                Some(m)
            },
            None => {
                proof {
                    assert(!exists|j: int| 0 <= j < q0.len() && q0[j].arrival_seq == s) by {
                        if exists|j: int| 0 <= j < q0.len() && q0[j].arrival_seq == s {
                            let j = choose|j: int| 0 <= j < q0.len() && q0[j].arrival_seq == s;
                            assert(self.queue@[j]@ == q0[j]);
                        }
                    }
                }
                None
            },
        }
    }

    /// Removes a key from the dedup index, returning the number it mapped to.
    fn idx_remove(&mut self, key: (u128, u32), Ghost(name): Ghost<Seq<char>>) -> (r: Option<u64>)
        requires
            old(self).wf(name),
        ensures
            final(self).wf(name),
            final(self).view() == (RecipientView {
                idx: old(self).view().idx.remove(key),
                ..old(self).view()
            }),
            match r {
                Some(s) => old(self).view().idx.contains_key(key) && old(self).view().idx[key] == s,
                None => !old(self).view().idx.contains_key(key),
            },
    {
        let ghost m0 = idx_map(self.idx@);
        match idx_find(&self.idx, key.0, key.1) {
            Some(i) => {
                proof {
                    lemma_idx_map_get(self.idx@, i as int);
                    lemma_idx_map_remove(self.idx@, i as int);
                }
                let e = self.idx.remove(i);
                proof {
                    assert forall|a: int, b: int| 0 <= a < b < self.idx@.len() implies idx_key(
                        self.idx@[a],
                    ) != idx_key(self.idx@[b]) by {
                        let a1 = if a < i {
                            a
                        } else {
                            a + 1
                        };
                        let b1 = if b < i {
                            b
                        } else {
                            b + 1
                        };
                        assert(self.idx@[a] == old(self).idx@[a1]);
                        assert(self.idx@[b] == old(self).idx@[b1]);
                    }
                }
                Some(e.seq)
            },
            None => {
                proof {
                    lemma_idx_map_absent(self.idx@, key);
                    assert(m0.remove(key) =~= m0);
                }
                None
            },
        }
    }

    /// Removes the message with arrival number `s` together with its dedup
    /// entry and its share of the quotas.
    fn drop_seq(&mut self, s: u64, Ghost(name): Ghost<Seq<char>>)
        requires
            old(self).wf(name),
        ensures
            final(self).wf(name),
            final(self).view() == drop_seq(old(self).view(), s),
    {
        match self.take_from_queue(s, Ghost(name)) {
            Some(removed) => {
                let _ = self.idx_remove((removed.message_id, removed.meta.chunk_index), Ghost(name));
                self.quota_count = self.quota_count.saturating_sub(1);
                self.quota_bytes = self.quota_bytes.saturating_sub(removed.payload_bytes);
            },
            None => {},
        }
    }


    /// `drop_seq` for each number in turn.
    fn drop_seqs(&mut self, seqs: &Vec<u64>, Ghost(name): Ghost<Seq<char>>)
        requires
            old(self).wf(name),
        ensures
            final(self).wf(name),
            final(self).view() == drop_all(old(self).view(), seqs@),
    {
        let ghost rv0 = self.view();
        let n = seqs.len();
        let mut t: usize = 0;
        while t < n
            invariant
                t <= n,
                n == seqs@.len(),
                self.wf(name),
                self.view() == drop_all(rv0, seqs@.take(t as int)),
            decreases n - t,
        {
            let s = seqs[t];
            self.drop_seq(s, Ghost(name));
            proof {
                assert(seqs@.take(t + 1).drop_last() =~= seqs@.take(t as int));
            }
            t = t + 1;
        }
        assert(seqs@.take(n as int) =~= seqs@);
    }

    /// Garbage-collects the recipient's expired messages in arrival order,
    /// at most `budget` of them; returns how many were removed.
    fn purge(&mut self, now: u64, budget: usize, Ghost(name): Ghost<Seq<char>>) -> (r: usize)
        requires
            old(self).wf(name),
        ensures
            final(self).wf(name),
            (final(self).view(), r as nat) == purge_recipient(old(self).view(), now, budget as nat),
    {
        let ghost q = self.view().queue;
        let len = self.queue.len();
        let mut to_drop: Vec<u64> = Vec::new();
        let ghost mut found: Seq<QueueMessageView> = Seq::empty();
        let mut j: usize = 0;
        assert(q.take(0) =~= Seq::<QueueMessageView>::empty());
        while j < len && to_drop.len() < budget
            invariant
                j <= len,
                len == q.len(),
                q == self.view().queue,
                to_drop@.len() <= budget,
                found == expired_in(q.take(j as int), now),
                to_drop@ == seqs_of(found),
            decreases len - j,
        {
            proof {
                assert(q.take(j + 1).drop_last() =~= q.take(j as int));
                assert(q.take(j + 1).last() == q[j as int]);
                assert(self.queue@[j as int]@ == q[j as int]);
            }
            if self.queue[j].deadline_ms <= now {
                to_drop.push(self.queue[j].arrival_seq);
                proof {
                    found = found.push(q[j as int]);
                    assert(to_drop@ =~= seqs_of(found));
                }
            }
            j = j + 1;
        }
        proof {
            let e = expired_in(q, now);
            assert(q =~= q.take(j as int) + q.skip(j as int));
            lemma_expired_concat(q.take(j as int), q.skip(j as int), now);
            if j == len {
                assert(q.skip(j as int).len() == 0);
                assert(expired_in(q.skip(j as int), now) =~= Seq::<QueueMessageView>::empty());
                assert(e =~= found);
                assert(e.take(e.len() as int) =~= e);
            } else {
                assert(found.len() == budget);
                assert(e.take(budget as int) =~= found);
            }
        }
        let removed = to_drop.len();
        self.drop_seqs(&to_drop, Ghost(name));
        removed
    }

    /// Reads one page of the queue, removing the expired messages met on the
    /// way. Returns the collected messages and whether more remain.
    fn read_page(&mut self, start: Option<u64>, limit: u64, now: u64, Ghost(name): Ghost<Seq<char>>) -> (r: (
        Vec<QueueMessage>,
        bool,
    ))
        requires
            old(self).wf(name),
        ensures
            final(self).wf(name),
            ({
                let p = page_spec(old(self).view(), start, limit, now);
                &&& r.0@.map_values(|m: QueueMessage| m@) == p.0
                &&& r.1 == p.1
                &&& final(self).view() == p.2
            }),
    {
        let ghost rv0 = self.view();
        let ghost q = rv0.queue;
        let len = self.queue.len();
        let mut k: usize = 0;
        match start {
            Some(s) => {
                assert(q.skip(0) =~= q);
                while k < len && self.queue[k].arrival_seq <= s
                    invariant
                        k <= len,
                        len == q.len(),
                        q == self.view().queue,
                        leading_at_most(q, s) == k + leading_at_most(q.skip(k as int), s),
                    decreases len - k,
                {
                    proof {
                        lemma_skip_drop_first(q, k as int);
                    }
                    k = k + 1;
                }
                proof {
                    if k < len {
                        assert(q.skip(k as int)[0] == q[k as int]);
                    }
                }
                assert(after_cursor(q, start) == q.skip(k as int));
            },
            None => {
                assert(q.skip(0) =~= q);
            },
        }
        let ghost cand = q.skip(k as int);
        let room: usize = page_capacity(limit);
        let ghost full = scan(cand, now, page_room(limit));
        let mut collected: Vec<QueueMessage> = Vec::new();
        let mut expired: Vec<u64> = Vec::new();
        let ghost mut expired_msgs: Seq<QueueMessageView> = Seq::empty();
        let mut more = false;
        let mut j: usize = k;
        while j < len
            invariant_except_break
                k <= j <= len,
                len == q.len(),
                q == self.view().queue,
                cand == q.skip(k as int),
                room == page_room(limit),
                collected@.len() <= room,
                !more,
                ({
                    let r = scan(q.skip(j as int), now, (room - collected@.len()) as nat);
                    &&& full.0 == collected@.map_values(|m: QueueMessage| m@) + r.0
                    &&& full.1 == expired_msgs + r.1
                    &&& full.2 == r.2
                }),
                expired@ == seqs_of(expired_msgs),
            ensures
                q == self.view().queue,
                full.0 == collected@.map_values(|m: QueueMessage| m@),
                full.1 == expired_msgs,
                full.2 == more,
                expired@ == seqs_of(expired_msgs),
            decreases len - j,
        {
            proof {
                lemma_skip_drop_first(q, j as int);
                assert(self.queue@[j as int]@ == q[j as int]);
            }
            let msg = &self.queue[j];
            if msg.deadline_ms <= now {
                expired.push(msg.arrival_seq);
                proof {
                    let m = q[j as int];
                    assert(seq![m] + scan(q.skip(j + 1), now, (room - collected@.len()) as nat).1
                        =~= scan(q.skip(j as int), now, (room - collected@.len()) as nat).1);
                    assert(full.1 == expired_msgs.push(m) + scan(
                        q.skip(j + 1),
                        now,
                        (room - collected@.len()) as nat,
                    ).1);
                    expired_msgs = expired_msgs.push(m);
                    assert(expired@ =~= seqs_of(expired_msgs));
                }
            } else if collected.len() < room {
                let ghost before = collected@.map_values(|m: QueueMessage| m@);
                collected.push(msg.clone());
                proof {
                    let m = q[j as int];
                    assert(collected@.map_values(|m: QueueMessage| m@) =~= before.push(m));
                    assert(seq![m] + scan(q.skip(j + 1), now, (room - collected@.len()) as nat).0
                        =~= scan(q.skip(j as int), now, (room - (collected@.len() - 1)) as nat).0);
                    assert(full.0 == before.push(m) + scan(
                        q.skip(j + 1),
                        now,
                        (room - collected@.len()) as nat,
                    ).0);
                }
            } else {
                more = true;
                proof {
                    assert(full.0 =~= collected@.map_values(|m: QueueMessage| m@));
                    assert(full.1 =~= expired_msgs);
                }
                break;
            }
            j = j + 1;
        }
        proof {
            if !more {
                assert(q.skip(len as int).len() == 0);
            }
        }
        self.drop_seqs(&expired, Ghost(name));
        (collected, more)
    }

    /// Acknowledges distinct chunks in turn; returns (deleted, missing).
    fn ack_unique(&mut self, items: &Vec<AckItem>, Ghost(name): Ghost<Seq<char>>) -> (r: (u64, u64))
        requires
            old(self).wf(name),
        ensures
            final(self).wf(name),
            (final(self).view(), r) == ack_fold(old(self).view(), items@),
    {
        let ghost rv0 = self.view();
        let mut deleted: u64 = 0;
        let mut missing: u64 = 0;
        let mut i: usize = 0;
        while i < items.len()
            invariant
                i <= items@.len(),
                self.wf(name),
                (self.view(), (deleted, missing)) == ack_fold(rv0, items@.take(i as int)),
            decreases items@.len() - i,
        {
            let item = items[i];
            proof {
                assert(items@.take(i + 1).drop_last() =~= items@.take(i as int));
                assert(items@.take(i + 1).last() == item);
            }
            let ghost pre = self.view();
            let ghost c0 = (deleted, missing);
            match self.idx_remove((item.message_id, item.chunk_index), Ghost(name)) {
                Some(seq) => {
                    match self.take_from_queue(seq, Ghost(name)) {
                        Some(removed) => {
                            self.quota_count = self.quota_count.saturating_sub(1);
                            self.quota_bytes = self.quota_bytes.saturating_sub(removed.payload_bytes);
                            deleted = deleted.saturating_add(1);
                        },
                        None => {},
                    }
                },
                None => {
                    missing = missing.saturating_add(1);
                    assert(pre.idx.remove((item.message_id, item.chunk_index)) =~= pre.idx);
                },
            }
            assert((self.view(), (deleted, missing)) == ack_step(pre, c0, item));
            i = i + 1;
        }
        assert(items@.take(items@.len() as int) =~= items@);
        (deleted, missing)
    }
}


struct RecipientEntry {
    name: String,
    state: RecipientState,
}

/// The in-memory relay store: for each recipient, in the byte order of their
/// names, a queue in arrival order with its dedup index and quotas.
pub struct MemStore {
    entries: Vec<RecipientEntry>,
}

spec fn entries_view(es: Seq<RecipientEntry>) -> Seq<(Seq<char>, RecipientView)> {
    es.map_values(|e: RecipientEntry| (e.name@, e.state.view()))
}

spec fn entries_wf(es: Seq<RecipientEntry>) -> bool {
    &&& names_sorted(entries_view(es))
    &&& forall|i: int| 0 <= i < es.len() ==> (#[trigger] es[i]).state.wf(es[i].name@)
}

impl View for MemStore {
    type V = Seq<(Seq<char>, RecipientView)>;

    closed spec fn view(&self) -> Seq<(Seq<char>, RecipientView)> {
        entries_view(self.entries@)
    }
}

/// Where a recipient stands in the store: everyone before `pos` sorts before
/// it; at `pos` stands the recipient itself (`found`) or the first that sorts
/// after it.
pub open spec fn slot_of(es: Seq<(Seq<char>, RecipientView)>, name: Seq<char>, found: bool, pos: int) -> bool {
    &&& 0 <= pos <= es.len()
    &&& forall|j: int| 0 <= j < pos ==> name_before(#[trigger] es[j].0, name)
    &&& found ==> pos < es.len() && es[pos].0 == name
    &&& !found ==> (pos == es.len() || name_before(name, es[pos].0))
}

/// The state a recipient has, or the empty state when it has none.
pub open spec fn current(es: Seq<(Seq<char>, RecipientView)>, name: Seq<char>) -> RecipientView {
    match lookup(es, name) {
        Some(v) => v,
        None => empty_recipient(),
    }
}

proof fn lemma_encode_utf8_injective(a: Seq<char>, b: Seq<char>)
    requires
        encode_utf8(a) == encode_utf8(b),
    ensures
        a == b,
{
    encode_utf8_decode_utf8(a);
    encode_utf8_decode_utf8(b);
}

proof fn lemma_update_entry(es: Seq<RecipientEntry>, pos: int, e: RecipientEntry)
    requires
        entries_wf(es),
        0 <= pos < es.len(),
        e.name@ == es[pos].name@,
        e.state.wf(e.name@),
    ensures
        entries_wf(es.update(pos, e)),
        entries_view(es.update(pos, e)) == entries_view(es).update(pos, (e.name@, e.state.view())),
{
    let n = es.update(pos, e);
    assert(entries_view(n) =~= entries_view(es).update(pos, (e.name@, e.state.view())));
    assert forall|i: int| 0 <= i < entries_view(n).len() - 1 implies name_before(
        #[trigger] entries_view(n)[i].0,
        entries_view(n)[i + 1].0,
    ) by {
        assert(entries_view(n)[i].0 == entries_view(es)[i].0);
        assert(entries_view(n)[i + 1].0 == entries_view(es)[i + 1].0);
    }
    assert forall|i: int| 0 <= i < n.len() implies (#[trigger] n[i]).state.wf(n[i].name@) by {
        if i != pos {
            assert(n[i] == es[i]);
        }
    }
}


/// In sorted recipients, every earlier name sorts before every later one.
pub proof fn lemma_names_sorted_pairs(es: Seq<(Seq<char>, RecipientView)>, i: int, j: int)
    requires
        names_sorted(es),
        0 <= i < j < es.len(),
    ensures
        name_before(es[i].0, es[j].0),
    decreases j - i,
{
    if j > i + 1 {
        lemma_names_sorted_pairs(es, i, j - 1);
        assert(name_before(es[j - 1].0, es[j].0));
        lemma_bytes_lt_trans(encode_utf8(es[i].0), encode_utf8(es[j - 1].0), encode_utf8(es[j].0));
    }
}

proof fn lemma_absent_after(es: Seq<(Seq<char>, RecipientView)>, name: Seq<char>, pos: int)
    requires
        names_sorted(es),
        0 <= pos < es.len(),
        name_before(name, es[pos].0),
    ensures
        forall|j: int| pos <= j < es.len() ==> name_before(name, #[trigger] es[j].0) && es[j].0 != name,
{
    assert forall|j: int| pos <= j < es.len() implies name_before(name, #[trigger] es[j].0) && es[j].0 != name by {
        if j > pos {
            lemma_names_sorted_pairs(es, pos, j);
            lemma_bytes_lt_trans(encode_utf8(name), encode_utf8(es[pos].0), encode_utf8(es[j].0));
        }
        lemma_bytes_lt_asym(encode_utf8(name), encode_utf8(es[j].0));
    }
}

proof fn lemma_lookup_none(es: Seq<(Seq<char>, RecipientView)>, name: Seq<char>)
    requires
        forall|j: int| 0 <= j < es.len() ==> (#[trigger] es[j]).0 != name,
    ensures
        lookup(es, name) is None,
    decreases es.len(),
{
    if es.len() > 0 {
        assert(es[0].0 != name);
        assert forall|j: int| 0 <= j < es.len() - 1 implies (#[trigger] es.drop_first()[j]).0 != name by {
            assert(es.drop_first()[j] == es[j + 1]);
        }
        lemma_lookup_none(es.drop_first(), name);
    }
}

proof fn lemma_slot_found(es: Seq<(Seq<char>, RecipientView)>, name: Seq<char>, pos: int, v: RecipientView)
    requires
        0 <= pos < es.len(),
        es[pos].0 == name,
        forall|j: int| 0 <= j < pos ==> name_before(#[trigger] es[j].0, name),
    ensures
        lookup(es, name) == Some(es[pos].1),
        upsert(es, name, v) == es.update(pos, (name, v)),
    decreases pos,
{
    if pos == 0 {
        assert(seq![(name, v)] + es.drop_first() =~= es.update(0, (name, v)));
    } else {
        let d = es.drop_first();
        lemma_bytes_lt_asym(encode_utf8(es[0].0), encode_utf8(name));
        assert forall|j: int| 0 <= j < pos - 1 implies name_before(#[trigger] d[j].0, name) by {
            assert(d[j] == es[j + 1]);
        }
        lemma_slot_found(d, name, pos - 1, v);
        assert(seq![es[0]] + d.update(pos - 1, (name, v)) =~= es.update(pos, (name, v)));
    }
}

proof fn lemma_slot_insert(es: Seq<(Seq<char>, RecipientView)>, name: Seq<char>, pos: int, v: RecipientView)
    requires
        0 <= pos <= es.len(),
        pos == es.len() || name_before(name, es[pos].0),
        forall|j: int| 0 <= j < pos ==> name_before(#[trigger] es[j].0, name),
    ensures
        upsert(es, name, v) == es.insert(pos, (name, v)),
    decreases pos,
{
    if pos == 0 {
        if es.len() > 0 {
            lemma_bytes_lt_asym(encode_utf8(name), encode_utf8(es[0].0));
        }
        assert(seq![(name, v)] + es =~= es.insert(0, (name, v)));
    } else {
        let d = es.drop_first();
        lemma_bytes_lt_asym(encode_utf8(es[0].0), encode_utf8(name));
        assert forall|j: int| 0 <= j < pos - 1 implies name_before(#[trigger] d[j].0, name) by {
            assert(d[j] == es[j + 1]);
        }
        lemma_slot_insert(d, name, pos - 1, v);
        assert(seq![es[0]] + d.insert(pos - 1, (name, v)) =~= es.insert(pos, (name, v)));
    }
}

proof fn lemma_slot_absent(es: Seq<(Seq<char>, RecipientView)>, name: Seq<char>, pos: int)
    requires
        names_sorted(es),
        0 <= pos <= es.len(),
        pos == es.len() || name_before(name, es[pos].0),
        forall|j: int| 0 <= j < pos ==> name_before(#[trigger] es[j].0, name),
    ensures
        lookup(es, name) is None,
{
    if pos < es.len() {
        lemma_absent_after(es, name, pos);
    }
    assert forall|j: int| 0 <= j < es.len() implies (#[trigger] es[j]).0 != name by {
        if j < pos {
            lemma_bytes_lt_asym(encode_utf8(es[j].0), encode_utf8(name));
        }
    }
    lemma_lookup_none(es, name);
}

proof fn lemma_slot(es: Seq<(Seq<char>, RecipientView)>, name: Seq<char>, found: bool, pos: int, v: RecipientView)
    requires
        slot_of(es, name, found, pos),
        names_sorted(es),
    ensures
        found ==> lookup(es, name) == Some(es[pos].1) && upsert(es, name, v) == es.update(pos, (name, v)),
        !found ==> lookup(es, name) is None && upsert(es, name, v) == es.insert(pos, (name, v)),
{
    if found {
        lemma_slot_found(es, name, pos, v);
    } else {
        lemma_slot_insert(es, name, pos, v);
        lemma_slot_absent(es, name, pos);
    }
}


/// Where a page starts given the cursor of a pull: from the beginning without
/// a cursor; after the cursor's number when it names this recipient; an error
/// message when it cannot be read or names another recipient.
pub open spec fn cursor_start(cursor: Option<String>, recipient: Seq<char>) -> core::result::Result<
    Option<u64>,
    Seq<char>,
> {
    match cursor {
        None => Ok(None),
        Some(c) => match decode_cursor_spec(c@) {
            None => Err("invalid cursor"@),
            Some((r, s)) => if r == recipient {
                Ok(Some(s))
            } else {
                Err("cursor recipient mismatch"@)
            },
        },
    }
}

proof fn lemma_leading_at_most_len(q: Seq<QueueMessageView>, s: u64)
    ensures
        leading_at_most(q, s) <= q.len(),
    decreases q.len(),
{
    if q.len() > 0 && q[0].arrival_seq <= s {
        lemma_leading_at_most_len(q.drop_first(), s);
    }
}

proof fn lemma_scan_recipient(s: Seq<QueueMessageView>, now: u64, room: nat, name: Seq<char>)
    requires
        forall|j: int| 0 <= j < s.len() ==> (#[trigger] s[j]).recipient == name,
    ensures
        forall|i: int| 0 <= i < scan(s, now, room).0.len() ==> (#[trigger] scan(s, now, room).0[i]).recipient == name,
    decreases s.len(),
{
    if s.len() > 0 {
        let d = s.drop_first();
        assert forall|j: int| 0 <= j < d.len() implies (#[trigger] d[j]).recipient == name by {
            assert(d[j] == s[j + 1]);
        }
        if s[0].deadline_ms <= now {
            lemma_scan_recipient(d, now, room, name);
            assert(scan(s, now, room).0 == scan(d, now, room).0);
        } else if room > 0 {
            lemma_scan_recipient(d, now, (room - 1) as nat, name);
            let r = scan(d, now, (room - 1) as nat);
            assert forall|i: int| 0 <= i < scan(s, now, room).0.len() implies (#[trigger] scan(s, now, room).0[i]).recipient == name by {
                if i > 0 {
                    assert(scan(s, now, room).0[i] == r.0[i - 1]);
                }
            }
        }
    }
}

impl MemStore {
    /// A well-formed store keeps its recipients in strictly increasing order
    /// of their names, and each recipient's state well formed.
    pub closed spec fn wf(&self) -> bool {
        entries_wf(self.entries@)
    }

    pub fn new() -> (r: MemStore)
        ensures
            r.wf(),
            r@ == Seq::<(Seq<char>, RecipientView)>::empty(),
    {
        let r = MemStore { entries: Vec::new() };
        assert(r@ =~= Seq::<(Seq<char>, RecipientView)>::empty());
        r
    }

    /// Finds where a recipient stands.
    fn find_slot(&self, name: &str) -> (r: (bool, usize))
        requires
            self.wf(),
        ensures
            slot_of(self@, name@, r.0, r.1 as int),
    {
        let bytes = name.as_bytes();
        let mut i: usize = 0;
        while i < self.entries.len()
            invariant
                i <= self.entries@.len(),
                self.wf(),
                bytes@ == encode_utf8(name@),
                forall|j: int| 0 <= j < i ==> name_before(#[trigger] self@[j].0, name@),
            decreases self.entries@.len() - i,
        {
            let other = self.entries[i].name.as_str().as_bytes();
            assert(self@[i as int].0 == self.entries@[i as int].name@);
            match crate::text::compare_bytes(bytes, other) {
                crate::text::ByteOrder::Same => {
                    proof {
                        lemma_encode_utf8_injective(name@, self@[i as int].0);
                    }
                    return (true, i);
                },
                crate::text::ByteOrder::Before => {
                    return (false, i);
                },
                crate::text::ByteOrder::After => {},
            }
            i = i + 1;
        }
        (false, i)
    }

    /// Gives a recipient an empty state if it has none; returns its position.
    fn ensure_recipient(&mut self, name: &String) -> (pos: usize)
        requires
            old(self).wf(),
        ensures
            final(self).wf(),
            pos < final(self)@.len(),
            final(self)@[pos as int] == (name@, current(old(self)@, name@)),
            final(self)@ == upsert(old(self)@, name@, current(old(self)@, name@)),
            forall|v: RecipientView| #[trigger] upsert(old(self)@, name@, v) == final(self)@.update(pos as int, (name@, v)),
    {
        let ghost es0 = self@;
        let (found, pos) = self.find_slot(name.as_str());
        proof {
            assert forall|v: RecipientView| #[trigger] upsert(es0, name@, v) == (if found { es0.update(pos as int, (name@, v)) } else { es0.insert(pos as int, (name@, v)) }) by {
                lemma_slot(es0, name@, found, pos as int, v);
            }
            lemma_slot(es0, name@, found, pos as int, empty_recipient());
        }
        if !found {
            let state = RecipientState::new();
            let entry = RecipientEntry { name: name.clone(), state };
            let ghost old_entries = self.entries@;
            self.entries.insert(pos, entry);
            proof {
                assert(self@ =~= es0.insert(pos as int, (name@, empty_recipient())));
                assert forall|i: int| 0 <= i < self@.len() - 1 implies name_before(
                    #[trigger] self@[i].0,
                    self@[i + 1].0,
                ) by {
                    if i + 1 < pos {
                        assert(self@[i] == es0[i]);
                        assert(self@[i + 1] == es0[i + 1]);
                    } else if i + 1 == pos {
                        assert(self@[i] == es0[i]);
                    } else if i == pos {
                        assert(self@[i + 1] == es0[i]);
                    } else {
                        assert(self@[i] == es0[i - 1]);
                        assert(self@[i + 1] == es0[i]);
                    }
                }
                assert forall|i: int| 0 <= i < self.entries@.len() implies (#[trigger] self.entries@[i]).state.wf(
                    self.entries@[i].name@,
                ) by {
                    if i < pos {
                        assert(self.entries@[i] == old_entries[i]);
                    } else if i > pos {
                        assert(self.entries@[i] == old_entries[i - 1]);
                    }
                }
                assert forall|v: RecipientView| #[trigger] upsert(es0, name@, v) == self@.update(pos as int, (name@, v)) by {
                    assert(es0.insert(pos as int, (name@, v)) =~= self@.update(pos as int, (name@, v)));
                }
            }
        } else {
            proof {
                assert(es0.update(pos as int, (name@, es0[pos as int].1)) =~= es0);
                assert forall|v: RecipientView| #[trigger] upsert(es0, name@, v) == self@.update(pos as int, (name@, v)) by {
                }
            }
        }
        pos
    }

    /// Stores a message for its recipient, as `push_spec` says; a recipient
    /// seen for the first time gets an empty state first, even when the push
    /// is then refused.
    pub fn push(&mut self, msg: InboundMessage, limits: &RelayLimits) -> (r: Result<PushResult>)
        requires
            old(self).wf(),
        ensures
            final(self).wf(),
            ({
                let out = push_spec(current(old(self)@, msg@.recipient), msg@, *limits);
                &&& r == out.0
                &&& final(self)@ == upsert(old(self)@, msg@.recipient, out.1)
            }),
    {
        let ghost es0 = self@;
        let ghost name = msg.recipient@;
        let pos = self.ensure_recipient(&msg.recipient);
        let ghost es1 = self.entries@;
        assert(es1[pos as int].state.wf(name));
        let mut entry = self.entries.remove(pos);
        let r = entry.state.push_message(msg, limits);
        self.entries.insert(pos, entry);
        proof {
            assert(self.entries@ =~= es1.update(pos as int, entry));
            lemma_update_entry(es1, pos as int, entry);
        }
        r
    }

    fn no_page() -> (b: PullBatch)
        ensures
            b.items@.len() == 0,
            b.next_cursor is None,
            b.remaining_estimate == 0,
    {
        PullBatch { items: Vec::new(), next_cursor: None, remaining_estimate: 0 }
    }

    /// Reads a page of a recipient's queue after the cursor, if one is given,
    /// as `page_spec` says, and removes the expired messages met on the way.
    /// An unknown recipient gets an empty page and the cursor is not read.
    /// The next cursor points after the last item when more items remain.
    pub fn pull(&mut self, recipient: &str, cursor: Option<String>, limit: u64, now_ms: u64) -> (r: Result<PullBatch>)
        requires
            old(self).wf(),
            fits_encoding(encode_utf8(recipient@).len() as int),
        ensures
            final(self).wf(),
            match lookup(old(self)@, recipient@) {
                None => {
                    &&& final(self)@ == old(self)@
                    &&& r matches Ok(b) && b.items@.len() == 0 && b.next_cursor is None
                        && b.remaining_estimate == 0
                },
                Some(rv) => match cursor_start(cursor, recipient@) {
                    Err(msg) => {
                        &&& final(self)@ == old(self)@
                        &&& r matches Err(e) && (e matches EnigmaRelayError::InvalidInput(m) && m@ == msg)
                    },
                    Ok(start) => {
                        let p = page_spec(rv, start, limit, now_ms);
                        &&& final(self)@ == upsert(old(self)@, recipient@, p.2)
                        &&& r matches Ok(b)
                        &&& b.items@.map_values(|m: QueueMessage| m@) == p.0
                        &&& b.remaining_estimate == p.2.quota_count.saturating_sub(p.0.len() as u64)
                        &&& match b.next_cursor {
                            Some(c) => {
                                &&& p.1 && p.0.len() > 0
                                &&& c@ == cursor_for(recipient@, p.0.last().arrival_seq)
                                &&& !recipient@.contains(':') ==> cursor_start(Some(c), recipient@)
                                    == Ok::<Option<u64>, Seq<char>>(Some(p.0.last().arrival_seq))
                            },
                            None => !(p.1 && p.0.len() > 0),
                        }
                    },
                },
            },
    {
        let ghost es0 = self@;
        let (found, pos) = self.find_slot(recipient);
        proof {
            lemma_slot(es0, recipient@, found, pos as int, empty_recipient());
        }
        if !found {
            return Ok(Self::no_page());
        }
        let mut start: Option<u64> = None;
        match cursor {
            Some(raw) => {
                let (recip, seq) = decode_cursor(raw.as_str())?;
                if !crate::text::same_text(recip.as_str(), recipient) {
                    return Err(EnigmaRelayError::InvalidInput("cursor recipient mismatch".to_owned()));
                }
                start = Some(seq);
            },
            None => {},
        }
        let ghost es1 = self.entries@;
        let ghost rv = es0[pos as int].1;
        assert(es1[pos as int].state.wf(recipient@));
        let mut entry = self.entries.remove(pos);
        let (items, more) = entry.state.read_page(start, limit, now_ms, Ghost(recipient@));
        let remaining_estimate = remaining_after_page(entry.state.quota_count, items.len());
        self.entries.insert(pos, entry);
        proof {
            assert(self.entries@ =~= es1.update(pos as int, entry));
            lemma_update_entry(es1, pos as int, entry);
            lemma_slot(es0, recipient@, true, pos as int, entry.state.view());
            let q = rv.queue;
            assert(recipient_wf(recipient@, rv));
            let cand = after_cursor(q, start);
            assert forall|j: int| 0 <= j < cand.len() implies (#[trigger] cand[j]).recipient == recipient@ by {
                match start {
                    Some(s) => {
                        lemma_leading_at_most_len(q, s);
                        assert(cand[j] == q[j + leading_at_most(q, s)]);
                    },
                    None => {},
                }
            }
            lemma_scan_recipient(cand, now_ms, page_room(limit), recipient@);
        }
        let n = items.len();
        let next_cursor = if more && n > 0 {
            let last = &items[n - 1];
            assert(items@[n - 1]@ == items@.map_values(|m: QueueMessage| m@)[n - 1]);
            Some(encode_cursor(last.recipient.as_str(), last.arrival_seq))
        } else {
            None
        };
        Ok(PullBatch { items, next_cursor, remaining_estimate })
    }

    /// Acknowledges chunks for a recipient: repeats are counted once, and
    /// each chunk is handled as `ack_step` says. An unknown recipient has
    /// every listed item, repeats included, counted as missing.
    pub fn ack(&mut self, recipient: &str, items: Vec<AckItem>) -> (r: Result<AckOutcome>)
        requires
            old(self).wf(),
        ensures
            final(self).wf(),
            match lookup(old(self)@, recipient@) {
                None => final(self)@ == old(self)@ && r == Ok::<AckOutcome, EnigmaRelayError>(
                    AckOutcome { deleted: 0, missing: items@.len() as u64, remaining: 0 },
                ),
                Some(rv) => {
                    let f = ack_fold(rv, dedup(items@));
                    &&& final(self)@ == upsert(old(self)@, recipient@, f.0)
                    &&& r == Ok::<AckOutcome, EnigmaRelayError>(
                        AckOutcome { deleted: f.1.0, missing: f.1.1, remaining: f.0.quota_count },
                    )
                },
            },
    {
        let ghost es0 = self@;
        let (found, pos) = self.find_slot(recipient);
        proof {
            lemma_slot(es0, recipient@, found, pos as int, empty_recipient());
        }
        if !found {
            return Ok(AckOutcome { deleted: 0, missing: items.len() as u64, remaining: 0 });
        }
        let unique = dedup_items(&items);
        let ghost es1 = self.entries@;
        assert(es1[pos as int].state.wf(recipient@));
        let mut entry = self.entries.remove(pos);
        let (deleted, missing) = entry.state.ack_unique(&unique, Ghost(recipient@));
        let remaining = entry.state.quota_count;
        self.entries.insert(pos, entry);
        proof {
            assert(self.entries@ =~= es1.update(pos as int, entry));
            lemma_update_entry(es1, pos as int, entry);
            lemma_slot(es0, recipient@, true, pos as int, entry.state.view());
        }
        Ok(AckOutcome { deleted, missing, remaining })
    }

    /// Garbage collection: visits the recipients in name order and removes
    /// their expired messages, with their index entries and quota shares, at
    /// most `min(max, 1024)` in all, as `purge_entries` says. Returns how many
    /// were removed.
    pub fn purge_expired(&mut self, now_ms: u64, max: usize) -> (r: usize)
        requires
            old(self).wf(),
        ensures
            final(self).wf(),
            (final(self)@, r as nat) == purge_entries(
                old(self)@,
                now_ms,
                (if max < GC_BATCH_LIMIT { max } else { GC_BATCH_LIMIT }) as nat,
            ),
    {
        let ghost es0 = self@;
        let target: usize = gc_target(max);
        let mut removed: usize = 0;
        let len = self.entries.len();
        let mut i: usize = 0;
        assert(es0.skip(0) =~= es0);
        assert(self@.take(0) =~= Seq::<(Seq<char>, RecipientView)>::empty());
        while i < len
            invariant_except_break
                i <= len,
                len == self@.len(),
                len == es0.len(),
                removed <= target,
                self.wf(),
                self@.skip(i as int) == es0.skip(i as int),
                ({
                    let r = purge_entries(es0.skip(i as int), now_ms, (target - removed) as nat);
                    purge_entries(es0, now_ms, target as nat) == (self@.take(i as int) + r.0, removed as nat + r.1)
                }),
            ensures
                self.wf(),
                len == self@.len(),
                removed <= target,
                purge_entries(es0, now_ms, target as nat) == (self@, removed as nat),
            decreases len - i,
        {
            if removed >= target {
                proof {
                    assert(self@.take(i as int) + self@.skip(i as int) =~= self@);
                }
                break;
            }
            let ghost before = self@;
            let ghost es1 = self.entries@;
            assert(es1[i as int].state.wf(es1[i as int].name@));
            let mut entry = self.entries.remove(i);
            let ghost rv = entry.state.view();
            let n = entry.state.purge(now_ms, target - removed, Ghost(entry.name@));
            self.entries.insert(i, entry);
            proof {
                assert(self.entries@ =~= es1.update(i as int, entry));
                lemma_update_entry(es1, i as int, entry);
                let tail = es0.skip(i as int);
                assert(tail[0] == before[i as int]);
                assert(tail.drop_first() =~= es0.skip(i + 1));
                assert(self@.take(i + 1) =~= before.take(i as int).push(self@[i as int]));
                assert(self@.skip(i + 1) =~= before.skip(i + 1));
                assert(before.skip(i + 1) =~= es0.skip(i + 1)) by {
                    assert(before.skip(i as int).drop_first() =~= before.skip(i + 1));
                }
                let r2 = purge_entries(es0.skip(i + 1), now_ms, (target - removed - n) as nat);
                assert(seq![self@[i as int]] + r2.0 =~= seq![(tail[0].0, purge_recipient(tail[0].1, now_ms, (target - removed) as nat).0)] + r2.0);
                assert(self@.take(i + 1) + r2.0 =~= before.take(i as int) + (seq![self@[i as int]] + r2.0));
            }
            removed = removed + n;
            i = i + 1;
        }
        assert(self@.take(len as int) =~= self@);
        removed
    }
}

} // verus!

verus! {

// The laws of the in-memory store: what its operations keep and undo.

/// A well-formed store keeps its recipients sorted by name and every
/// recipient's queue in strictly increasing arrival order, each queued
/// message addressed to its recipient.
pub proof fn lemma_store_sorted(store: &MemStore)
    requires
        store.wf(),
    ensures
        names_sorted(store@),
        forall|i: int| 0 <= i < store@.len() ==> recipient_wf(#[trigger] store@[i].0, store@[i].1),
{
    assert forall|i: int| 0 <= i < store@.len() implies recipient_wf(#[trigger] store@[i].0, store@[i].1) by {
        assert(store.entries@[i].state.wf(store.entries@[i].name@));
    }
}

/// A stored push appends the message at the end of its recipient's queue,
/// under the next arrival number (while the counter is not exhausted).
pub proof fn lemma_push_appends(name: Seq<char>, rv: RecipientView, m: InboundMessageView, limits: RelayLimits)
    requires
        recipient_wf(name, rv),
        rv.seq < u64::MAX,
        push_spec(rv, m, limits).0 matches Ok(r) && r.stored,
    ensures
        push_spec(rv, m, limits).1.queue == rv.queue.push(stored_message(m, rv.seq)),
        push_spec(rv, m, limits).1.seq == rv.seq + 1,
{
    if rv.queue.len() > 0 {
        assert(rv.queue[rv.queue.len() - 1].arrival_seq < rv.seq);
    }
}

/// Pushing a chunk that is already indexed again stores nothing, reports a
/// duplicate with the current queue length and size, and changes nothing.
pub proof fn lemma_push_duplicate(rv: RecipientView, m1: InboundMessageView, m2: InboundMessageView, limits: RelayLimits)
    requires
        dedup_key_of(m1) == dedup_key_of(m2),
        push_spec(rv, m1, limits).0 is Ok,
    ensures
        ({
            let rv1 = push_spec(rv, m1, limits).1;
            push_spec(rv1, m2, limits) == (
                Ok::<PushResult, EnigmaRelayError>(
                    PushResult {
                        stored: false,
                        duplicate: true,
                        queue_len: rv1.quota_count,
                        queue_bytes: rv1.quota_bytes,
                    },
                ),
                rv1,
            )
        }),
{
}

/// A refused push changes nothing.
pub proof fn lemma_refused_push_unchanged(rv: RecipientView, m: InboundMessageView, limits: RelayLimits)
    requires
        push_spec(rv, m, limits).0 is Err,
    ensures
        push_spec(rv, m, limits).1 == rv,
        push_spec(rv, m, limits).0 == Err::<PushResult, EnigmaRelayError>(EnigmaRelayError::QuotaExceeded),
{
}

/// Acknowledging a chunk right after it was stored deletes it: one deletion,
/// and the recipient is as before the push but for the arrival counter,
/// provided the quota counters did not saturate. Acknowledging it again
/// deletes nothing and counts it as missing.
pub proof fn lemma_ack_undoes_push(name: Seq<char>, rv: RecipientView, m: InboundMessageView, limits: RelayLimits)
    requires
        recipient_wf(name, rv),
        rv.seq < u64::MAX,
        rv.quota_count < u64::MAX,
        rv.quota_bytes + m.payload_bytes <= u64::MAX,
        push_spec(rv, m, limits).0 matches Ok(r) && r.stored,
    ensures
        ({
            let rv1 = push_spec(rv, m, limits).1;
            let item = AckItem { message_id: m.message_id, chunk_index: m.meta.chunk_index };
            let a = ack_fold(rv1, seq![item]);
            &&& a.1 == (1u64, 0u64)
            &&& a.0 == RecipientView { seq: rv1.seq, ..rv }
            &&& ack_fold(a.0, seq![item]) == (a.0, (0u64, 1u64))
        }),
{
    let rv1 = push_spec(rv, m, limits).1;
    let item = AckItem { message_id: m.message_id, chunk_index: m.meta.chunk_index };
    let key = dedup_key_of(m);
    lemma_push_appends(name, rv, m, limits);
    let q1 = rv1.queue;
    let last = q1.len() - 1;
    assert(strictly_sorted(q1)) by {
        assert forall|a: int, b: int| 0 <= a < b < q1.len() implies q1[a].arrival_seq < q1[b].arrival_seq by {
            if b == last {
                assert(q1[a] == rv.queue[a]);
                assert(rv.queue[a].arrival_seq <= rv.seq);
            } else {
                assert(q1[a] == rv.queue[a]);
                assert(q1[b] == rv.queue[b]);
            }
        }
    }
    assert(q1[last].arrival_seq == rv.seq);
    lemma_seq_unique(q1, last);
    assert(q1.remove(last) =~= rv.queue);
    assert(!rv.idx.contains_key(key));
    assert(rv1.idx.remove(key) =~= rv.idx);
    let s1 = seq![item];
    assert(s1.drop_last() =~= Seq::<AckItem>::empty());
    assert(s1.last() == item);
    assert(ack_fold(rv1, s1.drop_last()) == (rv1, (0u64, 0u64)));
    let a = ack_fold(rv1, s1);
    assert(a == ack_step(rv1, (0u64, 0u64), item));
    assert(a.0.idx =~= rv.idx);
    assert(!a.0.idx.contains_key(key));
    assert(ack_fold(a.0, s1.drop_last()) == (a.0, (0u64, 0u64)));
    assert(ack_fold(a.0, s1) == ack_step(a.0, (0u64, 0u64), item));
}

/// A page holds only live messages: every item's deadline is after `now`.
pub proof fn lemma_page_items_live(s: Seq<QueueMessageView>, now: u64, room: nat)
    ensures
        forall|i: int| 0 <= i < scan(s, now, room).0.len() ==> (#[trigger] scan(s, now, room).0[i]).deadline_ms > now,
        scan(s, now, room).0.len() <= room,
    decreases s.len(),
{
    if s.len() > 0 {
        let d = s.drop_first();
        if s[0].deadline_ms <= now {
            lemma_page_items_live(d, now, room);
            assert(scan(s, now, room).0 == scan(d, now, room).0);
        } else if room > 0 {
            lemma_page_items_live(d, now, (room - 1) as nat);
            let r = scan(d, now, (room - 1) as nat);
            assert forall|i: int| 0 <= i < scan(s, now, room).0.len() implies (#[trigger] scan(s, now, room).0[i]).deadline_ms > now by {
                if i > 0 {
                    assert(scan(s, now, room).0[i] == r.0[i - 1]);
                }
            }
        }
    }
}

/// When nothing has expired, a page is the first `room` messages in order,
/// nothing is set aside, and more remain exactly when they do not all fit.
pub proof fn lemma_page_without_expiry(s: Seq<QueueMessageView>, now: u64, room: nat)
    requires
        forall|i: int| 0 <= i < s.len() ==> (#[trigger] s[i]).deadline_ms > now,
    ensures
        scan(s, now, room) == (
            s.take(if s.len() < room { s.len() as int } else { room as int }),
            Seq::<QueueMessageView>::empty(),
            s.len() > room,
        ),
    decreases s.len(),
{
    if s.len() > 0 {
        let d = s.drop_first();
        assert forall|i: int| 0 <= i < d.len() implies (#[trigger] d[i]).deadline_ms > now by {
            assert(d[i] == s[i + 1]);
        }
        if room > 0 {
            lemma_page_without_expiry(d, now, (room - 1) as nat);
            let k = if d.len() < (room - 1) as nat { d.len() as int } else { (room - 1) as int };
            assert(seq![s[0]] + d.take(k) =~= s.take(k + 1));
        } else {
            assert(s.take(0) =~= Seq::<QueueMessageView>::empty());
        }
    } else {
        assert(s.take(0) =~= s);
    }
}

/// In an ordered queue, a cursor at arrival number `s` skips exactly the
/// messages numbered `s` or less: the page resumes right after it.
pub proof fn lemma_after_cursor_exact(q: Seq<QueueMessageView>, s: u64)
    requires
        strictly_sorted(q),
    ensures
        ({
            let k = leading_at_most(q, s) as int;
            &&& k <= q.len()
            &&& forall|i: int| 0 <= i < k ==> (#[trigger] q[i]).arrival_seq <= s
            &&& forall|i: int| k <= i < q.len() ==> (#[trigger] q[i]).arrival_seq > s
            &&& after_cursor(q, Some(s)) == q.skip(k)
        }),
    decreases q.len(),
{
    if q.len() > 0 && q[0].arrival_seq <= s {
        let d = q.drop_first();
        assert(strictly_sorted(d)) by {
            assert forall|a: int, b: int| 0 <= a < b < d.len() implies d[a].arrival_seq < d[b].arrival_seq by {
                assert(d[a] == q[a + 1]);
                assert(d[b] == q[b + 1]);
            }
        }
        lemma_after_cursor_exact(d, s);
        let k = leading_at_most(q, s) as int;
        assert forall|i: int| 0 <= i < k implies (#[trigger] q[i]).arrival_seq <= s by {
            if i > 0 {
                assert(q[i] == d[i - 1]);
            }
        }
        assert forall|i: int| k <= i < q.len() implies (#[trigger] q[i]).arrival_seq > s by {
            assert(q[i] == d[i - 1]);
        }
    } else if q.len() > 0 {
        assert forall|i: int| 0 <= i < q.len() implies (#[trigger] q[i]).arrival_seq > s by {
            if i > 0 {
                assert(q[0].arrival_seq < q[i].arrival_seq);
            }
        }
    }
}

/// A garbage-collection pass removes at most its budget of messages and
/// keeps every recipient, in the same order.
pub proof fn lemma_purge_bounded(es: Seq<(Seq<char>, RecipientView)>, now: u64, budget: nat)
    ensures
        purge_entries(es, now, budget).1 <= budget,
        purge_entries(es, now, budget).0.len() == es.len(),
        forall|i: int| 0 <= i < es.len() ==> (#[trigger] purge_entries(es, now, budget).0[i]).0 == es[i].0,
    decreases es.len(),
{
    if es.len() > 0 && budget > 0 {
        let p = purge_recipient(es[0].1, now, budget);
        assert(p.1 <= budget);
        let d = es.drop_first();
        lemma_purge_bounded(d, now, (budget - p.1) as nat);
        let r = purge_entries(d, now, (budget - p.1) as nat);
        assert forall|i: int| 0 <= i < es.len() implies (#[trigger] purge_entries(es, now, budget).0[i]).0 == es[i].0 by {
            if i > 0 {
                assert(purge_entries(es, now, budget).0[i] == r.0[i - 1]);
                assert(d[i - 1] == es[i]);
            }
        }
    }
}


/// The total payload size of the messages of a queue.
pub open spec fn payload_total(q: Seq<QueueMessageView>) -> nat
    decreases q.len(),
{
    if q.len() == 0 {
        0
    } else {
        payload_total(q.drop_last()) + q.last().payload_bytes as nat
    }
}

/// The bookkeeping of a recipient agrees with its queue: the dedup index
/// names exactly the queued chunks, each under its arrival number, and the
/// quotas count the queued messages and their payload bytes.
pub open spec fn books_balanced(rv: RecipientView) -> bool {
    &&& forall|i: int|
        0 <= i < rv.queue.len() ==> {
            &&& rv.idx.contains_key(#[trigger] queued_key(rv.queue[i]))
            &&& rv.idx[queued_key(rv.queue[i])] == rv.queue[i].arrival_seq
        }
    &&& forall|k: (u128, u32)|
        #[trigger] rv.idx.contains_key(k) ==> exists|i: int|
            0 <= i < rv.queue.len() && #[trigger] queued_key(rv.queue[i]) == k
    &&& rv.quota_count == rv.queue.len()
    &&& rv.quota_bytes == payload_total(rv.queue)
}

/// The recipient without its `i`-th queued message, that message's dedup
/// entry and its share of the quotas.
spec fn without_at(rv: RecipientView, i: int) -> RecipientView {
    let m = rv.queue[i];
    RecipientView {
        seq: rv.seq,
        queue: rv.queue.remove(i),
        idx: rv.idx.remove(queued_key(m)),
        quota_bytes: rv.quota_bytes.saturating_sub(m.payload_bytes),
        quota_count: rv.quota_count.saturating_sub(1),
    }
}

proof fn lemma_payload_remove(q: Seq<QueueMessageView>, i: int)
    requires
        0 <= i < q.len(),
    ensures
        payload_total(q.remove(i)) + q[i].payload_bytes == payload_total(q),
    decreases q.len(),
{
    let d = q.drop_last();
    if i == q.len() - 1 {
        assert(q.remove(i) =~= d);
    } else {
        lemma_payload_remove(d, i);
        assert(q.remove(i).drop_last() =~= d.remove(i));
        assert(q.remove(i).last() == q.last());
    }
}

proof fn lemma_keys_distinct(rv: RecipientView, i: int, j: int)
    requires
        strictly_sorted(rv.queue),
        books_balanced(rv),
        0 <= i < rv.queue.len(),
        0 <= j < rv.queue.len(),
        i != j,
    ensures
        queued_key(rv.queue[i]) != queued_key(rv.queue[j]),
{
    if i < j {
        assert(rv.queue[i].arrival_seq < rv.queue[j].arrival_seq);
    } else {
        assert(rv.queue[j].arrival_seq < rv.queue[i].arrival_seq);
    }
}

proof fn lemma_without_at(name: Seq<char>, rv: RecipientView, i: int)
    requires
        recipient_wf(name, rv),
        books_balanced(rv),
        0 <= i < rv.queue.len(),
    ensures
        recipient_wf(name, without_at(rv, i)),
        books_balanced(without_at(rv, i)),
{
    let q = rv.queue;
    let r = without_at(rv, i);
    let k = queued_key(q[i]);
    lemma_remove_keeps_sorted(q, i);
    lemma_payload_remove(q, i);
    assert forall|j: int| 0 <= j < r.queue.len() implies {
        &&& (#[trigger] r.queue[j]).arrival_seq <= r.seq
        &&& (r.queue[j].arrival_seq == r.seq ==> r.seq == u64::MAX)
        &&& r.queue[j].recipient == name
        &&& r.idx.contains_key(queued_key(r.queue[j]))
        &&& r.idx[queued_key(r.queue[j])] == r.queue[j].arrival_seq
    } by {
        let j1 = if j < i {
            j
        } else {
            j + 1
        };
        assert(r.queue[j] == q[j1]);
        lemma_keys_distinct(rv, i, j1);
    }
    assert forall|kk: (u128, u32)| #[trigger] r.idx.contains_key(kk) implies exists|j: int|
        0 <= j < r.queue.len() && #[trigger] queued_key(r.queue[j]) == kk by {
        assert(rv.idx.contains_key(kk));
        let j1 = choose|j1: int| 0 <= j1 < q.len() && #[trigger] queued_key(q[j1]) == kk;
        assert(j1 != i);
        let j = if j1 < i {
            j1
        } else {
            j1 - 1
        };
        assert(r.queue[j] == q[j1]);
    }
}

proof fn lemma_drop_seq_books(name: Seq<char>, rv: RecipientView, s: u64)
    requires
        recipient_wf(name, rv),
        books_balanced(rv),
    ensures
        recipient_wf(name, drop_seq(rv, s)),
        books_balanced(drop_seq(rv, s)),
{
    if exists|i: int| 0 <= i < rv.queue.len() && rv.queue[i].arrival_seq == s {
        let i = choose|i: int| 0 <= i < rv.queue.len() && rv.queue[i].arrival_seq == s;
        lemma_seq_unique(rv.queue, i);
        assert(drop_seq(rv, s) == without_at(rv, i));
        lemma_without_at(name, rv, i);
    }
}

proof fn lemma_drop_all_books(name: Seq<char>, rv: RecipientView, seqs: Seq<u64>)
    requires
        recipient_wf(name, rv),
        books_balanced(rv),
    ensures
        recipient_wf(name, drop_all(rv, seqs)),
        books_balanced(drop_all(rv, seqs)),
    decreases seqs.len(),
{
    if seqs.len() > 0 {
        lemma_drop_all_books(name, rv, seqs.drop_last());
        lemma_drop_seq_books(name, drop_all(rv, seqs.drop_last()), seqs.last());
    }
}

proof fn lemma_ack_step_books(name: Seq<char>, rv: RecipientView, counts: (u64, u64), item: AckItem)
    requires
        recipient_wf(name, rv),
        books_balanced(rv),
    ensures
        recipient_wf(name, ack_step(rv, counts, item).0),
        books_balanced(ack_step(rv, counts, item).0),
        counts.0 + counts.1 < u64::MAX ==> ack_step(rv, counts, item).1.0 + ack_step(
            rv,
            counts,
            item,
        ).1.1 == counts.0 + counts.1 + 1,
        ack_step(rv, counts, item).0.queue.len() + ack_step(rv, counts, item).1.0 == rv.queue.len()
            + counts.0 || counts.0 == u64::MAX,
{
    let key = (item.message_id, item.chunk_index);
    if rv.idx.contains_key(key) {
        let i = choose|i: int| 0 <= i < rv.queue.len() && #[trigger] queued_key(rv.queue[i]) == key;
        lemma_seq_unique(rv.queue, i);
        assert(ack_step(rv, counts, item).0 == without_at(rv, i));
        lemma_without_at(name, rv, i);
    }
}

proof fn lemma_ack_fold_books(name: Seq<char>, rv: RecipientView, items: Seq<AckItem>)
    requires
        recipient_wf(name, rv),
        books_balanced(rv),
    ensures
        recipient_wf(name, ack_fold(rv, items).0),
        books_balanced(ack_fold(rv, items).0),
        items.len() <= u64::MAX ==> ack_fold(rv, items).1.0 + ack_fold(rv, items).1.1 == items.len(),
        items.len() <= u64::MAX ==> ack_fold(rv, items).0.queue.len() + ack_fold(rv, items).1.0
            == rv.queue.len(),
    decreases items.len(),
{
    if items.len() > 0 {
        lemma_ack_fold_books(name, rv, items.drop_last());
        let r = ack_fold(rv, items.drop_last());
        lemma_ack_step_books(name, r.0, r.1, items.last());
    }
}

/// A recipient that was never written to keeps its books balanced.
pub proof fn lemma_empty_recipient_balanced(name: Seq<char>)
    ensures
        recipient_wf(name, empty_recipient()),
        books_balanced(empty_recipient()),
{
}

/// A push keeps a recipient's books balanced: a stored message enters the
/// index under its arrival number and the quotas by one message and its
/// payload size. This holds while the arrival counter is not exhausted and
/// the quota counters do not saturate.
pub proof fn lemma_push_keeps_books(name: Seq<char>, rv: RecipientView, m: InboundMessageView, limits: RelayLimits)
    requires
        recipient_wf(name, rv),
        books_balanced(rv),
        m.recipient == name,
        rv.seq < u64::MAX,
        rv.quota_count < u64::MAX,
        rv.quota_bytes + m.payload_bytes <= u64::MAX,
    ensures
        recipient_wf(name, push_spec(rv, m, limits).1),
        books_balanced(push_spec(rv, m, limits).1),
{
    let r = push_spec(rv, m, limits);
    if r.0 matches Ok(res) && res.stored {
        lemma_push_appends(name, rv, m, limits);
        let q = rv.queue;
        let sm = stored_message(m, rv.seq);
        let key = dedup_key_of(m);
        let n = r.1;
        assert(n.queue =~= q.push(sm));
        assert(n.queue.drop_last() =~= q);
        assert forall|j: int| 0 <= j < n.queue.len() implies {
            &&& (#[trigger] n.queue[j]).arrival_seq <= n.seq
            &&& (n.queue[j].arrival_seq == n.seq ==> n.seq == u64::MAX)
            &&& n.queue[j].recipient == name
            &&& n.idx.contains_key(queued_key(n.queue[j]))
            &&& n.idx[queued_key(n.queue[j])] == n.queue[j].arrival_seq
        } by {
            if j < q.len() {
                assert(n.queue[j] == q[j]);
                assert(rv.idx.contains_key(queued_key(q[j])));
            } else {
                assert(n.queue[j] == sm);
            }
        }
        assert forall|a: int, b: int| 0 <= a < b < n.queue.len() implies n.queue[a].arrival_seq
            < n.queue[b].arrival_seq by {
            if b < q.len() {
                assert(n.queue[a] == q[a]);
                assert(n.queue[b] == q[b]);
            } else {
                assert(n.queue[a] == q[a]);
            }
        }
        assert forall|kk: (u128, u32)| #[trigger] n.idx.contains_key(kk) implies exists|j: int|
            0 <= j < n.queue.len() && #[trigger] queued_key(n.queue[j]) == kk by {
            if kk == key {
                assert(queued_key(n.queue[q.len() as int]) == kk);
            } else {
                assert(rv.idx.contains_key(kk));
                let j = choose|j: int| 0 <= j < q.len() && #[trigger] queued_key(q[j]) == kk;
                assert(n.queue[j] == q[j]);
            }
        }
    }
}

/// Acknowledging keeps a recipient's books balanced, and, the index naming
/// every queued chunk, each acknowledged chunk (after repeats are left out)
/// is counted once, as deleted or as missing, and the queue shrinks by the
/// deleted ones.
pub proof fn lemma_ack_keeps_books(name: Seq<char>, rv: RecipientView, items: Seq<AckItem>)
    requires
        recipient_wf(name, rv),
        books_balanced(rv),
        items.len() <= u64::MAX,
    ensures
        recipient_wf(name, ack_fold(rv, items).0),
        books_balanced(ack_fold(rv, items).0),
        ack_fold(rv, items).1.0 + ack_fold(rv, items).1.1 == items.len(),
        ack_fold(rv, items).0.queue.len() + ack_fold(rv, items).1.0 == rv.queue.len(),
{
    lemma_ack_fold_books(name, rv, items);
}

/// A pull keeps a recipient's books balanced: the expired messages it meets
/// leave the queue, the index and the quotas together.
pub proof fn lemma_page_keeps_books(name: Seq<char>, rv: RecipientView, start: Option<u64>, limit: u64, now: u64)
    requires
        recipient_wf(name, rv),
        books_balanced(rv),
    ensures
        recipient_wf(name, page_spec(rv, start, limit, now).2),
        books_balanced(page_spec(rv, start, limit, now).2),
{
    let r = scan(after_cursor(rv.queue, start), now, page_room(limit));
    lemma_drop_all_books(name, rv, seqs_of(r.1));
}

/// Garbage collection keeps a recipient's books balanced.
pub proof fn lemma_purge_keeps_books(name: Seq<char>, rv: RecipientView, now: u64, budget: nat)
    requires
        recipient_wf(name, rv),
        books_balanced(rv),
    ensures
        recipient_wf(name, purge_recipient(rv, now, budget).0),
        books_balanced(purge_recipient(rv, now, budget).0),
{
    let e = expired_in(rv.queue, now);
    let n = if budget < e.len() {
        budget
    } else {
        e.len()
    };
    lemma_drop_all_books(name, rv, seqs_of(e.take(n as int)));
}

/// What a pull gives back of a push: after a stored push, a page from the
/// start of the queue with room for all of it, read while nothing queued has
/// expired, holds the earlier messages in order followed by the new one,
/// reports that no more remain, and changes nothing. (At an exhausted arrival
/// counter the new message would replace the last one instead.)
pub proof fn lemma_pull_returns_push(
    name: Seq<char>,
    rv: RecipientView,
    m: InboundMessageView,
    limits: RelayLimits,
    limit: u64,
    now: u64,
)
    requires
        recipient_wf(name, rv),
        rv.seq < u64::MAX,
        push_spec(rv, m, limits).0 matches Ok(r) && r.stored,
        forall|i: int| 0 <= i < rv.queue.len() ==> now < (#[trigger] rv.queue[i]).deadline_ms,
        now < m.deadline_ms,
        rv.queue.len() + 1 <= page_room(limit),
    ensures
        ({
            let rv1 = push_spec(rv, m, limits).1;
            let p = page_spec(rv1, None, limit, now);
            &&& p.0 == rv.queue.push(stored_message(m, rv.seq))
            &&& !p.1
            &&& p.2 == rv1
        }),
{
    lemma_push_appends(name, rv, m, limits);
    let rv1 = push_spec(rv, m, limits).1;
    let q1 = rv1.queue;
    assert forall|i: int| 0 <= i < q1.len() implies (#[trigger] q1[i]).deadline_ms > now by {
        if i < rv.queue.len() {
            assert(q1[i] == rv.queue[i]);
        }
    }
    lemma_page_without_expiry(q1, now, page_room(limit));
    assert(q1.take(q1.len() as int) =~= q1);
    assert(seqs_of(Seq::<QueueMessageView>::empty()).len() == 0);
}

} // verus!
