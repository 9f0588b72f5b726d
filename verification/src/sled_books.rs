use vstd::prelude::*;

use crate::config::RelayLimits;
use crate::store::{plan_push_spec, PushPlan};
use crate::text::same_text;

verus! {

// The bookkeeping decisions of the persistent (sled) backend: what an
// acknowledgement does for each chunk, and how a garbage-collection pass
// keeps the quota counters of the recipients it touches.

/// What the persistent backend does for one acknowledged chunk.
#[derive(Clone, Copy, Debug, PartialEq, Eq, Structural)]
pub enum SledAckAction {
    /// The chunk is queued: remove its message and its index entry.
    Delete,
    /// The index names a message that is no longer stored: remove the stale
    /// index entry.
    DropIndex,
    /// The chunk is not indexed: nothing to remove.
    Missing,
}

/// One acknowledged chunk, given its index entry (the arrival number it
/// names, if any) and the payload size of the message stored under that
/// number (if any). `counts` is (deleted, missing) and `quota` is (messages,
/// bytes); a deletion releases one message and its bytes, anything else
/// counts as missing.
pub open spec fn sled_ack_step_spec(
    index_seq: Option<u64>,
    stored_payload: Option<u64>,
    counts: (u64, u64),
    quota: (u64, u64),
) -> (SledAckAction, (u64, u64), (u64, u64)) {
    match index_seq {
        None => (SledAckAction::Missing, (counts.0, counts.1.saturating_add(1)), quota),
        Some(_) => match stored_payload {
            Some(p) => (
                SledAckAction::Delete,
                (counts.0.saturating_add(1), counts.1),
                (quota.0.saturating_sub(1), quota.1.saturating_sub(p)),
            ),
            None => (SledAckAction::DropIndex, (counts.0, counts.1.saturating_add(1)), quota),
        },
    }
}

/// Decides one acknowledged chunk of the persistent backend.
pub fn sled_ack_step(index_seq: Option<u64>, stored_payload: Option<u64>, counts: (u64, u64), quota: (
    u64,
    u64,
)) -> (r: (SledAckAction, (u64, u64), (u64, u64)))
    ensures
        r == sled_ack_step_spec(index_seq, stored_payload, counts, quota),
{
    match index_seq {
        None => (SledAckAction::Missing, (counts.0, counts.1.saturating_add(1)), quota),
        Some(_) => match stored_payload {
            Some(p) => (
                SledAckAction::Delete,
                (counts.0.saturating_add(1), counts.1),
                (quota.0.saturating_sub(1), quota.1.saturating_sub(p)),
            ),
            None => (SledAckAction::DropIndex, (counts.0, counts.1.saturating_add(1)), quota),
        },
    }
}

/// `sled_ack_step` over the chunks of an acknowledgement in turn, each given
/// by what the store held for it, from zero counts. Returns the counts and
/// the quota.
pub open spec fn sled_ack_fold(obs: Seq<(Option<u64>, Option<u64>)>, quota: (u64, u64)) -> (
    (u64, u64),
    (u64, u64),
)
    decreases obs.len(),
{
    if obs.len() == 0 {
        ((0, 0), quota)
    } else {
        let r = sled_ack_fold(obs.drop_last(), quota);
        let s = sled_ack_step_spec(obs.last().0, obs.last().1, r.0, r.1);
        (s.1, s.2)
    }
}

/// The payload bytes of the chunks that an acknowledgement deletes.
pub open spec fn deleted_bytes(obs: Seq<(Option<u64>, Option<u64>)>) -> nat
    decreases obs.len(),
{
    if obs.len() == 0 {
        0
    } else {
        deleted_bytes(obs.drop_last()) + match (obs.last().0, obs.last().1) {
            (Some(_), Some(p)) => p as nat,
            _ => 0,
        }
    }
}

/// An acknowledgement of distinct chunks counts each of them once, as
/// deleted or as missing, and releases from the quota exactly one message
/// per deletion and the deleted payload bytes, while the quota holds at
/// least that much.
pub proof fn lemma_sled_ack_counts(obs: Seq<(Option<u64>, Option<u64>)>, quota: (u64, u64))
    requires
        obs.len() <= u64::MAX,
        quota.0 >= obs.len(),
        quota.1 >= deleted_bytes(obs),
    ensures
        ({
            let (counts, q) = sled_ack_fold(obs, quota);
            &&& counts.0 + counts.1 == obs.len()
            &&& q.0 == quota.0 - counts.0
            &&& q.1 == quota.1 - deleted_bytes(obs)
        }),
    decreases obs.len(),
{
    if obs.len() > 0 {
        lemma_sled_ack_counts(obs.drop_last(), quota);
    }
}

/// A push that the plan stores adds exactly one message and its payload
/// bytes to the recipient's quota and moves the arrival counter on by one,
/// while neither counter saturates; a duplicate or refused push changes no
/// counter, as the plan gives none.
pub proof fn lemma_stored_push_books(
    indexed: bool,
    quota_count: u64,
    quota_bytes: u64,
    next_seq: u64,
    payload_bytes: u64,
    limits: RelayLimits,
)
    requires
        quota_count < u64::MAX,
        next_seq < u64::MAX,
        quota_bytes + payload_bytes <= u64::MAX,
    ensures
        plan_push_spec(indexed, quota_count, quota_bytes, next_seq, payload_bytes, limits) matches PushPlan::Store {
            arrival_seq,
            next_seq: n,
            queue_len,
            queue_bytes,
        } ==> arrival_seq == next_seq && n == next_seq + 1 && queue_len == quota_count + 1
            && queue_bytes == quota_bytes + payload_bytes,
{
}

/// The quota counters after a message of `payload` bytes leaves the queue.
pub open spec fn release_one(totals: (u64, u64), payload: u64) -> (u64, u64) {
    (totals.0.saturating_sub(1), totals.1.saturating_sub(payload))
}

/// The quota counters after messages of the given sizes leave the queue in
/// turn.
pub open spec fn release_all(totals: (u64, u64), payloads: Seq<u64>) -> (u64, u64)
    decreases payloads.len(),
{
    if payloads.len() == 0 {
        totals
    } else {
        release_one(release_all(totals, payloads.drop_last()), payloads.last())
    }
}

pub open spec fn payload_sum(payloads: Seq<u64>) -> nat
    decreases payloads.len(),
{
    if payloads.len() == 0 {
        0
    } else {
        payload_sum(payloads.drop_last()) + payloads.last() as nat
    }
}

/// Releasing messages one by one takes exactly one message and its bytes off
/// the counters for each, while the counters hold that much.
pub proof fn lemma_release_all(totals: (u64, u64), payloads: Seq<u64>)
    requires
        totals.0 >= payloads.len(),
        totals.1 >= payload_sum(payloads),
    ensures
        release_all(totals, payloads) == (
            (totals.0 - payloads.len()) as u64,
            (totals.1 - payload_sum(payloads)) as u64,
        ),
    decreases payloads.len(),
{
    if payloads.len() > 0 {
        lemma_release_all(totals, payloads.drop_last());
    }
}

/// One recipient's quota counters in a ledger.
pub struct QuotaEntry {
    pub recipient: String,
    pub count: u64,
    pub bytes: u64,
}

/// The quota counters of the recipients a garbage-collection pass touches:
/// each recipient's stored counters, read once when it is first met, less
/// what the pass released for it.
pub struct QuotaLedger {
    entries: Vec<QuotaEntry>,
}

/// The recipient's counters in a ledger's entries, if it has any.
pub open spec fn ledger_get(es: Seq<(Seq<char>, (u64, u64))>, name: Seq<char>) -> Option<(u64, u64)>
    decreases es.len(),
{
    if es.len() == 0 {
        None
    } else if es[0].0 == name {
        Some(es[0].1)
    } else {
        ledger_get(es.drop_first(), name)
    }
}

spec fn entry_view(e: QuotaEntry) -> (Seq<char>, (u64, u64)) {
    (e.recipient@, (e.count, e.bytes))
}

proof fn lemma_ledger_get_at(es: Seq<(Seq<char>, (u64, u64))>, i: int, name: Seq<char>)
    requires
        0 <= i < es.len(),
        es[i].0 == name,
        forall|j: int| 0 <= j < i ==> (#[trigger] es[j]).0 != name,
    ensures
        ledger_get(es, name) == Some(es[i].1),
    decreases i,
{
    if i > 0 {
        assert(es[0].0 != name);
        lemma_ledger_get_at(es.drop_first(), i - 1, name);
    }
}

proof fn lemma_ledger_get_none(es: Seq<(Seq<char>, (u64, u64))>, name: Seq<char>)
    requires
        forall|j: int| 0 <= j < es.len() ==> (#[trigger] es[j]).0 != name,
    ensures
        ledger_get(es, name) is None,
    decreases es.len(),
{
    if es.len() > 0 {
        assert(es[0].0 != name);
        lemma_ledger_get_none(es.drop_first(), name);
    }
}

proof fn lemma_ledger_get_update(es: Seq<(Seq<char>, (u64, u64))>, i: int, v: (u64, u64), other: Seq<char>)
    requires
        0 <= i < es.len(),
        es[i].0 != other,
    ensures
        ledger_get(es.update(i, (es[i].0, v)), other) == ledger_get(es, other),
    decreases es.len(),
{
    let u = es.update(i, (es[i].0, v));
    if i > 0 {
        assert(u.drop_first() =~= es.drop_first().update(i - 1, (es[i].0, v)));
        lemma_ledger_get_update(es.drop_first(), i - 1, v, other);
    } else {
        assert(u.drop_first() =~= es.drop_first());
    }
}

proof fn lemma_ledger_get_push(es: Seq<(Seq<char>, (u64, u64))>, e: (Seq<char>, (u64, u64)), other: Seq<char>)
    requires
        e.0 != other,
    ensures
        ledger_get(es.push(e), other) == ledger_get(es, other),
    decreases es.len(),
{
    if es.len() > 0 {
        assert(es.push(e).drop_first() =~= es.drop_first().push(e));
        lemma_ledger_get_push(es.drop_first(), e, other);
    } else {
        assert(es.push(e).drop_first() =~= es);
    }
}

impl QuotaLedger {
    /// The recipients' counters, in the order they were first met.
    pub closed spec fn entries_view(&self) -> Seq<(Seq<char>, (u64, u64))> {
        self.entries@.map_values(|e: QuotaEntry| entry_view(e))
    }

    /// The counters of a recipient, if the ledger has met it.
    pub open spec fn get(&self, name: Seq<char>) -> Option<(u64, u64)> {
        ledger_get(self.entries_view(), name)
    }

    /// Each recipient appears once.
    pub closed spec fn wf(&self) -> bool {
        forall|i: int, j: int|
            0 <= i < j < self.entries@.len() ==> (#[trigger] self.entries@[i]).recipient@
                != (#[trigger] self.entries@[j]).recipient@
    }

    pub fn new() -> (r: QuotaLedger)
        ensures
            r.wf(),
            forall|name: Seq<char>| (#[trigger] r.get(name)) is None,
    {
        let r = QuotaLedger { entries: Vec::new() };
        assert(r.entries_view() =~= Seq::<(Seq<char>, (u64, u64))>::empty());
        r
    }

    fn find(&self, recipient: &str) -> (r: Option<usize>)
        ensures
            match r {
                Some(i) => i < self.entries@.len() && self.entries@[i as int].recipient@ == recipient@,
                None => forall|j: int| 0 <= j < self.entries@.len() ==> (#[trigger] self.entries@[j]).recipient@ != recipient@,
            },
    {
        let mut i: usize = 0;
        while i < self.entries.len()
            invariant
                i <= self.entries@.len(),
                forall|j: int| 0 <= j < i ==> (#[trigger] self.entries@[j]).recipient@ != recipient@,
            decreases self.entries@.len() - i,
        {
            if same_text(self.entries[i].recipient.as_str(), recipient) {
                return Some(i);
            }
            i = i + 1;
        }
        None
    }

    /// Whether the ledger has met the recipient, so that its stored counters
    /// need not be read again.
    pub fn knows(&self, recipient: &str) -> (r: bool)
        requires
            self.wf(),
        ensures
            r == self.get(recipient@) is Some,
    {
        match self.find(recipient) {
            Some(i) => {
                proof {
                    self.lemma_get_at(i as int);
                }
                true
            },
            None => {
                proof {
                    lemma_ledger_get_none(self.entries_view(), recipient@);
                }
                false
            },
        }
    }

    proof fn lemma_get_at(&self, i: int)
        requires
            self.wf(),
            0 <= i < self.entries@.len(),
        ensures
            self.get(self.entries@[i].recipient@) == Some((self.entries@[i].count, self.entries@[i].bytes)),
    {
        let ev = self.entries_view();
        assert forall|j: int| 0 <= j < i implies (#[trigger] ev[j]).0 != self.entries@[i].recipient@ by {
            assert(ev[j].0 == self.entries@[j].recipient@);
        }
        lemma_ledger_get_at(ev, i, self.entries@[i].recipient@);
    }

    /// Releases a message of `payload` bytes for a recipient. A recipient met
    /// for the first time starts from `stored`, its counters as stored (zero
    /// when none are stored); one already met continues from the ledger's
    /// counters. The other recipients keep theirs.
    pub fn release(&mut self, recipient: &str, stored: Option<(u64, u64)>, payload: u64)
        requires
            old(self).wf(),
        ensures
            final(self).wf(),
            final(self).get(recipient@) == Some(
                release_one(
                    match old(self).get(recipient@) {
                        Some(t) => t,
                        None => match stored {
                            Some(t) => t,
                            None => (0u64, 0u64),
                        },
                    },
                    payload,
                ),
            ),
            forall|other: Seq<char>| other != recipient@ ==> #[trigger] final(self).get(other) == old(self).get(other),
    {
        let ghost ev0 = self.entries_view();
        match self.find(recipient) {
            Some(i) => {
                proof {
                    self.lemma_get_at(i as int);
                }
                let count = self.entries[i].count.saturating_sub(1);
                let bytes = self.entries[i].bytes.saturating_sub(payload);
                let ghost old_entries = self.entries@;
                let name = self.entries[i].recipient.clone();
                self.entries.set(i, QuotaEntry { recipient: name, count, bytes });
                proof {
                    assert(self.entries_view() =~= ev0.update(i as int, (recipient@, (count, bytes))));
                    assert forall|a: int, b: int| 0 <= a < b < self.entries@.len() implies (#[trigger] self.entries@[a]).recipient@
                        != (#[trigger] self.entries@[b]).recipient@ by {
                        assert(self.entries@[a].recipient@ == old_entries[a].recipient@);
                        assert(self.entries@[b].recipient@ == old_entries[b].recipient@);
                    }
                    self.lemma_get_at(i as int);
                    assert forall|other: Seq<char>| other != recipient@ implies #[trigger] self.get(other)
                        == old(self).get(other) by {
                        lemma_ledger_get_update(ev0, i as int, (count, bytes), other);
                    }
                }
            },
            None => {
                proof {
                    lemma_ledger_get_none(ev0, recipient@);
                }
                let base = match stored {
                    Some(t) => t,
                    None => (0u64, 0u64),
                };
                let count = base.0.saturating_sub(1);
                let bytes = base.1.saturating_sub(payload);
                let ghost old_entries = self.entries@;
                self.entries.push(QuotaEntry { recipient: recipient.to_owned(), count, bytes });
                proof {
                    assert(self.entries_view() =~= ev0.push((recipient@, (count, bytes))));
                    assert forall|a: int, b: int| 0 <= a < b < self.entries@.len() implies (#[trigger] self.entries@[a]).recipient@
                        != (#[trigger] self.entries@[b]).recipient@ by {
                        assert(self.entries@[a] == old_entries[a]);
                        if b < old_entries.len() {
                            assert(self.entries@[b] == old_entries[b]);
                        }
                    }
                    self.lemma_get_at(old_entries.len() as int);
                    assert forall|other: Seq<char>| other != recipient@ implies #[trigger] self.get(other)
                        == old(self).get(other) by {
                        lemma_ledger_get_push(ev0, (recipient@, (count, bytes)), other);
                    }
                }
            },
        }
    }

    /// The counters to write back: one entry per recipient met, each holding
    /// the ledger's counters for it.
    pub fn entries(&self) -> (r: &Vec<QuotaEntry>)
        requires
            self.wf(),
        ensures
            forall|i: int| 0 <= i < r@.len() ==> self.get((#[trigger] r@[i]).recipient@) == Some(
                (r@[i].count, r@[i].bytes),
            ),
            forall|name: Seq<char>| #[trigger] self.get(name) is Some ==> exists|i: int|
                0 <= i < r@.len() && r@[i].recipient@ == name,
    {
        proof {
            assert forall|i: int| 0 <= i < self.entries@.len() implies self.get((#[trigger] self.entries@[i]).recipient@)
                == Some((self.entries@[i].count, self.entries@[i].bytes)) by {
                self.lemma_get_at(i);
            }
            assert forall|name: Seq<char>| #[trigger] self.get(name) is Some implies exists|i: int|
                0 <= i < self.entries@.len() && self.entries@[i].recipient@ == name by {
                if !exists|i: int| 0 <= i < self.entries@.len() && self.entries@[i].recipient@ == name {
                    let ev = self.entries_view();
                    assert forall|j: int| 0 <= j < ev.len() implies (#[trigger] ev[j]).0 != name by {
                        assert(ev[j].0 == self.entries@[j].recipient@);
                    }
                    lemma_ledger_get_none(ev, name);
                }
            }
        }
        &self.entries
    }
}

} // verus!
