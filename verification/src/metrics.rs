use vstd::prelude::*;

use crate::store::{AckOutcome, PushResult};

verus! {

/// The relay's counters. Each counts events since start and wraps around on
/// overflow, as atomic additions do.
#[derive(Debug)]
pub struct RelayMetrics {
    pub push_total: u64,
    pub push_stored: u64,
    pub duplicates: u64,
    pub pull_total: u64,
    pub ack_total: u64,
    pub ack_deleted: u64,
    pub rate_limited: u64,
    pub gc_removed: u64,
}

/// A copy of the counters at one moment.
#[derive(Clone, Copy, Debug)]
pub struct MetricsSnapshot {
    pub push_total: u64,
    pub push_stored: u64,
    pub duplicates: u64,
    pub pull_total: u64,
    pub ack_total: u64,
    pub ack_deleted: u64,
    pub rate_limited: u64,
    pub gc_removed: u64,
}

impl Default for RelayMetrics {
    fn default() -> (r: RelayMetrics)
        ensures
            r.push_total == 0 && r.push_stored == 0 && r.duplicates == 0 && r.pull_total == 0
                && r.ack_total == 0 && r.ack_deleted == 0 && r.rate_limited == 0 && r.gc_removed
                == 0,
    {
        RelayMetrics {
            push_total: 0,
            push_stored: 0,
            duplicates: 0,
            pull_total: 0,
            ack_total: 0,
            ack_deleted: 0,
            rate_limited: 0,
            gc_removed: 0,
        }
    }
}

impl Default for MetricsSnapshot {
    fn default() -> (r: MetricsSnapshot)
        ensures
            r.push_total == 0 && r.push_stored == 0 && r.duplicates == 0 && r.pull_total == 0
                && r.ack_total == 0 && r.ack_deleted == 0 && r.rate_limited == 0 && r.gc_removed
                == 0,
    {
        MetricsSnapshot {
            push_total: 0,
            push_stored: 0,
            duplicates: 0,
            pull_total: 0,
            ack_total: 0,
            ack_deleted: 0,
            rate_limited: 0,
            gc_removed: 0,
        }
    }
}

impl RelayMetrics {
    /// The current value of every counter.
    pub fn snapshot(&self) -> (r: MetricsSnapshot)
        ensures
            r.push_total == self.push_total,
            r.push_stored == self.push_stored,
            r.duplicates == self.duplicates,
            r.pull_total == self.pull_total,
            r.ack_total == self.ack_total,
            r.ack_deleted == self.ack_deleted,
            r.rate_limited == self.rate_limited,
            r.gc_removed == self.gc_removed,
    {
        MetricsSnapshot {
            push_total: self.push_total,
            push_stored: self.push_stored,
            duplicates: self.duplicates,
            pull_total: self.pull_total,
            ack_total: self.ack_total,
            ack_deleted: self.ack_deleted,
            rate_limited: self.rate_limited,
            gc_removed: self.gc_removed,
        }
    }
}

impl RelayMetrics {
    /// Counts what a push came to: one more stored message, or one more
    /// duplicate.
    pub fn record_push_outcome(&mut self, result: &PushResult)
        ensures
            final(self).push_stored == if result.stored {
                old(self).push_stored.wrapping_add(1)
            } else {
                old(self).push_stored
            },
            final(self).duplicates == if result.duplicate {
                old(self).duplicates.wrapping_add(1)
            } else {
                old(self).duplicates
            },
            final(self).push_total == old(self).push_total,
            final(self).pull_total == old(self).pull_total,
            final(self).ack_total == old(self).ack_total,
            final(self).ack_deleted == old(self).ack_deleted,
            final(self).rate_limited == old(self).rate_limited,
            final(self).gc_removed == old(self).gc_removed,
    {
        if result.stored {
            self.push_stored = self.push_stored.wrapping_add(1);
        }
        if result.duplicate {
            self.duplicates = self.duplicates.wrapping_add(1);
        }
    }

    /// Counts the messages that an acknowledgement deleted.
    pub fn record_ack_outcome(&mut self, outcome: &AckOutcome)
        ensures
            final(self).ack_deleted == old(self).ack_deleted.wrapping_add(outcome.deleted),
            final(self).push_total == old(self).push_total,
            final(self).push_stored == old(self).push_stored,
            final(self).duplicates == old(self).duplicates,
            final(self).pull_total == old(self).pull_total,
            final(self).ack_total == old(self).ack_total,
            final(self).rate_limited == old(self).rate_limited,
            final(self).gc_removed == old(self).gc_removed,
    {
        self.ack_deleted = self.ack_deleted.wrapping_add(outcome.deleted);
    }

    /// Counts the messages that a garbage-collection pass removed.
    pub fn record_gc(&mut self, removed: usize)
        ensures
            final(self).gc_removed == old(self).gc_removed.wrapping_add(removed as u64),
            final(self).push_total == old(self).push_total,
            final(self).push_stored == old(self).push_stored,
            final(self).duplicates == old(self).duplicates,
            final(self).pull_total == old(self).pull_total,
            final(self).ack_total == old(self).ack_total,
            final(self).ack_deleted == old(self).ack_deleted,
            final(self).rate_limited == old(self).rate_limited,
    {
        if removed > 0 {
            self.gc_removed = self.gc_removed.wrapping_add(removed as u64);
        }
    }
}

} // verus!
