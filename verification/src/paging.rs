use vstd::prelude::*;

use crate::store::QueueMessageView;
use crate::store_mem::{
    after_cursor, drop_all, drop_seq, expired_in, find_seq, purge_entries, purge_recipient, lemma_after_cursor_exact, lemma_remove_keeps_sorted,
    lemma_seq_unique, page_room, page_spec, recipient_wf, scan, seqs_of,
    strictly_sorted, RecipientView,
};

verus! {

// Paging over a recipient's queue: which messages a walk of pages delivers.

/// Whether a message is still to be delivered: live at `now` and, after a
/// cursor, numbered past it.
pub open spec fn wanted(m: QueueMessageView, after: Option<u64>, now: u64) -> bool {
    &&& m.deadline_ms > now
    &&& match after {
        Some(x) => m.arrival_seq > x,
        None => true,
    }
}

/// The messages of a queue still to be delivered, in order.
pub open spec fn fresh_after(q: Seq<QueueMessageView>, after: Option<u64>, now: u64) -> Seq<
    QueueMessageView,
>
    decreases q.len(),
{
    if q.len() == 0 {
        Seq::empty()
    } else if wanted(q[0], after, now) {
        seq![q[0]] + fresh_after(q.drop_first(), after, now)
    } else {
        fresh_after(q.drop_first(), after, now)
    }
}

/// The live messages of a queue (deadline after `now`), in order.
pub open spec fn live(q: Seq<QueueMessageView>, now: u64) -> Seq<QueueMessageView> {
    fresh_after(q, None, now)
}

proof fn lemma_fresh_concat(a: Seq<QueueMessageView>, b: Seq<QueueMessageView>, after: Option<u64>, now: u64)
    ensures
        fresh_after(a + b, after, now) == fresh_after(a, after, now) + fresh_after(b, after, now),
    decreases a.len(),
{
    if a.len() == 0 {
        assert(a + b =~= b);
    } else {
        lemma_fresh_concat(a.drop_first(), b, after, now);
        assert((a + b)[0] == a[0]);
        assert((a + b).drop_first() =~= a.drop_first() + b);
        let x = fresh_after(a.drop_first(), after, now);
        let y = fresh_after(b, after, now);
        assert(seq![a[0]] + (x + y) =~= (seq![a[0]] + x) + y);
    }
}

proof fn lemma_fresh_none_wanted(a: Seq<QueueMessageView>, after: Option<u64>, now: u64)
    requires
        forall|i: int| 0 <= i < a.len() ==> !wanted(#[trigger] a[i], after, now),
    ensures
        fresh_after(a, after, now) == Seq::<QueueMessageView>::empty(),
    decreases a.len(),
{
    if a.len() > 0 {
        let d = a.drop_first();
        assert forall|i: int| 0 <= i < d.len() implies !wanted(#[trigger] d[i], after, now) by {
            assert(d[i] == a[i + 1]);
        }
        lemma_fresh_none_wanted(d, after, now);
    }
}

proof fn lemma_fresh_all_later(a: Seq<QueueMessageView>, x: u64, now: u64)
    requires
        forall|i: int| 0 <= i < a.len() ==> (#[trigger] a[i]).arrival_seq > x,
    ensures
        fresh_after(a, Some(x), now) == live(a, now),
    decreases a.len(),
{
    if a.len() > 0 {
        let d = a.drop_first();
        assert forall|i: int| 0 <= i < d.len() implies (#[trigger] d[i]).arrival_seq > x by {
            assert(d[i] == a[i + 1]);
        }
        lemma_fresh_all_later(d, x, now);
    }
}

proof fn lemma_fresh_remove(q: Seq<QueueMessageView>, i: int, after: Option<u64>, now: u64)
    requires
        0 <= i < q.len(),
        !wanted(q[i], after, now),
    ensures
        fresh_after(q.remove(i), after, now) == fresh_after(q, after, now),
    decreases q.len(),
{
    if i == 0 {
        assert(q.remove(0) =~= q.drop_first());
    } else {
        let d = q.drop_first();
        let r = q.remove(i);
        assert(d[i - 1] == q[i]);
        lemma_fresh_remove(d, i - 1, after, now);
        assert(r[0] == q[0]);
        assert(r.drop_first() =~= d.remove(i - 1));
    }
}

proof fn lemma_live_empty(a: Seq<QueueMessageView>, now: u64)
    requires
        live(a, now).len() == 0,
    ensures
        forall|i: int| 0 <= i < a.len() ==> (#[trigger] a[i]).deadline_ms <= now,
    decreases a.len(),
{
    if a.len() > 0 {
        let d = a.drop_first();
        lemma_live_empty(d, now);
        assert forall|i: int| 0 <= i < a.len() implies (#[trigger] a[i]).deadline_ms <= now by {
            if i > 0 {
                assert(a[i] == d[i - 1]);
            }
        }
    }
}

/// The last live message of a sequence stands where nothing live follows it.
proof fn lemma_last_live(a: Seq<QueueMessageView>, now: u64)
    requires
        live(a, now).len() > 0,
    ensures
        exists|t: int|
            0 <= t < a.len() && #[trigger] a[t] == live(a, now).last() && a[t].deadline_ms > now
                && forall|j: int| t < j < a.len() ==> (#[trigger] a[j]).deadline_ms <= now,
    decreases a.len(),
{
    let d = a.drop_first();
    if live(d, now).len() > 0 {
        lemma_last_live(d, now);
        let t0 = choose|t: int|
            0 <= t < d.len() && #[trigger] d[t] == live(d, now).last() && d[t].deadline_ms > now
                && forall|j: int| t < j < d.len() ==> (#[trigger] d[j]).deadline_ms <= now;
        assert(live(a, now).last() == live(d, now).last());
        assert(a[t0 + 1] == d[t0]);
        assert forall|j: int| t0 + 1 < j < a.len() implies (#[trigger] a[j]).deadline_ms <= now by {
            assert(a[j] == d[j - 1]);
        }
    } else {
        lemma_live_empty(d, now);
        assert(a[0].deadline_ms > now);
        assert(live(a, now) =~= seq![a[0]]);
        assert forall|j: int| 0 < j < a.len() implies (#[trigger] a[j]).deadline_ms <= now by {
            assert(a[j] == d[j - 1]);
        }
    }
}

/// What one walk of a page over `s` comes to: the expired messages it sets
/// aside are expired messages of `s`; when it stops early, the page is the
/// live part of what it walked before a live message it had no room for;
/// otherwise the page is all of `s`'s live messages.
proof fn lemma_scan_split(s: Seq<QueueMessageView>, now: u64, room: nat)
    ensures
        forall|i: int|
            0 <= i < scan(s, now, room).1.len() ==> (#[trigger] scan(s, now, room).1[i]).deadline_ms
                <= now && s.contains(scan(s, now, room).1[i]),
        !scan(s, now, room).2 ==> scan(s, now, room).0 == live(s, now),
        scan(s, now, room).2 ==> exists|k: int|
            0 <= k < s.len() && (#[trigger] s[k]).deadline_ms > now && scan(s, now, room).0 == live(
                s.take(k),
                now,
            ),
    decreases s.len(),
{
    if s.len() == 0 {
        return;
    }
    let d = s.drop_first();
    let sc = scan(s, now, room);
    if s[0].deadline_ms <= now {
        lemma_scan_split(d, now, room);
        let r = scan(d, now, room);
        assert forall|i: int| 0 <= i < sc.1.len() implies (#[trigger] sc.1[i]).deadline_ms <= now
            && s.contains(sc.1[i]) by {
            if i == 0 {
                assert(sc.1[0] == s[0]);
            } else {
                assert(sc.1[i] == r.1[i - 1]);
                let j = choose|j: int| 0 <= j < d.len() && d[j] == r.1[i - 1];
                assert(s[j + 1] == d[j]);
            }
        }
        if r.2 {
            let k0 = choose|k: int|
                0 <= k < d.len() && (#[trigger] d[k]).deadline_ms > now && r.0 == live(d.take(k), now);
            assert(s[k0 + 1] == d[k0]);
            assert(s.take(k0 + 1)[0] == s[0]);
            assert(s.take(k0 + 1).drop_first() =~= d.take(k0));
        }
    } else if room > 0 {
        lemma_scan_split(d, now, (room - 1) as nat);
        let r = scan(d, now, (room - 1) as nat);
        assert forall|i: int| 0 <= i < sc.1.len() implies (#[trigger] sc.1[i]).deadline_ms <= now
            && s.contains(sc.1[i]) by {
            assert(sc.1[i] == r.1[i]);
            let j = choose|j: int| 0 <= j < d.len() && d[j] == r.1[i];
            assert(s[j + 1] == d[j]);
        }
        if r.2 {
            let k0 = choose|k: int|
                0 <= k < d.len() && (#[trigger] d[k]).deadline_ms > now && r.0 == live(d.take(k), now);
            assert(s[k0 + 1] == d[k0]);
            assert(s.take(k0 + 1)[0] == s[0]);
            assert(s.take(k0 + 1).drop_first() =~= d.take(k0));
        }
    } else {
        assert(s.take(0).len() == 0);
        assert(live(s.take(0), now) =~= Seq::<QueueMessageView>::empty());
    }
}

/// Removing expired messages, each named by its arrival number, changes
/// nothing that is still to be delivered and keeps the queue ordered.
proof fn lemma_drop_expired(rv: RecipientView, seqs: Seq<u64>, after: Option<u64>, now: u64)
    requires
        strictly_sorted(rv.queue),
        forall|i: int|
            0 <= i < rv.queue.len() && seqs.contains(#[trigger] rv.queue[i].arrival_seq)
                ==> rv.queue[i].deadline_ms <= now,
    ensures
        strictly_sorted(drop_all(rv, seqs).queue),
        fresh_after(drop_all(rv, seqs).queue, after, now) == fresh_after(rv.queue, after, now),
        forall|i: int|
            0 <= i < drop_all(rv, seqs).queue.len() ==> rv.queue.contains(
                #[trigger] drop_all(rv, seqs).queue[i],
            ),
    decreases seqs.len(),
{
    if seqs.len() == 0 {
        return;
    }
    let init = seqs.drop_last();
    assert forall|i: int|
        0 <= i < rv.queue.len() && init.contains(#[trigger] rv.queue[i].arrival_seq) implies rv.queue[i].deadline_ms
        <= now by {
        let j = choose|j: int| 0 <= j < init.len() && init[j] == rv.queue[i].arrival_seq;
        assert(seqs[j] == init[j]);
    }
    lemma_drop_expired(rv, init, after, now);
    let mid = drop_all(rv, init);
    let s = seqs.last();
    assert(drop_all(rv, seqs) == drop_seq(mid, s));
    if exists|i: int| 0 <= i < mid.queue.len() && mid.queue[i].arrival_seq == s {
        let i = choose|i: int| 0 <= i < mid.queue.len() && mid.queue[i].arrival_seq == s;
        lemma_seq_unique(mid.queue, i);
        assert(find_seq(mid.queue, s) == Some(mid.queue[i]));
        assert(drop_seq(mid, s).queue == mid.queue.remove(i));
        assert(rv.queue.contains(mid.queue[i]));
        let j = choose|j: int| 0 <= j < rv.queue.len() && rv.queue[j] == mid.queue[i];
        assert(seqs.contains(rv.queue[j].arrival_seq)) by {
            assert(seqs[seqs.len() - 1] == s);
        }
        lemma_fresh_remove(mid.queue, i, after, now);
        lemma_remove_keeps_sorted(mid.queue, i);
        let r = mid.queue.remove(i);
        assert forall|a: int| 0 <= a < r.len() implies rv.queue.contains(#[trigger] r[a]) by {
            if a < i {
                assert(r[a] == mid.queue[a]);
            } else {
                assert(r[a] == mid.queue[a + 1]);
            }
        }
    }
}

/// After a cursor in an ordered queue, the live messages are those still to
/// be delivered after the cursor's number.
proof fn lemma_after_cursor_fresh(q: Seq<QueueMessageView>, x: u64, now: u64)
    requires
        strictly_sorted(q),
    ensures
        live(after_cursor(q, Some(x)), now) == fresh_after(q, Some(x), now),
{
    lemma_after_cursor_exact(q, x);
    let k = crate::store_mem::leading_at_most(q, x) as int;
    assert(q =~= q.take(k) + q.skip(k));
    lemma_fresh_concat(q.take(k), q.skip(k), Some(x), now);
    assert forall|i: int| 0 <= i < q.take(k).len() implies !wanted(#[trigger] q.take(k)[i], Some(x), now) by {
        assert(q.take(k)[i] == q[i]);
    }
    lemma_fresh_none_wanted(q.take(k), Some(x), now);
    assert forall|i: int| 0 <= i < q.skip(k).len() implies (#[trigger] q.skip(k)[i]).arrival_seq > x by {
        assert(q.skip(k)[i] == q[i + k]);
    }
    lemma_fresh_all_later(q.skip(k), x, now);
    assert(Seq::<QueueMessageView>::empty() + fresh_after(q.skip(k), Some(x), now) =~= fresh_after(
        q.skip(k),
        Some(x),
        now,
    ));
}

/// The expired messages that a walk over the queue's suffix from `j0` sets
/// aside are the only messages their numbers name.
proof fn lemma_set_aside_expired(q: Seq<QueueMessageView>, j0: int, exp: Seq<QueueMessageView>, now: u64)
    requires
        strictly_sorted(q),
        0 <= j0 <= q.len(),
        forall|i: int|
            0 <= i < exp.len() ==> (#[trigger] exp[i]).deadline_ms <= now && q.skip(j0).contains(exp[i]),
    ensures
        forall|i: int|
            0 <= i < q.len() && seqs_of(exp).contains(#[trigger] q[i].arrival_seq) ==> q[i].deadline_ms <= now,
{
    assert forall|i: int|
        0 <= i < q.len() && seqs_of(exp).contains(#[trigger] q[i].arrival_seq) implies q[i].deadline_ms <= now by {
        let e = choose|e: int| 0 <= e < seqs_of(exp).len() && seqs_of(exp)[e] == q[i].arrival_seq;
        assert(exp[e].deadline_ms <= now && q.skip(j0).contains(exp[e]));
        let w = choose|w: int| 0 <= w < q.skip(j0).len() && q.skip(j0)[w] == exp[e];
        assert(q.skip(j0)[w] == q[w + j0]);
        lemma_seq_unique(q, i);
        lemma_seq_unique(q, w + j0);
    }
}

/// Past the last live message `t` of a walk that ended before position `k`
/// of the suffix from `j0`, what is still to be delivered is the live part of
/// the rest of the suffix.
proof fn lemma_walked_delivered(q: Seq<QueueMessageView>, j0: int, k: int, t: int, now: u64)
    requires
        strictly_sorted(q),
        0 <= j0 <= q.len(),
        0 <= t < k <= q.len() - j0,
        forall|j: int| t < j < k ==> (#[trigger] q[j0 + j]).deadline_ms <= now,
    ensures
        fresh_after(q, Some(q[j0 + t].arrival_seq), now) == live(q.skip(j0).skip(k), now),
{
    let s = q[j0 + t].arrival_seq;
    let c = q.skip(j0);
    let a = c.take(k);
    let b = c.skip(k);
    assert(q =~= q.take(j0) + (a + b));
    lemma_fresh_concat(q.take(j0), a + b, Some(s), now);
    lemma_fresh_concat(a, b, Some(s), now);
    assert forall|i: int| 0 <= i < q.take(j0).len() implies !wanted(#[trigger] q.take(j0)[i], Some(s), now) by {
        assert(q.take(j0)[i] == q[i]);
        assert(q[i].arrival_seq < q[j0 + t].arrival_seq);
    }
    lemma_fresh_none_wanted(q.take(j0), Some(s), now);
    assert forall|i: int| 0 <= i < a.len() implies !wanted(#[trigger] a[i], Some(s), now) by {
        assert(a[i] == q[j0 + i]);
        if i < t {
            assert(q[j0 + i].arrival_seq < q[j0 + t].arrival_seq);
        }
    }
    lemma_fresh_none_wanted(a, Some(s), now);
    assert forall|i: int| 0 <= i < b.len() implies (#[trigger] b[i]).arrival_seq > s by {
        assert(b[i] == q[j0 + k + i]);
        assert(q[j0 + t].arrival_seq < q[j0 + k + i].arrival_seq);
    }
    lemma_fresh_all_later(b, s, now);
    let e = Seq::<QueueMessageView>::empty();
    assert(e + (e + live(b, now)) =~= live(b, now));
}

/// Paging walks a recipient's queue without skipping or repeating a live
/// message: what is live after a cursor is the page followed by what is live
/// after the page's last item in the recipient as the page leaves it, and a
/// page after which no more remain holds all of it.
pub proof fn lemma_pages_walk_queue(name: Seq<char>, rv: RecipientView, start: Option<u64>, limit: u64, now: u64)
    requires
        recipient_wf(name, rv),
    ensures
        ({
            let p = page_spec(rv, start, limit, now);
            let before = live(after_cursor(rv.queue, start), now);
            &&& !p.1 ==> p.0 == before
            &&& p.1 && p.0.len() > 0 ==> before == p.0 + live(
                after_cursor(p.2.queue, Some(p.0.last().arrival_seq)),
                now,
            )
        }),
{
    let q = rv.queue;
    let c = after_cursor(q, start);
    let room = page_room(limit);
    let r = scan(c, now, room);
    lemma_scan_split(c, now, room);
    if !(r.2 && r.0.len() > 0) {
        return;
    }
    let j0: int = match start {
        Some(x) => {
            lemma_after_cursor_exact(q, x);
            crate::store_mem::leading_at_most(q, x) as int
        },
        None => 0,
    };
    assert(c =~= q.skip(j0));
    let k = choose|k: int| 0 <= k < c.len() && (#[trigger] c[k]).deadline_ms > now && r.0 == live(c.take(k), now);
    let a = c.take(k);
    lemma_last_live(a, now);
    let t = choose|t: int|
        0 <= t < a.len() && #[trigger] a[t] == live(a, now).last() && a[t].deadline_ms > now
            && forall|j: int| t < j < a.len() ==> (#[trigger] a[j]).deadline_ms <= now;
    assert(a[t] == q[j0 + t]);
    let s = q[j0 + t].arrival_seq;
    assert forall|j: int| t < j < k implies (#[trigger] q[j0 + j]).deadline_ms <= now by {
        assert(a[j] == q[j0 + j]);
    }
    lemma_walked_delivered(q, j0, k, t, now);
    assert(c =~= a + c.skip(k));
    lemma_fresh_concat(a, c.skip(k), None, now);
    lemma_set_aside_expired(q, j0, r.1, now);
    lemma_drop_expired(rv, seqs_of(r.1), Some(s), now);
    lemma_after_cursor_fresh(drop_all(rv, seqs_of(r.1)).queue, s, now);
}

// Garbage collection: what a pass leaves behind.

proof fn lemma_expired_in_members(q: Seq<QueueMessageView>, now: u64)
    ensures
        forall|k: int|
            0 <= k < expired_in(q, now).len() ==> (#[trigger] expired_in(q, now)[k]).deadline_ms <= now
                && q.contains(expired_in(q, now)[k]),
        forall|j: int| 0 <= j < q.len() && (#[trigger] q[j]).deadline_ms <= now ==> expired_in(q, now).contains(q[j]),
    decreases q.len(),
{
    if q.len() > 0 {
        let d = q.drop_last();
        lemma_expired_in_members(d, now);
        let e = expired_in(q, now);
        let ed = expired_in(d, now);
        assert forall|k: int| 0 <= k < e.len() implies (#[trigger] e[k]).deadline_ms <= now && q.contains(e[k]) by {
            if k < ed.len() {
                assert(e[k] == ed[k]);
                let w = choose|w: int| 0 <= w < d.len() && d[w] == ed[k];
                assert(q[w] == d[w]);
            } else {
                assert(e[k] == q.last());
                assert(q[q.len() - 1] == q.last());
            }
        }
        assert forall|j: int| 0 <= j < q.len() && (#[trigger] q[j]).deadline_ms <= now implies e.contains(q[j]) by {
            if j < q.len() - 1 {
                assert(d[j] == q[j]);
                let w = choose|w: int| 0 <= w < ed.len() && ed[w] == d[j];
                assert(e[w] == ed[w]);
            } else {
                assert(e[e.len() - 1] == q[j]);
            }
        }
    }
}

/// After `drop_all`, the queue is still ordered, holds only messages it held
/// before, and none numbered by one of the dropped numbers.
proof fn lemma_drop_all_absent(rv: RecipientView, seqs: Seq<u64>)
    requires
        strictly_sorted(rv.queue),
    ensures
        strictly_sorted(drop_all(rv, seqs).queue),
        forall|i: int|
            0 <= i < drop_all(rv, seqs).queue.len() ==> rv.queue.contains(#[trigger] drop_all(rv, seqs).queue[i])
                && !seqs.contains(drop_all(rv, seqs).queue[i].arrival_seq),
    decreases seqs.len(),
{
    if seqs.len() == 0 {
        return;
    }
    let init = seqs.drop_last();
    lemma_drop_all_absent(rv, init);
    let mid = drop_all(rv, init);
    let s = seqs.last();
    assert(drop_all(rv, seqs) == drop_seq(mid, s));
    let r = drop_all(rv, seqs).queue;
    if exists|i: int| 0 <= i < mid.queue.len() && mid.queue[i].arrival_seq == s {
        let i = choose|i: int| 0 <= i < mid.queue.len() && mid.queue[i].arrival_seq == s;
        lemma_seq_unique(mid.queue, i);
        assert(find_seq(mid.queue, s) == Some(mid.queue[i]));
        lemma_remove_keeps_sorted(mid.queue, i);
        assert(r == mid.queue.remove(i));
        assert forall|a: int| 0 <= a < r.len() implies rv.queue.contains(#[trigger] r[a])
            && !seqs.contains(r[a].arrival_seq) by {
            let a1 = if a < i { a } else { a + 1 };
            assert(r[a] == mid.queue[a1]);
            if a1 < i {
                assert(mid.queue[a1].arrival_seq < mid.queue[i].arrival_seq);
            } else {
                assert(mid.queue[i].arrival_seq < mid.queue[a1].arrival_seq);
            }
            if seqs.contains(r[a].arrival_seq) {
                let w = choose|w: int| 0 <= w < seqs.len() && seqs[w] == r[a].arrival_seq;
                if w < seqs.len() - 1 {
                    assert(init[w] == seqs[w]);
                }
            }
        }
    } else {
        assert(r == mid.queue);
        assert forall|a: int| 0 <= a < r.len() implies rv.queue.contains(#[trigger] r[a])
            && !seqs.contains(r[a].arrival_seq) by {
            if seqs.contains(r[a].arrival_seq) {
                let w = choose|w: int| 0 <= w < seqs.len() && seqs[w] == r[a].arrival_seq;
                if w < seqs.len() - 1 {
                    assert(init[w] == seqs[w]);
                }
            }
        }
    }
}

/// Garbage collection of one recipient removes its expired messages,
/// wherever they stand in the queue, as many as the budget allows: no live
/// message is lost, and when the budget covers all of the expired messages
/// none is left.
pub proof fn lemma_purge_recipient_clears(name: Seq<char>, rv: RecipientView, now: u64, budget: nat)
    requires
        recipient_wf(name, rv),
    ensures
        ({
            let (rv2, n) = purge_recipient(rv, now, budget);
            let e = expired_in(rv.queue, now);
            &&& n == if budget < e.len() { budget } else { e.len() }
            &&& live(rv2.queue, now) == live(rv.queue, now)
            &&& n == e.len() ==> forall|i: int| 0 <= i < rv2.queue.len() ==> (#[trigger] rv2.queue[i]).deadline_ms > now
        }),
{
    let q = rv.queue;
    let e = expired_in(q, now);
    let n: nat = if budget < e.len() { budget } else { e.len() };
    let gone = e.take(n as int);
    lemma_expired_in_members(q, now);
    assert(q.skip(0) =~= q);
    assert forall|i: int| 0 <= i < gone.len() implies (#[trigger] gone[i]).deadline_ms <= now && q.skip(0).contains(gone[i]) by {
        assert(gone[i] == e[i]);
    }
    lemma_set_aside_expired(q, 0, gone, now);
    lemma_drop_expired(rv, seqs_of(gone), None, now);
    lemma_drop_all_absent(rv, seqs_of(gone));
    let r = drop_all(rv, seqs_of(gone)).queue;
    if n == e.len() {
        assert(gone =~= e);
        assert forall|i: int| 0 <= i < r.len() implies (#[trigger] r[i]).deadline_ms > now by {
            assert(q.contains(r[i]));
            let j = choose|j: int| 0 <= j < q.len() && q[j] == r[i];
            if q[j].deadline_ms <= now {
                assert(e.contains(q[j]));
                let k = choose|k: int| 0 <= k < e.len() && e[k] == q[j];
                assert(seqs_of(gone)[k] == r[i].arrival_seq);
                assert(seqs_of(gone).contains(r[i].arrival_seq));
            }
        }
    }
}

/// How many messages of the store have expired by `now`.
pub open spec fn expired_total(es: Seq<(Seq<char>, RecipientView)>, now: u64) -> nat
    decreases es.len(),
{
    if es.len() == 0 {
        0
    } else {
        expired_in(es[0].1.queue, now).len() + expired_total(es.drop_first(), now)
    }
}

/// A garbage-collection pass whose budget covers every expired message of
/// the store removes all of them and reports how many there were: no
/// expired message is left in any recipient's queue.
pub proof fn lemma_purge_clears_store(es: Seq<(Seq<char>, RecipientView)>, now: u64, budget: nat)
    requires
        forall|i: int| 0 <= i < es.len() ==> recipient_wf(#[trigger] es[i].0, es[i].1),
        expired_total(es, now) <= budget,
    ensures
        purge_entries(es, now, budget).1 == expired_total(es, now),
        forall|i: int, j: int|
            0 <= i < purge_entries(es, now, budget).0.len() && 0 <= j < purge_entries(es, now, budget).0[i].1.queue.len()
                ==> (#[trigger] purge_entries(es, now, budget).0[i].1.queue[j]).deadline_ms > now,
    decreases es.len(),
{
    if es.len() == 0 {
        return;
    }
    let d = es.drop_first();
    assert forall|i: int| 0 <= i < d.len() implies recipient_wf(#[trigger] d[i].0, d[i].1) by {
        assert(d[i] == es[i + 1]);
    }
    lemma_expired_in_members(es[0].1.queue, now);
    if budget == 0 {
        lemma_purge_clears_store(d, now, 0);
        assert forall|i: int, j: int| 0 <= i < es.len() && 0 <= j < es[i].1.queue.len()
            implies (#[trigger] es[i].1.queue[j]).deadline_ms > now by {
            if i == 0 {
                if es[0].1.queue[j].deadline_ms <= now {
                    assert(expired_in(es[0].1.queue, now).contains(es[0].1.queue[j]));
                }
            } else {
                assert(es[i] == d[i - 1]);
                assert(d[i - 1].1.queue[j] == purge_entries(d, now, 0).0[i - 1].1.queue[j]);
            }
        }
    } else {
        let p = purge_recipient(es[0].1, now, budget);
        lemma_purge_recipient_clears(es[0].0, es[0].1, now, budget);
        lemma_purge_clears_store(d, now, (budget - p.1) as nat);
        let r = purge_entries(d, now, (budget - p.1) as nat);
        let res = purge_entries(es, now, budget);
        assert(res.0 == seq![(es[0].0, p.0)] + r.0);
        assert forall|i: int, j: int| 0 <= i < res.0.len() && 0 <= j < res.0[i].1.queue.len()
            implies (#[trigger] res.0[i].1.queue[j]).deadline_ms > now by {
            if i == 0 {
                assert(res.0[0].1 == p.0);
            } else {
                assert(res.0[i] == r.0[i - 1]);
            }
        }
    }
}

// A walk of pages: what following the cursors from page to page delivers.

/// Removing messages keeps a recipient well formed.
proof fn lemma_drop_all_wf(name: Seq<char>, rv: RecipientView, seqs: Seq<u64>)
    requires
        recipient_wf(name, rv),
    ensures
        recipient_wf(name, drop_all(rv, seqs)),
    decreases seqs.len(),
{
    lemma_drop_all_absent(rv, seqs);
    lemma_drop_all_seq(rv, seqs);
    let r = drop_all(rv, seqs);
    assert forall|i: int| 0 <= i < r.queue.len() implies {
        &&& (#[trigger] r.queue[i]).arrival_seq <= r.seq
        &&& (r.queue[i].arrival_seq == r.seq ==> r.seq == u64::MAX)
        &&& r.queue[i].recipient == name
    } by {
        assert(rv.queue.contains(r.queue[i]));
        let j = choose|j: int| 0 <= j < rv.queue.len() && rv.queue[j] == r.queue[i];
    }
}

proof fn lemma_drop_all_seq(rv: RecipientView, seqs: Seq<u64>)
    ensures
        drop_all(rv, seqs).seq == rv.seq,
    decreases seqs.len(),
{
    if seqs.len() > 0 {
        lemma_drop_all_seq(rv, seqs.drop_last());
    }
}

/// A walk that stops early has filled the page.
proof fn lemma_scan_full(s: Seq<QueueMessageView>, now: u64, room: nat)
    ensures
        scan(s, now, room).2 ==> scan(s, now, room).0.len() == room,
    decreases s.len(),
{
    if s.len() > 0 {
        if s[0].deadline_ms <= now {
            lemma_scan_full(s.drop_first(), now, room);
        } else if room > 0 {
            lemma_scan_full(s.drop_first(), now, (room - 1) as nat);
        }
    }
}

/// Up to `pages` pages read one after another, each from the cursor after
/// the last item of the one before: the items delivered, whether the walk
/// ended (a page after which no more remain, or an empty one), the recipient
/// as the pages leave it, and the cursor the walk stands at.
pub open spec fn walk(rv: RecipientView, start: Option<u64>, limit: u64, now: u64, pages: nat) -> (
    Seq<QueueMessageView>,
    bool,
    RecipientView,
    Option<u64>,
)
    decreases pages,
{
    if pages == 0 {
        (Seq::empty(), false, rv, start)
    } else {
        let p = page_spec(rv, start, limit, now);
        if p.1 && p.0.len() > 0 {
            let w = walk(p.2, Some(p.0.last().arrival_seq), limit, now, (pages - 1) as nat);
            (p.0 + w.0, w.1, w.2, w.3)
        } else {
            (p.0, true, p.2, start)
        }
    }
}

proof fn lemma_walk_step(name: Seq<char>, rv: RecipientView, start: Option<u64>, limit: u64, now: u64, pages: nat)
    requires
        recipient_wf(name, rv),
        limit >= 1,
    ensures
        ({
            let w = walk(rv, start, limit, now, pages);
            let before = live(after_cursor(rv.queue, start), now);
            &&& w.1 ==> w.0 == before
            &&& !w.1 ==> before == w.0 + live(after_cursor(w.2.queue, w.3), now) && w.0.len() >= pages
        }),
    decreases pages,
{
    let before = live(after_cursor(rv.queue, start), now);
    if pages == 0 {
        assert(Seq::<QueueMessageView>::empty() + before =~= before);
        return;
    }
    let p = page_spec(rv, start, limit, now);
    lemma_pages_walk_queue(name, rv, start, limit, now);
    lemma_scan_full(after_cursor(rv.queue, start), now, page_room(limit));
    if p.1 && p.0.len() > 0 {
        let s = p.0.last().arrival_seq;
        let r = scan(after_cursor(rv.queue, start), now, page_room(limit));
        lemma_drop_all_wf(name, rv, seqs_of(r.1));
        lemma_walk_step(name, p.2, Some(s), limit, now, (pages - 1) as nat);
        let w1 = walk(p.2, Some(s), limit, now, (pages - 1) as nat);
        if !w1.1 {
            let rest = live(after_cursor(w1.2.queue, w1.3), now);
            assert(p.0 + (w1.0 + rest) =~= (p.0 + w1.0) + rest);
        }
    }
}

/// Following the cursors from the start of a recipient's queue, page after
/// page, with room for at least one item per page and nothing else happening
/// meanwhile, ends within one page more than there are live messages, and
/// delivers every live message once, in arrival order.
pub proof fn lemma_walk_delivers_all(name: Seq<char>, rv: RecipientView, limit: u64, now: u64)
    requires
        recipient_wf(name, rv),
        limit >= 1,
    ensures
        ({
            let w = walk(rv, None, limit, now, live(rv.queue, now).len() + 1);
            &&& w.1
            &&& w.0 == live(rv.queue, now)
        }),
{
    let n = live(rv.queue, now).len() + 1;
    lemma_walk_step(name, rv, None, limit, now, n);
    let w = walk(rv, None, limit, now, n);
    if !w.1 {
        let rest = live(after_cursor(w.2.queue, w.3), now);
        assert((w.0 + rest).len() == w.0.len() + rest.len());
    }
}

} // verus!
