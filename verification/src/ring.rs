//! The buckets of a wheel in window order, and the one sequence of entries
//! that they make up.

use vstd::prelude::*;
use vstd::seq_lib::lemma_flatten_concat;
use crate::item::{
    due_count, lemma_due_count_before, lemma_due_count_behind, lemma_due_count_prefix,
    lemma_due_count_sorted, lemma_insert_sorted, lemma_remove_sorted, sorted, TimerItem,
};
use crate::slots::{in_slot, lemma_slot_bounds, lemma_slot_shift};

verus! {

/// Each bucket is in order, and bucket `k` holds only times of interval `k`
/// of the window that starts at `now`.
pub open spec fn ring_ok<T>(ring: Seq<Seq<TimerItem<T>>>, now: int, g: int) -> bool {
    &&& forall|k: int| 0 <= k < ring.len() ==> sorted(#[trigger] ring[k])
    &&& forall|k: int, i: int|
        0 <= k < ring.len() && 0 <= i < ring[k].len() ==> in_slot(
            now,
            g,
            k,
            (#[trigger] ring[k][i]).time as int,
        )
}

/// How many entries the buckets before bucket `k` hold.
pub open spec fn offset<T>(ring: Seq<Seq<TimerItem<T>>>, k: int) -> int {
    ring.take(k).flatten().len() as int
}

/// The entries of a ring are those before bucket `k`, then bucket `k`, then
/// those behind it.
pub proof fn lemma_split<T>(ring: Seq<Seq<TimerItem<T>>>, k: int)
    requires
        0 <= k < ring.len(),
    ensures
        ring.flatten() == ring.take(k).flatten() + ring[k] + ring.skip(k + 1).flatten(),
{
    let one = seq![ring[k]];
    assert(ring =~= ring.take(k) + one + ring.skip(k + 1));
    lemma_flatten_concat(ring.take(k) + one, ring.skip(k + 1));
    lemma_flatten_concat(ring.take(k), one);
    one.lemma_flatten_singleton();
}

/// Bucket `k` stands in the entries from `offset(ring, k)` on.
pub proof fn lemma_bucket_in_entries<T>(ring: Seq<Seq<TimerItem<T>>>, k: int)
    requires
        0 <= k < ring.len(),
    ensures
        offset(ring, k) + ring[k].len() <= ring.flatten().len(),
        forall|i: int|
            0 <= i < ring[k].len() ==> ring.flatten()[offset(ring, k) + i] == #[trigger] ring[k][i],
{
    lemma_split(ring, k);
}

/// While the buckets before bucket `k` are empty, it stands at the front.
pub proof fn lemma_empty_prefix<T>(ring: Seq<Seq<TimerItem<T>>>, k: int)
    requires
        0 <= k <= ring.len(),
        forall|i: int| 0 <= i < k ==> (#[trigger] ring[i]).len() == 0,
    ensures
        offset(ring, k) == 0,
    decreases k,
{
    if k > 0 {
        lemma_empty_prefix(ring, k - 1);
        assert(ring.take(k) =~= ring.take(k - 1).push(ring[k - 1]));
        ring.take(k - 1).lemma_flatten_push(ring[k - 1]);
    }
}

/// The buckets from the `n`-th on make a ring of the window that starts `n`
/// buckets later.
pub proof fn lemma_skip_ok<T>(ring: Seq<Seq<TimerItem<T>>>, now: int, g: int, n: int)
    requires
        ring_ok(ring, now, g),
        0 <= n <= ring.len(),
    ensures
        ring_ok(ring.skip(n), now + n * g, g),
{
    let back = ring.skip(n);
    assert forall|k: int, i: int| 0 <= k < back.len() && 0 <= i < back[k].len() implies in_slot(
        now + n * g,
        g,
        k,
        (#[trigger] back[k][i]).time as int,
    ) by {
        lemma_slot_shift(now, g, k + n, n, ring[k + n][i].time as int);
    }
}

/// The entries of a ring are in order and lie inside its window.
pub proof fn lemma_entries<T>(ring: Seq<Seq<TimerItem<T>>>, now: int, g: int)
    requires
        g > 0,
        ring_ok(ring, now, g),
    ensures
        sorted(ring.flatten()),
        forall|j: int|
            0 <= j < ring.flatten().len() ==> now <= (#[trigger] ring.flatten()[j]).time < now + g
                * ring.len(),
    decreases ring.len(),
{
    if ring.len() > 0 {
        let n = ring.len() - 1;
        let front = ring.take(n);
        let last = ring[n];
        lemma_entries(front, now, g);
        assert(ring =~= front.push(last));
        front.lemma_flatten_push(last);
        lemma_slot_bounds(g, n, ring.len() as int);
    }
}

/// For a time in interval `k`, or one tick before it, the entries due by
/// then are those of the buckets before bucket `k` and those due by then in
/// bucket `k`.
pub proof fn lemma_due_count_ring<T>(ring: Seq<Seq<TimerItem<T>>>, now: int, g: int, k: int, t: int)
    requires
        g > 0,
        ring_ok(ring, now, g),
        0 <= k < ring.len(),
        now + k * g - 1 <= t < now + (k + 1) * g,
    ensures
        due_count(ring.flatten(), t) == offset(ring, k) + due_count(ring[k], t),
{
    let a = ring.take(k).flatten();
    let c = ring.skip(k + 1).flatten();
    lemma_split(ring, k);
    lemma_entries(ring.take(k), now, g);
    lemma_skip_ok(ring, now, g, k + 1);
    lemma_entries(ring.skip(k + 1), now + (k + 1) * g, g);
    assert(g * k == k * g) by (nonlinear_arith);
    lemma_due_count_before(ring[k], c, t);
    lemma_due_count_behind(a, ring[k] + c, t);
    assert(a + ring[k] + c =~= a + (ring[k] + c));
}

/// With another bucket in place of bucket `k`, the entries before and behind
/// it stay.
pub proof fn lemma_update<T>(ring: Seq<Seq<TimerItem<T>>>, k: int, b: Seq<TimerItem<T>>)
    requires
        0 <= k < ring.len(),
    ensures
        ring.update(k, b).flatten() == ring.take(k).flatten() + b + ring.skip(k + 1).flatten(),
        offset(ring.update(k, b), k) == offset(ring, k),
{
    let next = ring.update(k, b);
    lemma_split(next, k);
    assert(next.take(k) =~= ring.take(k));
    assert(next.skip(k + 1) =~= ring.skip(k + 1));
}

/// An entry put into the bucket of its interval, behind the entries due by
/// its own time there, comes to stand behind all entries of the ring that
/// are due by its time.
pub proof fn lemma_ring_insert<T>(
    ring: Seq<Seq<TimerItem<T>>>,
    now: int,
    g: int,
    k: int,
    e: TimerItem<T>,
)
    requires
        g > 0,
        ring_ok(ring, now, g),
        0 <= k < ring.len(),
        in_slot(now, g, k, e.time as int),
    ensures
        ({
            let grown = ring[k].insert(due_count(ring[k], e.time as int) as int, e);
            let next = ring.update(k, grown);
            &&& ring_ok(next, now, g)
            &&& next.flatten() == ring.flatten().insert(
                due_count(ring.flatten(), e.time as int) as int,
                e,
            )
        }),
{
    let p = due_count(ring[k], e.time as int) as int;
    let grown = ring[k].insert(p, e);
    let next = ring.update(k, grown);
    lemma_due_count_prefix(ring[k], e.time as int);
    assert forall|j: int| 0 <= j < next.len() implies sorted(#[trigger] next[j]) by {
        lemma_insert_sorted(ring[k], e);
    }
    assert forall|j: int, i: int| 0 <= j < next.len() && 0 <= i < next[j].len() implies in_slot(
        now,
        g,
        j,
        (#[trigger] next[j][i]).time as int,
    ) by {}
    lemma_split(ring, k);
    lemma_update(ring, k, grown);
    lemma_due_count_ring(ring, now, g, k, e.time as int);
}

/// Taking the `p`-th entry out of bucket `k` takes one entry out of the
/// ring: the one that stands `p` places behind the buckets before bucket `k`.
pub proof fn lemma_ring_remove<T>(ring: Seq<Seq<TimerItem<T>>>, now: int, g: int, k: int, p: int)
    requires
        ring_ok(ring, now, g),
        0 <= k < ring.len(),
        0 <= p < ring[k].len(),
    ensures
        ({
            let next = ring.update(k, ring[k].remove(p));
            &&& ring_ok(next, now, g)
            &&& next.flatten() == ring.flatten().remove(offset(ring, k) + p)
            &&& ring.flatten()[offset(ring, k) + p] == ring[k][p]
        }),
{
    let less = ring[k].remove(p);
    let next = ring.update(k, less);
    assert forall|j: int| 0 <= j < next.len() implies sorted(#[trigger] next[j]) by {
        lemma_remove_sorted(ring[k], p);
    }
    assert forall|j: int, i: int| 0 <= j < next.len() && 0 <= i < next[j].len() implies in_slot(
        now,
        g,
        j,
        (#[trigger] next[j][i]).time as int,
    ) by {}
    lemma_split(ring, k);
    lemma_update(ring, k, less);
}

/// The entries of a ring that are due at a time `t` of interval `k` are
/// those of bucket `k` that are due at `t`: they stand in the bucket from
/// `due_count(ring[k], t - 1)` up to `due_count(ring[k], t)`.
pub proof fn lemma_ring_run<T>(ring: Seq<Seq<TimerItem<T>>>, now: int, g: int, k: int, t: int)
    requires
        g > 0,
        ring_ok(ring, now, g),
        0 <= k < ring.len(),
        in_slot(now, g, k, t),
    ensures
        due_count(ring[k], t - 1) <= due_count(ring[k], t) <= ring[k].len(),
        offset(ring, k) + ring[k].len() <= ring.flatten().len(),
        forall|p: int|
            0 <= p < ring[k].len() ==> ring.flatten()[offset(ring, k) + p] == #[trigger] ring[k][p],
        forall|p: int|
            0 <= p < due_count(ring[k], t - 1) ==> (#[trigger] ring[k][p]).time < t,
        forall|p: int|
            due_count(ring[k], t - 1) <= p < ring[k].len() ==> (#[trigger] ring[k][p]).time >= t,
        forall|j: int|
            0 <= j < ring.flatten().len() && (#[trigger] ring.flatten()[j]).time == t ==> offset(
                ring,
                k,
            ) + due_count(ring[k], t - 1) <= j < offset(ring, k) + due_count(ring[k], t),
{
    let flat = ring.flatten();
    lemma_bucket_in_entries(ring, k);
    lemma_entries(ring, now, g);
    lemma_due_count_ring(ring, now, g, k, t - 1);
    lemma_due_count_ring(ring, now, g, k, t);
    lemma_due_count_sorted(flat, t - 1);
    lemma_due_count_sorted(flat, t);
    lemma_due_count_sorted(ring[k], t - 1);
    lemma_due_count_sorted(ring[k], t);
    if due_count(ring[k], t - 1) > due_count(ring[k], t) {
        assert(ring[k][due_count(ring[k], t) as int].time <= t - 1);
    }
}

/// The ring with its first bucket, which is empty, moved to the end.
pub open spec fn rotated<T>(ring: Seq<Seq<TimerItem<T>>>) -> Seq<Seq<TimerItem<T>>> {
    ring.skip(1).push(ring[0])
}

/// Moving an empty first bucket to the end keeps the entries, and gives a
/// ring of the window that starts one bucket later.
pub proof fn lemma_rotate<T>(ring: Seq<Seq<TimerItem<T>>>, now: int, g: int)
    requires
        g > 0,
        ring_ok(ring, now, g),
        ring.len() > 0,
        ring[0].len() == 0,
    ensures
        rotated(ring).flatten() == ring.flatten(),
        ring_ok(rotated(ring), now + g, g),
{
    let back = ring.skip(1);
    let next = rotated(ring);
    back.lemma_flatten_push(ring[0]);
    assert forall|k: int| 0 <= k < next.len() implies sorted(#[trigger] next[k]) by {}
    assert forall|k: int, i: int| 0 <= k < next.len() && 0 <= i < next[k].len() implies in_slot(
        now + g,
        g,
        k,
        (#[trigger] next[k][i]).time as int,
    ) by {
        lemma_slot_shift(now, g, k + 1, 1, ring[k + 1][i].time as int);
    }
}

/// While the first bucket is empty, no entry is due before the second
/// interval begins.
pub proof fn lemma_first_empty<T>(ring: Seq<Seq<TimerItem<T>>>, now: int, g: int)
    requires
        g > 0,
        ring_ok(ring, now, g),
        ring.len() > 0,
        ring[0].len() == 0,
    ensures
        forall|j: int|
            0 <= j < ring.flatten().len() ==> (#[trigger] ring.flatten()[j]).time >= now + g,
{
    lemma_rotate(ring, now, g);
    lemma_entries(rotated(ring), now + g, g);
}

} // verus!
