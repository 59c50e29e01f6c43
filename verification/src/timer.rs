//! The timer: a ring of buckets that stands for a `Wheel`.

use vstd::prelude::*;
use crate::item::{
    count_due, due_count, lemma_due_count_prefix, lemma_due_count_skip, lemma_due_count_sorted,
    lemma_due_count_unique, lemma_take_more, move_payloads, payloads, sorted, TimerItem,
};
use crate::ring::{
    lemma_bucket_in_entries, lemma_due_count_ring, lemma_empty_prefix, lemma_entries,
    lemma_first_empty, lemma_ring_insert, lemma_ring_remove, lemma_ring_run,
    lemma_rotate, lemma_update, offset, ring_ok, rotated,
};
use crate::slots::{
    in_slot, lemma_slot_bounds, lemma_slot_in_window, lemma_slot_is, lemma_slot_of,
    lemma_slot_rebase, lemma_slot_shift, slot_of,
};
use crate::wheel::{lemma_drain, Wheel};

verus! {

/// The index that lies `i` places behind the start of a ring of `n` places,
/// for `i` below `2 * n`.
spec fn wrap(i: int, n: int) -> int {
    if i >= n {
        i - n
    } else {
        i
    }
}

/// A timer queue.
pub struct Timer<T> {
    items: Vec<Vec<TimerItem<T>>>,
    now: u64,
    granularity: u64,
    cursor: usize,
}

impl<T> View for Timer<T> {
    type V = Wheel<T>;

    /// The wheel that the timer stands for: its entries are those of the
    /// buckets, read from the cursor round the ring.
    closed spec fn view(&self) -> Wheel<T> {
        Wheel {
            now: self.now as int,
            granularity: self.granularity as int,
            capacity: self.items@.len() as int,
            entries: self.ring().flatten(),
        }
    }
}

impl<T> Timer<T> {
    /// The buckets in window order: the one at the cursor first.
    spec fn ring(&self) -> Seq<Seq<TimerItem<T>>> {
        Seq::new(
            self.items@.len(),
            |k: int| self.items@[wrap(self.cursor + k, self.items@.len() as int)]@,
        )
    }

    /// The timer is well formed: the cursor points into the ring, and each
    /// bucket holds, in order, entries of its own interval only.
    pub closed spec fn wf(&self) -> bool {
        &&& self.granularity > 0
        &&& self.items@.len() <= u32::MAX
        &&& (self.cursor < self.items@.len() || self.cursor == 0)
        &&& ring_ok(self.ring(), self.now as int, self.granularity as int)
    }

    /// A well-formed timer stands for a wheel that meets the wheel's invariant.
    pub proof fn lemma_view_inv(&self)
        requires
            self.wf(),
        ensures
            self@.inv(),
    {
        lemma_entries(self.ring(), self.now as int, self.granularity as int);
    }

    /// Construct a new wheel at the given granularity, starting at the given time.
    pub fn new(now: u64, granularity: u64, capacity: usize) -> (t: Timer<T>)
        requires
            granularity > 0,
            capacity <= u32::MAX,
        ensures
            t.wf(),
            t@ == Wheel::<T>::empty(now as int, granularity as int, capacity as int),
    {
        let mut items: Vec<Vec<TimerItem<T>>> = Vec::new();
        let mut i: usize = 0;
        while i < capacity
            invariant
                i <= capacity,
                items@.len() == i,
                forall|k: int| 0 <= k < i ==> (#[trigger] items@[k])@.len() == 0,
            decreases capacity - i,
        {
            items.push(Vec::new());
            i += 1;
        }
        let t = Timer { items, now, granularity, cursor: 0 };
        proof {
            let ring = t.ring();
            assert(ring.take(ring.len() as int) =~= ring);
            lemma_empty_prefix(ring, ring.len() as int);
            assert(t@.entries =~= Seq::empty());
        }
        t
    }

    /// Return the time of the next entry.
    pub fn next_time(&self) -> (r: Option<u64>)
        requires
            self.wf(),
        ensures
            r == self@.next_time(),
            r is None <==> self@.entries.len() == 0,
            r matches Some(t) ==> forall|i: int|
                0 <= i < self@.entries.len() ==> t <= (#[trigger] self@.entries[i]).time,
    {
        let n = self.items.len();
        let mut k: usize = 0;
        while k < n
            invariant
                self.wf(),
                n == self.items@.len(),
                k <= n,
                forall|i: int| 0 <= i < k ==> (#[trigger] self.ring()[i]).len() == 0,
            decreases n - k,
        {
            let idx = self.index(k);
            if self.items[idx].len() > 0 {
                proof {
                    lemma_empty_prefix(self.ring(), k as int);
                    lemma_bucket_in_entries(self.ring(), k as int);
                    self.lemma_view_inv();
                }
                return Some(self.items[idx][0].time);
            }
            k += 1;
        }
        proof {
            assert(self.ring().take(n as int) =~= self.ring());
            lemma_empty_prefix(self.ring(), n as int);
        }
        None
    }

    /// The place in `items` of the bucket that lies `k` buckets behind the cursor.
    fn index(&self, k: usize) -> (idx: usize)
        requires
            self.wf(),
            k < self.items@.len(),
        ensures
            idx == wrap(self.cursor + k, self.items@.len() as int),
            idx < self.items@.len(),
            self.items@[idx as int]@ == self.ring()[k as int],
    {
        let n = self.items.len();
        if k >= n - self.cursor {
            k - (n - self.cursor)
        } else {
            self.cursor + k
        }
    }

    /// Slide forward in time by `self.granularity`.
    fn tick(&mut self)
        requires
            old(self).wf(),
            old(self).now + old(self).granularity <= u64::MAX,
            forall|i: int|
                0 <= i < old(self)@.entries.len() ==> (#[trigger] old(self)@.entries[i]).time
                    >= old(self)@.now + old(self)@.granularity,
        ensures
            final(self).wf(),
            final(self)@ == (Wheel { now: old(self)@.now + old(self)@.granularity, ..old(self)@ }),
    {
        let n = self.items.len();
        proof {
            if n > 0 {
                assert(self.ring()[0].len() == 0) by {
                    if self.ring()[0].len() > 0 {
                        assert(self.ring()[0][0] == self@.entries[0]);
                    }
                }
                lemma_rotate(self.ring(), self.now as int, self.granularity as int);
            }
        }
        let ghost before = self.ring();
        self.now = self.now + self.granularity;
        self.cursor = if self.cursor + 1 >= n {
            0
        } else {
            self.cursor + 1
        };
        proof {
            if n > 0 {
                assert(self.ring() =~= rotated(before));
            }
        }
    }

    /// For the given `time`, get the number of whole buckets in the future that is.
    fn delta(&self, time: u64) -> (d: usize)
        requires
            self.wf(),
            self.now <= time < self.now + self@.span(),
        ensures
            d == slot_of(self.now as int, self.granularity as int, time as int),
            d < self.items@.len(),
            in_slot(self.now as int, self.granularity as int, d as int, time as int),
    {
        proof {
            lemma_slot_of(self.now as int, self.granularity as int, time as int);
            lemma_slot_in_window(
                self.now as int,
                self.granularity as int,
                self.items@.len() as int,
                time as int,
            );
        }
        ((time - self.now) / self.granularity) as usize
    }

    /// The span of a timer with a bucket is at least one bucket wide, and
    /// fits 96 bits.
    proof fn lemma_span(&self)
        requires
            self.wf(),
            self.items@.len() > 0,
        ensures
            self.granularity <= self@.span() <= 0x1_0000_0000_0000_0000 * 0x1_0000_0000,
    {
        let g = self.granularity as int;
        let n = self.items@.len() as int;
        lemma_slot_bounds(g, 0, n);
        assert(g * n <= 0x1_0000_0000_0000_0000 * 0x1_0000_0000) by (nonlinear_arith)
            requires
                0 < g <= u64::MAX,
                0 < n <= u32::MAX,
        ;
    }

    /// A timer without entries has empty buckets only.
    proof fn lemma_no_entries(&self)
        requires
            self.wf(),
            self@.entries.len() == 0,
        ensures
            forall|j: int| 0 <= j < self.items@.len() ==> (#[trigger] self.items@[j])@.len() == 0,
    {
        let n = self.items@.len() as int;
        assert forall|j: int| 0 <= j < n implies (#[trigger] self.items@[j])@.len() == 0 by {
            if self.cursor < n {
                let k = if j >= self.cursor {
                    j - self.cursor
                } else {
                    j - self.cursor + n
                };
                lemma_bucket_in_entries(self.ring(), k);
            }
        }
    }

    /// A timer with empty buckets only has no entries.
    proof fn lemma_all_empty(&self)
        requires
            forall|j: int| 0 <= j < self.items@.len() ==> (#[trigger] self.items@[j])@.len() == 0,
            self.cursor < self.items@.len() || self.cursor == 0,
        ensures
            self@.entries.len() == 0,
            ring_ok(self.ring(), self.now as int, self.granularity as int),
    {
        let ring = self.ring();
        assert(ring.take(ring.len() as int) =~= ring);
        lemma_empty_prefix(ring, ring.len() as int);
    }

    /// The start of the window: the earliest time that can be added.
    pub fn now(&self) -> (t: u64)
        ensures
            t == self@.now,
    {
        self.now
    }

    /// Whether an entry due at `time` can be added: the time is not in the
    /// past, and the window can move on to hold it without leaving a stored
    /// entry behind.
    pub fn admits(&self, time: u64) -> (ok: bool)
        requires
            self.wf(),
        ensures
            ok == self@.admits(time as int),
    {
        if self.items.len() == 0 || time < self.now {
            return false;
        }
        let ghost g = self.granularity as int;
        let span: u128 = self.span();
        let width: u128 = self.granularity as u128;
        let gap: u128 = (time - self.now) as u128;
        proof {
            self.lemma_view_inv();
            self.lemma_span();
        }
        if gap < span {
            return true;
        }
        match self.next_time() {
            None => true,
            Some(first) => {
                let reach: u128 = span - width;
                if gap >= span + reach {
                    // The window would move at once, past every stored entry.
                    false
                } else {
                    let ticks: u128 = (gap - span) / width + 1;
                    proof {
                        lemma_slot_of(self.now + span, g, time as int);
                        lemma_slot_bounds(g, ticks - 1, ticks as int);
                    }
                    (first - self.now) as u128 >= ticks * width
                }
            },
        }
    }

    /// Arm a timer: keep `item` until `time`. The time must not lie before
    /// the start of the window. The window moves on as far as is needed to
    /// hold `time`, and no stored entry may be left behind it.
    pub fn add(&mut self, time: u64, item: T)
        requires
            old(self).wf(),
            old(self)@.admits(time as int),
        ensures
            final(self).wf(),
            final(self)@ == old(self)@.insert(time, item),
    {
        let ghost start = old(self)@.start_for(time as int);
        let ghost g = self.granularity as int;
        let ghost n = self.items@.len() as int;
        let ghost mut m: int = 0;
        let span: u128 = self.span();
        proof {
            self.lemma_view_inv();
            self.lemma_span();
        }
        let reach: u128 = span - (self.granularity as u128);
        if (time - self.now) as u128 >= span + reach {
            // Skip forward quickly if there is too large a gap.
            proof {
                assert(self@.entries.len() == 0) by {
                    if self@.entries.len() > 0 {
                        assert(self@.entries[0].time >= start);
                    }
                }
                self.lemma_no_entries();
            }
            self.now = time - (reach as u64);
            self.cursor = 0;
            proof {
                self.lemma_all_empty();
            }
        } else if (time - self.now) as u128 >= span {
            proof {
                lemma_slot_of(self.now + span, g, time as int);
                m = slot_of(self.now + span, g, time as int) + 1;
                assert((m - 1 + 1) * g == (m - 1) * g + g) by (nonlinear_arith);
            }
        }
        // Adjust time forward as much as is necessary.
        while (time - self.now) as u128 >= span
            invariant
                self.wf(),
                self@.entries == old(self)@.entries,
                self.granularity == g,
                self.items@.len() == n,
                span == g * n,
                g > 0,
                self.now <= time,
                m >= 0,
                start == self.now + m * g,
                start <= time,
                m > 0 ==> time >= start + span - g,
                time < start + span,
                forall|i: int|
                    0 <= i < self@.entries.len() ==> (#[trigger] self@.entries[i]).time >= start,
            decreases m,
        {
            proof {
                assert(m * g == g + (m - 1) * g) by (nonlinear_arith);
            }
            self.tick();
            proof {
                m = m - 1;
            }
        }
        proof {
            if m > 0 {
                assert(m * g >= g) by (nonlinear_arith)
                    requires
                        m >= 1,
                        g > 0,
                ;
            }
        }
        let d = self.delta(time);
        let bucket = self.index(d);
        let ins = count_due(&self.items[bucket], time);
        let ghost before = self.ring();
        let ghost entry = TimerItem { time, item };
        self.items[bucket].insert(ins, TimerItem { time, item });
        proof {
            let k = d as int;
            assert(self.ring() =~= before.update(k, before[k].insert(ins as int, entry)));
            lemma_ring_insert(before, self.now as int, g, k, entry);
        }
    }

    /// Given knowledge of the time an item was added, remove it.
    /// This requires use of a predicate that identifies matching items.
    ///
    /// The selector is asked about the entries due at `time`, oldest first,
    /// until it accepts one: that entry leaves the wheel and its payload is
    /// handed back. Where it accepts none, or none is due at `time`, the
    /// wheel stays as it is.
    #[verifier::loop_isolation(false)]
    pub fn remove<F>(&mut self, time: u64, selector: F) -> (r: Option<T>) where
        F: FnMut(&T) -> bool,

        requires
            old(self).wf(),
            forall|i: int|
                0 <= i < old(self)@.entries.len() && (#[trigger] old(self)@.entries[i]).time
                    == time ==> selector.requires((&old(self)@.entries[i].item,)),
        ensures
            final(self).wf(),
            old(self)@.removal(time, selector, r, final(self)@),
    {
        broadcast use vstd::function::group_function_axioms;

        proof {
            self.lemma_view_inv();
        }
        if self.items.len() == 0 || time < self.now || (time - self.now) as u128 >= self.span() {
            return None;
        }
        let d = self.delta(time);
        let bucket = self.index(d);
        let first = if time == 0 {
            0
        } else {
            count_due(&self.items[bucket], time - 1)
        };
        let ghost ring = self.ring();
        let ghost k = d as int;
        let ghost off = offset(ring, k);
        proof {
            lemma_ring_run(ring, self.now as int, self.granularity as int, k, time as int);
        }
        let mut accept = selector;
        let mut i = first;
        while i < self.items[bucket].len() && self.items[bucket][i].time == time
            invariant
                *self == *old(self),
                accept == selector,
                bucket < self.items@.len(),
                self.items@[bucket as int]@ == ring[k],
                first <= i <= ring[k].len(),
                forall|p: int|
                    0 <= p < ring[k].len() ==> self@.entries[off + p] == #[trigger] ring[k][p],
                off + ring[k].len() <= self@.entries.len(),
                forall|p: int|
                    first <= p < ring[k].len() ==> (#[trigger] ring[k][p]).time >= time,
                forall|i: int|
                    0 <= i < self@.entries.len() && (#[trigger] self@.entries[i]).time == time
                        ==> selector.requires((&self@.entries[i].item,)),
                forall|p: int|
                    first <= p < i ==> selector.ensures((&(#[trigger] ring[k][p]).item,), false),
            decreases ring[k].len() - i,
        {
            if accept(&self.items[bucket][i].item) {
                let e = self.items[bucket].remove(i);
                proof {
                    assert(self.ring() =~= ring.update(k, ring[k].remove(i as int)));
                    lemma_ring_remove(
                        ring,
                        self.now as int,
                        self.granularity as int,
                        k,
                        i as int,
                    );
                    assert forall|j: int|
                        0 <= j < off + i && j < old(self)@.entries.len() && (
                        #[trigger] old(self)@.entries[j]).time == time implies selector.ensures(
                        (&old(self)@.entries[j].item,),
                        false,
                    ) by {
                        assert(old(self)@.entries[j] == ring[k][j - off]);
                    }
                }
                return Some(e.item);
            }
            i += 1;
        }
        proof {
            assert forall|j: int|
                0 <= j < old(self)@.entries.len() && (#[trigger] old(self)@.entries[j]).time
                    == time implies selector.ensures((&old(self)@.entries[j].item,), false) by {
                let p = j - off;
                assert(old(self)@.entries[j] == ring[k][p]);
            }
        }
        None
    }

    /// Take the next item, unless there are no items with
    /// a timeout in the past relative to `until`.
    ///
    /// The window moves on, bucket by bucket, while `until` lies more than
    /// one bucket ahead of its start and the current bucket holds nothing
    /// that is due. So an entry that is due just where a later bucket begins
    /// is handed out only once `until` lies beyond that time.
    pub fn take_next(&mut self, until: u64) -> (r: Option<T>)
        requires
            old(self).wf(),
        ensures
            final(self).wf(),
            final(self)@ == old(self)@.pop(until as int),
            r is Some <==> old(self)@.yields(until as int),
            r matches Some(x) ==> x == old(self)@.entries[0].item,
    {
        let ghost w0 = self@;
        let ghost g = self.granularity as int;
        let ghost mut m: int = 0;
        loop
            invariant
                self.wf(),
                w0 == old(self)@,
                self@.entries == w0.entries,
                self@.granularity == w0.granularity == g,
                self@.capacity == w0.capacity,
                m >= 0,
                self@.now == w0.now + m * g,
                m > 0 ==> until > self@.now,
                g > 0,
            decreases until - self.now,
        {
            let c = self.cursor;
            proof {
                if self.items@.len() > 0 {
                    if self.ring()[0].len() > 0 {
                        // The first entry lies in the current bucket.
                        self.lemma_moved(w0.now, m, self.ring()[0][0].time as int);
                    } else {
                        lemma_first_empty(self.ring(), self.now as int, g);
                    }
                }
                if self.now < until <= self.now + g {
                    self.lemma_moved(w0.now, m, until - 1);
                }
                assert((m + 1) * g == m * g + g) by (nonlinear_arith);
            }
            if self.items.len() > 0 && self.items[c].len() > 0 && self.items[c][0].time <= until {
                let ghost before = self.ring();
                let e = self.items[c].remove(0);
                proof {
                    assert(self.ring() =~= before.update(0, before[0].remove(0)));
                    lemma_ring_remove(before, self.now as int, g, 0, 0);
                }
                return Some(e.item);
            }
            if until > self.now && until - self.now > self.granularity {
                self.tick();
                proof {
                    m = m + 1;
                }
            } else {
                proof {
                    if self@.entries.len() > 0 && self@.entries[0].time == self.now + g {
                        // The first entry is due where the next bucket begins,
                        // and so is `until`.
                        let t = self@.entries[0].time as int;
                        lemma_slot_rebase(w0.now, g, m, 1, t);
                        lemma_slot_is(w0.now, g, m + 1, t);
                    }
                }
                return None;
            }
        }
    }

    /// A time in the first interval of a window that was moved on by `m`
    /// buckets lies in a bucket that begins where that window starts.
    proof fn lemma_moved(&self, now: int, m: int, t: int)
        requires
            self.granularity > 0,
            m >= 0,
            self.now == now + m * self.granularity,
            in_slot(self.now as int, self.granularity as int, 0, t),
        ensures
            now + slot_of(now, self.granularity as int, t) * self.granularity == self.now,
    {
        lemma_slot_rebase(now, self.granularity as int, m, 0, t);
        lemma_slot_is(now, self.granularity as int, m, t);
    }

    /// In the wheel's entries, those due by a time of the first interval
    /// (or one tick before it) are those due by then in the current bucket.
    proof fn lemma_front_count(&self, t: int)
        requires
            self.wf(),
            self.items@.len() > 0,
            self.now - 1 <= t < self.now + self.granularity,
        ensures
            due_count(self@.entries, t) == due_count(self.items@[self.cursor as int]@, t),
            due_count(self.items@[self.cursor as int]@, t) <= self.items@[self.cursor as int]@.len(),
            t == self.now + self.granularity - 1 ==> due_count(self@.entries, t)
                == self.items@[self.cursor as int]@.len(),
    {
        lemma_due_count_ring(self.ring(), self.now as int, self.granularity as int, 0, t);
        lemma_due_count_prefix(self.ring()[0], t);
    }

    /// Moves the payloads of the first `cut` entries of the current bucket
    /// to the end of `out`.
    fn take_front(&mut self, cut: usize, out: &mut Vec<T>)
        requires
            old(self).wf(),
            old(self).items@.len() > 0,
            cut <= old(self).items@[old(self).cursor as int]@.len(),
        ensures
            final(self).wf(),
            final(self)@ == (Wheel { entries: old(self)@.entries.skip(cut as int), ..old(self)@ }),
            final(out)@ == old(out)@ + payloads(old(self)@.entries.take(cut as int)),
            cut <= old(self)@.entries.len(),
    {
        let c = self.cursor;
        let ghost before = self.ring();
        let mut head = self.items[c].split_off(cut);
        core::mem::swap(&mut self.items[c], &mut head);
        proof {
            let tail = before[0].skip(cut as int);
            let parted = before.update(0, tail);
            assert forall|k: int| 0 <= k < parted.len() implies #[trigger] self.ring()[k]
                == parted[k] by {}
            assert(self.ring() =~= parted);
            lemma_update(before, 0, tail);
            assert(self@.entries =~= old(self)@.entries.skip(cut as int));
            assert forall|k: int| 0 <= k < parted.len() implies sorted(#[trigger] parted[k]) by {}
            assert forall|k: int, p: int|
                0 <= k < parted.len() && 0 <= p < parted[k].len() implies in_slot(
                self.now as int,
                self.granularity as int,
                k,
                (#[trigger] parted[k][p]).time as int,
            ) by {}
        }
        move_payloads(head, out);
    }

    /// Moves the payloads of the first `whole` buckets to the end of `out`,
    /// and the window past those buckets.
    fn take_buckets(&mut self, whole: usize, out: &mut Vec<T>)
        requires
            old(self).wf(),
            whole <= old(self).items@.len(),
            old(self).now + whole * old(self).granularity <= u64::MAX,
        ensures
            final(self).wf(),
            final(self)@ == (Wheel {
                now: old(self)@.now + whole * old(self)@.granularity,
                entries: old(self)@.entries.skip(
                    due_count(
                        old(self)@.entries,
                        old(self)@.now + whole * old(self)@.granularity - 1,
                    ) as int,
                ),
                ..old(self)@
            }),
            final(out)@ == old(out)@ + payloads(
                old(self)@.entries.take(
                    due_count(
                        old(self)@.entries,
                        old(self)@.now + whole * old(self)@.granularity - 1,
                    ) as int,
                ),
            ),
    {
        let ghost w0 = self@;
        let ghost g = self.granularity as int;
        let ghost before = out@;
        let ghost mut count: int = 0;
        proof {
            self.lemma_view_inv();
            lemma_due_count_unique(w0.entries, w0.now - 1, 0);
            assert(w0.entries.skip(0) =~= w0.entries);
            assert(out@ =~= before + payloads(w0.entries.take(0)));
            assert(0 * g == 0) by (nonlinear_arith);
        }
        let mut i: usize = 0;
        while i < whole
            invariant
                self.wf(),
                w0.inv(),
                0 <= count <= w0.entries.len(),
                count == due_count(w0.entries, self@.now - 1),
                self@ == (Wheel { now: w0.now + i * g, entries: w0.entries.skip(count), ..w0 }),
                out@ == before + payloads(w0.entries.take(count)),
                w0.granularity == g,
                i <= whole <= self.items@.len(),
                w0.now + whole * g <= u64::MAX,
            decreases whole - i,
        {
            proof {
                lemma_slot_bounds(g, i as int, whole as int);
                assert(g * whole == whole * g) by (nonlinear_arith);
                self.lemma_front_count(self.now + g - 1);
                lemma_due_count_skip(w0.entries, self.now - 1, self.now + g - 1);
                lemma_due_count_sorted(w0.entries, self.now + g - 1);
            }
            let cut = self.items[self.cursor].len();
            self.take_front(cut, out);
            proof {
                lemma_take_more(w0.entries, count, cut as int);
                count = count + cut;
                assert forall|j: int| 0 <= j < self@.entries.len() implies (
                #[trigger] self@.entries[j]).time >= self.now + g by {
                    assert(self@.entries[j] == w0.entries[j + count]);
                }
            }
            self.tick();
            i += 1;
        }
    }

    /// Take all items due at or before the given time, earliest first.
    ///
    /// A time at or beyond the end of the window empties the wheel and
    /// becomes the start of the window. A time inside the window empties the
    /// buckets before the one that holds it, and takes from that one the
    /// entries due by then.
    pub fn take_until(&mut self, until: u64) -> (r: Vec<T>)
        requires
            old(self).wf(),
        ensures
            final(self).wf(),
            final(self)@ == old(self)@.drain(until as int),
            r@ == payloads(old(self)@.due(until as int)),
            old(self)@.entries == old(self)@.due(until as int) + final(self)@.entries,
            forall|i: int|
                0 <= i < r@.len() ==> r@[i] == (#[trigger] old(self)@.entries[i]).item
                    && old(self)@.entries[i].time <= until,
            forall|i: int|
                0 <= i < final(self)@.entries.len() ==> (#[trigger] final(self)@.entries[i]).time
                    > until,
    {
        let ghost w0 = self@;
        let ghost g = self.granularity as int;
        let mut out: Vec<T> = Vec::new();
        proof {
            self.lemma_view_inv();
            lemma_drain(w0, until as int);
        }
        if until < self.now {
            proof {
                lemma_due_count_unique(w0.entries, until as int, 0);
                assert(w0.entries.skip(0) =~= w0.entries);
                assert(out@ =~= payloads(w0.entries.take(0)));
            }
            return out;
        }
        let n = self.items.len();
        let full = (until - self.now) as u128 >= self.span();
        let whole: usize = if full {
            n
        } else {
            self.delta(until)
        };
        proof {
            assert(whole * g == g * whole) by (nonlinear_arith);
        }
        // First, the whole buckets.
        self.take_buckets(whole, &mut out);
        let ghost count = due_count(w0.entries, self.now - 1) as int;
        proof {
            assert(out@ =~= payloads(w0.entries.take(count)));
            lemma_due_count_sorted(w0.entries, self.now - 1);
        }
        if full {
            // Everything is gone, so a clean sweep.
            proof {
                lemma_due_count_unique(w0.entries, self.now - 1, w0.entries.len() as int);
                lemma_due_count_unique(w0.entries, until as int, w0.entries.len() as int);
                assert(self@.entries.len() == 0);
                self.lemma_no_entries();
            }
            self.now = until;
            self.cursor = 0;
            proof {
                self.lemma_all_empty();
                assert(self@.entries =~= w0.entries.skip(count));
            }
        } else {
            // Now we need to split the last bucket, because there might be
            // some items with `item.time > until`.
            proof {
                lemma_slot_shift(w0.now, g, whole as int, whole as int, until as int);
                lemma_slot_bounds(g, 0, 1);
                self.lemma_front_count(until as int);
                lemma_due_count_skip(w0.entries, self.now - 1, until as int);
            }
            let cut = count_due(&self.items[self.cursor], until);
            self.take_front(cut, &mut out);
            proof {
                lemma_take_more(w0.entries, count, cut as int);
            }
        }
        out
    }

    /// Get the full span of time that this can cover.
    /// Two timers cannot be more than this far apart.
    /// In practice, this value is less by one amount of the timer granularity.
    pub fn span(&self) -> (s: u128)
        ensures
            s == self@.span(),
    {
        let g: u128 = self.granularity as u128;
        let n: u128 = self.items.len() as u128;
        assert(g * n <= u128::MAX) by (nonlinear_arith)
            requires
                g <= u64::MAX,
                n <= u64::MAX,
        ;
        g * n
    }
}

} // verus!
