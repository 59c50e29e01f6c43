//! The wheel as a mathematical object: a window of time and the entries
//! waiting in it, in the order in which they fall due.

use vstd::prelude::*;
use vstd::multiset::Multiset;
use crate::item::{
    due_count, lemma_due_count_skip, lemma_due_count_sorted, lemma_insert_sorted,
    lemma_remove_sorted, sorted, TimerItem,
};
use crate::slots::{lemma_slot_bounds, lemma_slot_of, slot_of};

verus! {

/// What a timer stands for. `entries` holds the stored entries by ascending
/// due time; entries due at the same time stand in the order in which they
/// were added.
pub struct Wheel<T> {
    /// Where the window starts.
    pub now: int,
    /// The width of one bucket.
    pub granularity: int,
    /// The number of buckets.
    pub capacity: int,
    /// The stored entries.
    pub entries: Seq<TimerItem<T>>,
}

impl<T> Wheel<T> {
    /// The wheel without entries.
    pub open spec fn empty(now: int, granularity: int, capacity: int) -> Self {
        Wheel { now, granularity, capacity, entries: Seq::empty() }
    }

    /// The width of the window: one granularity for each bucket.
    pub open spec fn span(self) -> int {
        self.granularity * self.capacity
    }

    /// What holds of a wheel between operations: buckets have a width, their
    /// number fits 32 bits, the entries are in order, and each lies inside
    /// the window.
    pub open spec fn inv(self) -> bool {
        &&& self.now >= 0
        &&& self.granularity > 0
        &&& 0 <= self.capacity <= u32::MAX
        &&& sorted(self.entries)
        &&& forall|i: int|
            0 <= i < self.entries.len() ==> self.now <= (#[trigger] self.entries[i]).time
                < self.now + self.span()
    }

    /// The stored entries without their order.
    pub open spec fn contents(self) -> Multiset<TimerItem<T>> {
        self.entries.to_multiset()
    }

    /// Where the bucket that holds time `t` begins.
    pub open spec fn slot_start(self, t: int) -> int {
        self.now + slot_of(self.now, self.granularity, t) * self.granularity
    }

    /// The earliest due time, if there is an entry.
    pub open spec fn next_time(self) -> Option<u64> {
        if self.entries.len() == 0 {
            None
        } else {
            Some(self.entries[0].time)
        }
    }

    /// Where the window starts once it has been moved to hold `time`. A time
    /// inside the window leaves it in place. A time less than a span minus
    /// one bucket beyond its end moves it on bucket by bucket until the time
    /// fits. A later time moves it at once so that the time falls into the
    /// last bucket.
    pub open spec fn start_for(self, time: int) -> int {
        let reach = self.span() - self.granularity;
        if time < self.now + self.span() {
            self.now
        } else if time >= self.now + self.span() + reach {
            time - reach
        } else {
            self.now + (slot_of(self.now + self.span(), self.granularity, time) + 1)
                * self.granularity
        }
    }

    /// An entry due at `time` can be added: there is a bucket, the time is
    /// not in the past, and no stored entry would be left behind the window
    /// once it has moved to hold `time`.
    pub open spec fn admits(self, time: int) -> bool {
        &&& self.capacity > 0
        &&& self.now <= time
        &&& forall|i: int|
            0 <= i < self.entries.len() ==> (#[trigger] self.entries[i]).time >= self.start_for(
                time,
            )
    }

    /// The wheel with one more entry, placed behind all entries due at or
    /// before its time.
    pub open spec fn insert(self, time: u64, item: T) -> Self {
        Wheel {
            now: self.start_for(time as int),
            entries: self.entries.insert(
                due_count(self.entries, time as int) as int,
                TimerItem { time, item },
            ),
            ..self
        }
    }

    /// The wheel without its `i`-th entry.
    pub open spec fn remove_at(self, i: int) -> Self {
        Wheel { entries: self.entries.remove(i), ..self }
    }

    /// Asked for one entry due by `until`, the wheel hands out its first
    /// entry. It does so if that entry is due by then and its bucket is the
    /// current one or begins before `until`.
    pub open spec fn yields(self, until: int) -> bool {
        &&& self.entries.len() > 0
        &&& self.entries[0].time <= until
        &&& (self.slot_start(self.entries[0].time as int) == self.now || self.slot_start(
            self.entries[0].time as int,
        ) < until)
    }

    /// The wheel after it was asked for one entry due by `until`. If it hands
    /// one out, the window starts at that entry's bucket. If not, it starts at
    /// the last bucket boundary that leaves `until` no more than one bucket
    /// ahead.
    pub open spec fn pop(self, until: int) -> Self {
        if self.yields(until) {
            Wheel {
                now: self.slot_start(self.entries[0].time as int),
                entries: self.entries.drop_first(),
                ..self
            }
        } else if until <= self.now {
            self
        } else {
            Wheel { now: self.slot_start(until - 1), ..self }
        }
    }

    /// The entries due at or before `until`.
    pub open spec fn due(self, until: int) -> Seq<TimerItem<T>> {
        self.entries.take(due_count(self.entries, until) as int)
    }

    /// The wheel after all entries due by `until` have been taken. A time at
    /// or beyond the end of the window becomes the new start; a time inside
    /// it moves the start to the bucket that holds it.
    pub open spec fn drain(self, until: int) -> Self {
        Wheel {
            now: if until >= self.now + self.span() {
                until
            } else if until < self.now {
                self.now
            } else {
                self.slot_start(until)
            },
            entries: self.entries.skip(due_count(self.entries, until) as int),
            ..self
        }
    }

    /// The selector has turned down each entry due at `time` that stands
    /// before place `i`.
    pub open spec fn turned_down<F: FnMut(&T) -> bool>(self, time: u64, selector: F, i: int) -> bool {
        forall|j: int|
            0 <= j < i && j < self.entries.len() && (#[trigger] self.entries[j]).time == time
                ==> selector.ensures((&self.entries[j].item,), false)
    }

    /// What a removal at `time` does. The selector is asked about the
    /// entries due at `time` in their order. The first one that it accepts
    /// leaves the wheel, and `r` is its payload. If it turns all of them
    /// down, `r` is `None` and the wheel stays as it is.
    pub open spec fn removal<F: FnMut(&T) -> bool>(
        self,
        time: u64,
        selector: F,
        r: Option<T>,
        after: Self,
    ) -> bool {
        match r {
            Some(x) => exists|i: int|
                {
                    &&& 0 <= i < self.entries.len()
                    &&& (#[trigger] self.entries[i]).time == time
                    &&& self.entries[i].item == x
                    &&& selector.ensures((&x,), true)
                    &&& self.turned_down(time, selector, i)
                    &&& after == self.remove_at(i)
                },
            None => {
                &&& after == self
                &&& self.turned_down(time, selector, self.entries.len() as int)
            },
        }
    }
}

/// The earliest due time is the due time of an entry, and no entry is due
/// before it; there is none only where there is no entry.
pub proof fn lemma_next_time_earliest<T>(w: Wheel<T>)
    requires
        w.inv(),
    ensures
        w.next_time() is None <==> w.entries.len() == 0,
        w.next_time() matches Some(t) ==> {
            &&& exists|i: int| 0 <= i < w.entries.len() && (#[trigger] w.entries[i]).time == t
            &&& forall|i: int| 0 <= i < w.entries.len() ==> t <= (#[trigger] w.entries[i]).time
        },
{
}

/// Adding an entry keeps the wheel's invariant and the entries that were
/// there, and adds that one entry.
pub proof fn lemma_insert<T>(w: Wheel<T>, time: u64, item: T)
    requires
        w.inv(),
        w.admits(time as int),
    ensures
        w.insert(time, item).inv(),
        w.insert(time, item).contents() == w.contents().insert(TimerItem { time, item }),
        w.now <= w.insert(time, item).now <= time,
        0 <= due_count(w.entries, time as int) <= w.entries.len(),
        w.insert(time, item).entries[due_count(w.entries, time as int) as int] == (TimerItem {
            time,
            item,
        }),
{
    let e = TimerItem { time, item };
    let k = due_count(w.entries, time as int) as int;
    let next = w.insert(time, item);
    let g = w.granularity;
    lemma_due_count_sorted(w.entries, time as int);
    lemma_insert_sorted(w.entries, e);
    vstd::seq_lib::to_multiset_insert(w.entries, k, e);
    lemma_slot_bounds(g, 0, w.capacity);
    if time >= w.now + w.span() && time < w.now + w.span() + (w.span() - g) {
        lemma_slot_of(w.now + w.span(), g, time as int);
        let m = slot_of(w.now + w.span(), g, time as int);
        assert((m + 1) * g == m * g + g) by (nonlinear_arith);
    }
    assert forall|i: int| 0 <= i < next.entries.len() implies next.now <= (
    #[trigger] next.entries[i]).time < next.now + next.span() by {}
}

/// When entries are added one after another, the earliest due time is the
/// least of the times added: each added entry leaves it as it was, or, if
/// due before it, takes its place.
pub proof fn lemma_insert_next_time<T>(w: Wheel<T>, time: u64, item: T)
    requires
        w.inv(),
        w.admits(time as int),
    ensures
        w.insert(time, item).next_time() == match w.next_time() {
            Some(t) => if time < t {
                Some(time)
            } else {
                Some(t)
            },
            None => Some(time),
        },
{
    lemma_due_count_sorted(w.entries, time as int);
}

/// Asked for one entry due by `until`, the wheel hands out its earliest
/// entry or none, keeps the others, and meets its invariant still. It hands
/// out none where none is due by then.
pub proof fn lemma_pop<T>(w: Wheel<T>, until: int)
    requires
        w.inv(),
    ensures
        w.pop(until).inv(),
        w.now <= w.pop(until).now,
        w.yields(until) ==> w.entries == seq![w.entries[0]] + w.pop(until).entries
            && w.entries[0].time <= until,
        !w.yields(until) ==> w.pop(until).entries == w.entries,
        (forall|i: int| 0 <= i < w.entries.len() ==> (#[trigger] w.entries[i]).time > until)
            ==> !w.yields(until),
{
    let g = w.granularity;
    let next = w.pop(until);
    if w.yields(until) {
        lemma_slot_of(w.now, g, w.entries[0].time as int);
    } else if until > w.now {
        lemma_slot_of(w.now, g, until - 1);
        assert forall|i: int| 0 <= i < next.entries.len() implies next.now <= (
        #[trigger] next.entries[i]).time < next.now + next.span() by {
            // An entry due before the new start would be the first one, and
            // would have been handed out.
            lemma_slot_of(w.now, g, w.entries[0].time as int);
        }
    }
}

/// Taking the entries due by `until` parts the wheel's entries in two: the
/// ones taken are all those due at or before `until`, in order, and the ones
/// left are all those due after it. The wheel's invariant holds on.
pub proof fn lemma_drain<T>(w: Wheel<T>, until: int)
    requires
        w.inv(),
        until >= 0,
    ensures
        w.drain(until).inv(),
        w.due(until) + w.drain(until).entries == w.entries,
        w.due(until).to_multiset().add(w.drain(until).contents()) == w.contents(),
        forall|i: int| 0 <= i < w.due(until).len() ==> (#[trigger] w.due(until)[i]).time <= until,
        forall|i: int|
            0 <= i < w.drain(until).entries.len() ==> (#[trigger] w.drain(until).entries[i]).time
                > until,
{
    let rest = w.drain(until);
    lemma_due_count_sorted(w.entries, until);
    vstd::seq_lib::lemma_multiset_commutative(w.due(until), rest.entries);
    if w.now <= until < w.now + w.span() {
        lemma_slot_of(w.now, w.granularity, until);
    }
    assert forall|i: int, j: int| 0 <= i <= j < rest.entries.len() implies rest.entries[i].time
        <= rest.entries[j].time by {}
}

/// Taking the entries due by `t1` and then those due by a later time `t2`
/// hands out each entry due by `t2` once: the two takes, one behind the
/// other, are what one take at `t2` gives, the second take holds only
/// entries due after `t1`, and the same entries are left in the wheel.
pub proof fn lemma_drain_twice<T>(w: Wheel<T>, t1: int, t2: int)
    requires
        w.inv(),
        0 <= t1 < t2,
    ensures
        w.due(t1) + w.drain(t1).due(t2) == w.due(t2),
        w.drain(t1).drain(t2).entries == w.drain(t2).entries,
        forall|i: int|
            0 <= i < w.drain(t1).due(t2).len() ==> t1 < (#[trigger] w.drain(t1).due(t2)[i]).time
                <= t2,
        w.due(t1).to_multiset().add(w.drain(t1).due(t2).to_multiset()).add(
            w.drain(t1).drain(t2).contents(),
        ) == w.contents(),
{
    lemma_due_count_skip(w.entries, t1, t2);
    lemma_drain(w, t1);
    lemma_drain(w.drain(t1), t2);
}

/// Without one of its entries the wheel meets its invariant still, and holds
/// the entries it held but for that one.
pub proof fn lemma_remove_at<T>(w: Wheel<T>, i: int)
    requires
        w.inv(),
        0 <= i < w.entries.len(),
    ensures
        w.remove_at(i).inv(),
        w.remove_at(i).entries.len() == w.entries.len() - 1,
        w.remove_at(i).contents() == w.contents().remove(w.entries[i]),
        w.contents().count(w.entries[i]) > 0,
{
    lemma_remove_sorted(w.entries, i);
    vstd::seq_lib::to_multiset_remove(w.entries, i);
    w.entries.to_multiset_ensures();
}

/// A removal takes at most one entry. The entry that it takes is due at the
/// given time and its payload, which is handed back, was accepted by the
/// selector. Where nothing is handed back, the wheel is unchanged.
pub proof fn lemma_removal<T, F: FnMut(&T) -> bool>(
    w: Wheel<T>,
    time: u64,
    selector: F,
    r: Option<T>,
    after: Wheel<T>,
)
    requires
        w.inv(),
        w.removal(time, selector, r, after),
    ensures
        after.inv(),
        r is None ==> after == w,
        r matches Some(x) ==> {
            &&& selector.ensures((&x,), true)
            &&& w.contents().count(TimerItem { time, item: x }) > 0
            &&& after.contents() == w.contents().remove(TimerItem { time, item: x })
            &&& after.entries.len() == w.entries.len() - 1
        },
{
    match r {
        Some(x) => {
            let i = choose|i: int|
                {
                    &&& 0 <= i < w.entries.len()
                    &&& (#[trigger] w.entries[i]).time == time
                    &&& w.entries[i].item == x
                    &&& selector.ensures((&x,), true)
                    &&& w.turned_down(time, selector, i)
                    &&& after == w.remove_at(i)
                };
            lemma_remove_at(w, i);
        },
        None => {},
    }
}

/// Adding an entry and then removing, at its time, with a selector that
/// accepts the payloads equal to the one added and no others, hands that
/// payload back and leaves the entries that were there before. If no entry
/// with that time and payload was there before, they also stand in the
/// order they had.
pub proof fn lemma_insert_then_remove<T, F: FnMut(&T) -> bool>(
    w: Wheel<T>,
    time: u64,
    item: T,
    selector: F,
    r: Option<T>,
    after: Wheel<T>,
)
    requires
        w.inv(),
        w.admits(time as int),
        forall|y: T, b: bool| selector.ensures((&y,), b) ==> b == (y == item),
        w.insert(time, item).removal(time, selector, r, after),
    ensures
        r == Some(item),
        after.contents() == w.contents(),
        after.now == w.insert(time, item).now,
        w.contents().count(TimerItem { time, item }) == 0 ==> after.entries == w.entries,
{
    let mid = w.insert(time, item);
    lemma_insert(w, time, item);
    lemma_removal(mid, time, selector, r, after);
    if w.contents().count(TimerItem { time, item }) == 0 {
        // The entry that left is the one just added: no other has its time
        // and payload.
        w.entries.to_multiset_ensures();
    }
}

} // verus!
