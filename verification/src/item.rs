//! Entries of the wheel, and sequences of them ordered by due time.

use vstd::prelude::*;

verus! {

/// A payload together with the time at which it is due.
pub struct TimerItem<T> {
    /// When the entry is due.
    pub time: u64,
    /// What is kept until then.
    pub item: T,
}

impl<T> TimerItem<T> {
    /// The time at which the entry is due.
    pub fn time(ti: &TimerItem<T>) -> (t: u64)
        ensures
            t == ti.time,
    {
        ti.time
    }
}

/// The entries stand in ascending order of due time.
pub open spec fn sorted<T>(s: Seq<TimerItem<T>>) -> bool {
    forall|i: int, j: int| 0 <= i <= j < s.len() ==> s[i].time <= s[j].time
}

/// The payloads of the entries, in the same order.
pub open spec fn payloads<T>(s: Seq<TimerItem<T>>) -> Seq<T> {
    Seq::new(s.len(), |i: int| s[i].item)
}

/// How many entries at the front of `s` are due at or before `t`. In a sorted
/// sequence these are all the entries due by then, so this is also the index
/// of the first entry due after `t`.
pub open spec fn due_count<T>(s: Seq<TimerItem<T>>, t: int) -> nat
    decreases s.len(),
{
    if s.len() == 0 || s.first().time > t {
        0
    } else {
        1 + due_count(s.drop_first(), t)
    }
}

/// `due_count` stays within the sequence, and every entry it counts is due by `t`.
pub proof fn lemma_due_count_prefix<T>(s: Seq<TimerItem<T>>, t: int)
    ensures
        due_count(s, t) <= s.len(),
        forall|i: int| 0 <= i < due_count(s, t) ==> (#[trigger] s[i]).time <= t,
        due_count(s, t) < s.len() ==> s[due_count(s, t) as int].time > t,
    decreases s.len(),
{
    if s.len() > 0 && s.first().time <= t {
        let rest = s.drop_first();
        lemma_due_count_prefix(rest, t);
        assert forall|i: int| 0 <= i < due_count(s, t) implies (#[trigger] s[i]).time <= t by {
            if i > 0 {
                assert(s[i] == rest[i - 1]);
            }
        }
    }
}

/// In a sorted sequence `due_count` splits the entries due by `t` from those due later.
pub proof fn lemma_due_count_sorted<T>(s: Seq<TimerItem<T>>, t: int)
    requires
        sorted(s),
    ensures
        due_count(s, t) <= s.len(),
        forall|i: int| 0 <= i < due_count(s, t) ==> (#[trigger] s[i]).time <= t,
        forall|i: int| due_count(s, t) <= i < s.len() ==> (#[trigger] s[i]).time > t,
{
    lemma_due_count_prefix(s, t);
}

/// An index that splits the entries due by `t` from those due later is `due_count`.
pub proof fn lemma_due_count_unique<T>(s: Seq<TimerItem<T>>, t: int, k: int)
    requires
        0 <= k <= s.len(),
        forall|i: int| 0 <= i < k ==> (#[trigger] s[i]).time <= t,
        k < s.len() ==> s[k].time > t,
    ensures
        due_count(s, t) == k,
    decreases s.len(),
{
    if k > 0 {
        let rest = s.drop_first();
        assert forall|i: int| 0 <= i < k - 1 implies (#[trigger] rest[i]).time <= t by {}
        lemma_due_count_unique(rest, t, k - 1);
    }
}

/// Behind entries that are all due by `t`, the count goes on.
pub proof fn lemma_due_count_behind<T>(a: Seq<TimerItem<T>>, b: Seq<TimerItem<T>>, t: int)
    requires
        forall|i: int| 0 <= i < a.len() ==> (#[trigger] a[i]).time <= t,
    ensures
        due_count(a + b, t) == a.len() + due_count(b, t),
{
    lemma_due_count_prefix(b, t);
    let k = (a.len() + due_count(b, t)) as int;
    assert forall|i: int| 0 <= i < k implies (#[trigger] (a + b)[i]).time <= t by {}
    lemma_due_count_unique(a + b, t, k);
}

/// Entries that are all due after `t`, put behind, do not change the count.
pub proof fn lemma_due_count_before<T>(b: Seq<TimerItem<T>>, c: Seq<TimerItem<T>>, t: int)
    requires
        forall|i: int| 0 <= i < c.len() ==> (#[trigger] c[i]).time > t,
    ensures
        due_count(b + c, t) == due_count(b, t),
{
    lemma_due_count_prefix(b, t);
    let k = due_count(b, t) as int;
    assert forall|i: int| 0 <= i < k implies (#[trigger] (b + c)[i]).time <= t by {}
    lemma_due_count_unique(b + c, t, k);
}

/// An entry put behind all entries due by its own time keeps the order.
pub proof fn lemma_insert_sorted<T>(s: Seq<TimerItem<T>>, e: TimerItem<T>)
    requires
        sorted(s),
    ensures
        sorted(s.insert(due_count(s, e.time as int) as int, e)),
{
    lemma_due_count_sorted(s, e.time as int);
    let k = due_count(s, e.time as int) as int;
    let r = s.insert(k, e);
    assert forall|i: int, j: int| 0 <= i <= j < r.len() implies r[i].time <= r[j].time by {}
}

/// Without one of its entries a sequence is still in order.
pub proof fn lemma_remove_sorted<T>(s: Seq<TimerItem<T>>, k: int)
    requires
        sorted(s),
        0 <= k < s.len(),
    ensures
        sorted(s.remove(k)),
{
    let r = s.remove(k);
    assert forall|i: int, j: int| 0 <= i <= j < r.len() implies r[i].time <= r[j].time by {}
}

/// Once the entries due by `t1` are gone from a sorted sequence, those due
/// by a later time `t2` are the ones that were due after `t1` and by `t2`.
pub proof fn lemma_due_count_skip<T>(s: Seq<TimerItem<T>>, t1: int, t2: int)
    requires
        sorted(s),
        t1 <= t2,
    ensures
        due_count(s, t1) <= due_count(s, t2) <= s.len(),
        due_count(s.skip(due_count(s, t1) as int), t2) == due_count(s, t2) - due_count(s, t1),
{
    lemma_due_count_sorted(s, t1);
    lemma_due_count_sorted(s, t2);
    let k1 = due_count(s, t1) as int;
    let k2 = due_count(s, t2) as int;
    if k2 < k1 {
        assert(s[k2].time <= t1);
    }
    let rest = s.skip(k1);
    assert forall|i: int| 0 <= i < k2 - k1 implies (#[trigger] rest[i]).time <= t2 by {}
    lemma_due_count_unique(rest, t2, k2 - k1);
}

/// Taking `b` entries after the first `a` entries takes the first `a + b`.
pub proof fn lemma_take_more<T>(s: Seq<TimerItem<T>>, a: int, b: int)
    requires
        0 <= a,
        0 <= b,
        a + b <= s.len(),
    ensures
        s.skip(a).skip(b) == s.skip(a + b),
        s.take(a) + s.skip(a).take(b) == s.take(a + b),
        payloads(s.take(a)) + payloads(s.skip(a).take(b)) == payloads(s.take(a + b)),
{
    assert(s.skip(a).skip(b) =~= s.skip(a + b));
    assert(s.take(a) + s.skip(a).take(b) =~= s.take(a + b));
    assert(payloads(s.take(a)) + payloads(s.skip(a).take(b)) =~= payloads(s.take(a + b)));
}

/// Moves the payloads of a bucket, in order, to the end of `out`.
pub(crate) fn move_payloads<T>(bucket: Vec<TimerItem<T>>, out: &mut Vec<T>)
    ensures
        final(out)@ == old(out)@ + payloads(bucket@),
{
    let ghost all = bucket@;
    let ghost before = out@;
    for e in it: bucket
        invariant
            it.seq() == all,
            out@ == before + payloads(all.take(it.index() as int)),
    {
        out.push(e.item);
    }
}

/// The number of entries of a sorted bucket that are due at or before `t`,
/// found by bisection.
pub fn count_due<T>(bucket: &Vec<TimerItem<T>>, t: u64) -> (k: usize)
    requires
        sorted(bucket@),
    ensures
        k == due_count(bucket@, t as int),
        k <= bucket@.len(),
{
    let mut lo: usize = 0;
    let mut hi: usize = bucket.len();
    while lo < hi
        invariant
            lo <= hi <= bucket@.len(),
            sorted(bucket@),
            forall|i: int| 0 <= i < lo ==> (#[trigger] bucket@[i]).time <= t,
            forall|i: int| hi <= i < bucket@.len() ==> (#[trigger] bucket@[i]).time > t,
        decreases hi - lo,
    {
        let mid: usize = lo + (hi - lo) / 2;
        if bucket[mid].time <= t {
            lo = mid + 1;
        } else {
            hi = mid;
        }
    }
    proof {
        lemma_due_count_unique(bucket@, t as int, lo as int);
    }
    lo
}

} // verus!
