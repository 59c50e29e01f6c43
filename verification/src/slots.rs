//! The arithmetic of bucket intervals: a window that starts at `now` is cut
//! into intervals of `g` ticks each, numbered from 0.

use vstd::prelude::*;

verus! {

/// Time `t` lies in interval `k` of the window that starts at `now`.
pub open spec fn in_slot(now: int, g: int, k: int, t: int) -> bool {
    now + k * g <= t < now + (k + 1) * g
}

/// The number of the interval that holds `t`.
pub open spec fn slot_of(now: int, g: int, t: int) -> int {
    (t - now) / g
}

/// Every time from `now` on lies in the interval that `slot_of` names.
pub proof fn lemma_slot_of(now: int, g: int, t: int)
    requires
        g > 0,
        now <= t,
    ensures
        slot_of(now, g, t) >= 0,
        in_slot(now, g, slot_of(now, g, t), t),
{
    let x = t - now;
    vstd::arithmetic::div_mod::lemma_fundamental_div_mod(x, g);
    let k = x / g;
    assert(g * k == k * g) by (nonlinear_arith);
    assert((k + 1) * g == k * g + g) by (nonlinear_arith);
}

/// A time lies in one interval only.
pub proof fn lemma_slot_unique(now: int, g: int, k1: int, k2: int, t: int)
    requires
        g > 0,
        in_slot(now, g, k1, t),
        in_slot(now, g, k2, t),
    ensures
        k1 == k2,
{
    if k1 < k2 {
        lemma_slot_order(now, g, k1, t, k2, t);
    } else if k2 < k1 {
        lemma_slot_order(now, g, k2, t, k1, t);
    }
}

/// The interval that holds `t` is the one that `slot_of` names.
pub proof fn lemma_slot_is(now: int, g: int, k: int, t: int)
    requires
        g > 0,
        k >= 0,
        in_slot(now, g, k, t),
    ensures
        slot_of(now, g, t) == k,
{
    assert(k * g >= 0) by (nonlinear_arith)
        requires
            k >= 0,
            g > 0,
    ;
    lemma_slot_of(now, g, t);
    lemma_slot_unique(now, g, k, slot_of(now, g, t), t);
}

/// Times in an earlier interval come before times in a later one.
pub proof fn lemma_slot_order(now: int, g: int, k1: int, t1: int, k2: int, t2: int)
    requires
        g > 0,
        k1 < k2,
        in_slot(now, g, k1, t1),
        in_slot(now, g, k2, t2),
    ensures
        t1 < t2,
{
    assert((k1 + 1) * g <= k2 * g) by (nonlinear_arith)
        requires
            k1 + 1 <= k2,
            g > 0,
    ;
}

/// Where interval `k` begins, and where it ends.
pub proof fn lemma_slot_bounds(g: int, k: int, n: int)
    requires
        g > 0,
        0 <= k < n,
    ensures
        0 <= k * g,
        (k + 1) * g == k * g + g,
        (k + 1) * g <= g * n,
{
    assert(0 <= k * g) by (nonlinear_arith)
        requires
            k >= 0,
            g > 0,
    ;
    assert((k + 1) * g == k * g + g) by (nonlinear_arith);
    assert((k + 1) * g <= g * n) by (nonlinear_arith)
        requires
            k + 1 <= n,
            g > 0,
    ;
}

/// When the window moves on by `n` intervals, interval `k` becomes interval `k - n`.
pub proof fn lemma_slot_shift(now: int, g: int, k: int, n: int, t: int)
    requires
        in_slot(now, g, k, t),
    ensures
        in_slot(now + n * g, g, k - n, t),
{
    assert(n * g + (k - n) * g == k * g) by (nonlinear_arith);
    assert(n * g + (k - n + 1) * g == (k + 1) * g) by (nonlinear_arith);
}

/// Interval `k` of a window that starts `m` intervals after `now` is
/// interval `k + m` of the window that starts at `now`.
pub proof fn lemma_slot_rebase(now: int, g: int, m: int, k: int, t: int)
    requires
        in_slot(now + m * g, g, k, t),
    ensures
        in_slot(now, g, k + m, t),
{
    assert(m * g + k * g == (k + m) * g) by (nonlinear_arith);
    assert(m * g + (k + 1) * g == (k + m + 1) * g) by (nonlinear_arith);
}

/// A time inside a window of `n` intervals lies in one of them.
pub proof fn lemma_slot_in_window(now: int, g: int, n: int, t: int)
    requires
        g > 0,
        now <= t < now + g * n,
    ensures
        0 <= slot_of(now, g, t) < n,
{
    lemma_slot_of(now, g, t);
    let k = slot_of(now, g, t);
    if k >= n {
        assert(g * n <= k * g) by (nonlinear_arith)
            requires
                n <= k,
                g > 0,
        ;
    }
}

} // verus!
