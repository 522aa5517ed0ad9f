use std::collections::VecDeque;
use vstd::prelude::*;

use crate::eager::{EagerVec, lemma_replaced_at, spec_range_values, spec_replaced};
use crate::error::Error;
use crate::version::Version;

verus! {

/// `a` is no better than `b`: no larger when looking for a maximum, no
/// smaller when looking for a minimum.
pub open spec fn no_better(a: u64, b: u64, is_max: bool) -> bool {
    if is_max {
        a <= b
    } else {
        a >= b
    }
}

/// The best (largest, or smallest) of `src[lo..=hi]`.
pub open spec fn spec_range_best(src: Seq<u64>, lo: int, hi: int, is_max: bool) -> u64
    decreases hi - lo,
{
    if hi <= lo {
        src[lo]
    } else {
        let p = spec_range_best(src, lo, hi - 1, is_max);
        if no_better(src[hi], p, is_max) {
            p
        } else {
            src[hi]
        }
    }
}

/// The first index of the window of `window` values that ends at `i`; a
/// window of zero values holds `i` alone.
pub open spec fn window_lo(i: int, window: int) -> int {
    if window == 0 {
        i
    } else if i + 1 >= window {
        i + 1 - window
    } else {
        0
    }
}

/// Every value of the range is no better than its best.
pub proof fn lemma_range_best_bound(src: Seq<u64>, lo: int, hi: int, is_max: bool, j: int)
    requires
        lo <= j <= hi,
    ensures
        no_better(src[j], spec_range_best(src, lo, hi, is_max), is_max),
    decreases hi - lo,
{
    if j < hi {
        lemma_range_best_bound(src, lo, hi - 1, is_max, j);
    }
}

/// The best of the range is one of its values.
pub proof fn lemma_range_best_attained(src: Seq<u64>, lo: int, hi: int, is_max: bool) -> (j: int)
    requires
        lo <= hi,
    ensures
        lo <= j <= hi,
        src[j] == spec_range_best(src, lo, hi, is_max),
    decreases hi - lo,
{
    if hi <= lo {
        lo
    } else {
        let p = spec_range_best(src, lo, hi - 1, is_max);
        if no_better(src[hi], p, is_max) {
            lemma_range_best_attained(src, lo, hi - 1, is_max)
        } else {
            hi
        }
    }
}

/// A value of the range that every value of the range is no better than is
/// its best.
pub proof fn lemma_range_best_is(src: Seq<u64>, lo: int, hi: int, is_max: bool, w: int)
    requires
        lo <= w <= hi,
        forall|j: int| lo <= j <= hi ==> no_better(#[trigger] src[j], src[w], is_max),
    ensures
        spec_range_best(src, lo, hi, is_max) == src[w],
{
    lemma_range_best_bound(src, lo, hi, is_max, w);
    let a = lemma_range_best_attained(src, lo, hi, is_max);
    assert(no_better(src[a], src[w], is_max));
}

/// The entries of the deque are indices of `src` with their values, indices
/// increasing from `lo` on and values from best to worst; and each value of
/// `src` from `lo` to the last index is no better than the entry of the first
/// index at or past it.
#[verifier::opaque]
pub open spec fn deque_ok(dq: Seq<(usize, u64)>, src: Seq<u64>, lo: int, is_max: bool) -> bool {
    &&& forall|k: int| 0 <= k < dq.len() ==> lo <= (#[trigger] dq[k]).0 < src.len() && dq[k].1 == src[dq[k].0 as int]
    &&& forall|k1: int, k2: int| 0 <= k1 < k2 < dq.len() ==> (#[trigger] dq[k1]).0 < (#[trigger] dq[k2]).0
        && no_better(dq[k2].1, dq[k1].1, is_max)
    &&& forall|j: int, k: int|
        0 <= k < dq.len() && lo <= j <= (#[trigger] dq[k]).0 && (k == 0 || dq[k - 1].0 < j) ==> no_better(
            #[trigger] src[j],
            dq[k].1,
            is_max,
        )
}

/// Each value of `src` from `lo` to the last index of the deque is no
/// better than the first entry.
proof fn lemma_deque_front_best(dq: Seq<(usize, u64)>, src: Seq<u64>, lo: int, is_max: bool, j: int)
    requires
        deque_ok(dq, src, lo, is_max),
        dq.len() > 0,
        lo <= j <= dq.last().0,
    ensures
        no_better(src[j], dq[0].1, is_max),
{
    reveal(deque_ok);
    let k = lemma_deque_cover(dq, src, lo, is_max, j, dq.len() - 1);
    if k > 0 {
        assert(no_better(dq[k].1, dq[0].1, is_max));
    }
}

/// The first entry at or past index `j`, searched down from entry `k`.
proof fn lemma_deque_cover(dq: Seq<(usize, u64)>, src: Seq<u64>, lo: int, is_max: bool, j: int, k: int) -> (c: int)
    requires
        deque_ok(dq, src, lo, is_max),
        0 <= k < dq.len(),
        lo <= j <= dq[k].0,
    ensures
        0 <= c <= k,
        no_better(src[j], dq[c].1, is_max),
    decreases k,
{
    reveal(deque_ok);
    if k == 0 || dq[k - 1].0 < j {
        k
    } else {
        lemma_deque_cover(dq, src, lo, is_max, j, k - 1)
    }
}

/// Raising the lower index of a deque whose entries all lie at or past the
/// new one keeps it well formed.
proof fn lemma_deque_raise(dq: Seq<(usize, u64)>, src: Seq<u64>, a: int, b: int, is_max: bool)
    requires
        deque_ok(dq, src, a, is_max),
        a <= b,
        forall|k: int| 0 <= k < dq.len() ==> b <= (#[trigger] dq[k]).0,
    ensures
        deque_ok(dq, src, b, is_max),
{
    reveal(deque_ok);
}

/// Dropping the first entry keeps the deque well formed from past its index.
proof fn lemma_deque_pop_front(dq: Seq<(usize, u64)>, src: Seq<u64>, a: int, is_max: bool)
    requires
        deque_ok(dq, src, a, is_max),
        dq.len() > 0,
    ensures
        deque_ok(dq.subrange(1, dq.len() as int), src, dq[0].0 + 1, is_max),
{
    reveal(deque_ok);
    let d = dq.subrange(1, dq.len() as int);
    assert forall|k: int| 0 <= k < d.len() implies dq[0].0 + 1 <= (#[trigger] d[k]).0 < src.len()
        && d[k].1 == src[d[k].0 as int] by {
        assert(d[k] == dq[k + 1]);
    }
    assert forall|k1: int, k2: int| 0 <= k1 < k2 < d.len() implies (#[trigger] d[k1]).0 < (
    #[trigger] d[k2]).0 && no_better(d[k2].1, d[k1].1, is_max) by {
        assert(d[k1] == dq[k1 + 1]);
        assert(d[k2] == dq[k2 + 1]);
    }
    assert forall|j: int, k: int|
        0 <= k < d.len() && dq[0].0 + 1 <= j <= (#[trigger] d[k]).0 && (k == 0 || d[k - 1].0 < j) implies no_better(
        #[trigger] src[j],
        d[k].1,
        is_max,
    ) by {
        assert(d[k] == dq[k + 1]);
        if k > 0 {
            assert(d[k - 1] == dq[k]);
        }
        assert(dq[k].0 < j);
    }
}

/// Dropping the last entry keeps the deque well formed.
proof fn lemma_deque_pop_back(dq: Seq<(usize, u64)>, src: Seq<u64>, a: int, is_max: bool)
    requires
        deque_ok(dq, src, a, is_max),
        dq.len() > 0,
    ensures
        deque_ok(dq.subrange(0, dq.len() - 1), src, a, is_max),
{
    reveal(deque_ok);
    let d = dq.subrange(0, dq.len() - 1);
    assert forall|k: int| 0 <= k < d.len() implies #[trigger] d[k] == dq[k] by {}
}

/// Appending an entry for index `i` past every entry, no better than any of
/// them, and such that every value of `src` between the last entry (or `a`)
/// and `i` is no better than it, keeps the deque well formed.
proof fn lemma_deque_push(dq: Seq<(usize, u64)>, src: Seq<u64>, a: int, is_max: bool, i: usize)
    requires
        deque_ok(dq, src, a, is_max),
        a <= i < src.len(),
        forall|k: int| 0 <= k < dq.len() ==> (#[trigger] dq[k]).0 < i,
        dq.len() > 0 ==> no_better(src[i as int], dq.last().1, is_max),
        forall|j: int|
            a <= j < i && (dq.len() == 0 || dq.last().0 < j) ==> no_better(#[trigger] src[j], src[i as int], is_max),
    ensures
        deque_ok(dq.push((i, src[i as int])), src, a, is_max),
{
    reveal(deque_ok);
    let d = dq.push((i, src[i as int]));
    let n = dq.len() as int;
    assert forall|k1: int, k2: int| 0 <= k1 < k2 < d.len() implies (#[trigger] d[k1]).0 < (
    #[trigger] d[k2]).0 && no_better(d[k2].1, d[k1].1, is_max) by {
        if k2 == n {
            if k1 < n - 1 {
                assert(no_better(dq[n - 1].1, dq[k1].1, is_max));
            }
        }
    }
    assert forall|j: int, k: int|
        0 <= k < d.len() && a <= j <= (#[trigger] d[k]).0 && (k == 0 || d[k - 1].0 < j) implies no_better(
        #[trigger] src[j],
        d[k].1,
        is_max,
    ) by {
        if k < n {
            assert(d[k] == dq[k]);
            if k > 0 {
                assert(d[k - 1] == dq[k - 1]);
            }
        } else if j < i {
            if n > 0 {
                assert(d[k - 1] == dq[n - 1]);
            }
        }
    }
}

/// Entry `k` of the deque is an index from `a` on with its value, and no
/// earlier than the first entry.
proof fn lemma_deque_entry(dq: Seq<(usize, u64)>, src: Seq<u64>, a: int, is_max: bool, k: int)
    requires
        deque_ok(dq, src, a, is_max),
        0 <= k < dq.len(),
    ensures
        a <= dq[k].0 < src.len(),
        dq[k].1 == src[dq[k].0 as int],
        dq[0].0 <= dq[k].0,
        no_better(dq[k].1, dq[0].1, is_max),
{
    reveal(deque_ok);
    if k > 0 {
        assert(dq[0].0 < dq[k].0);
    }
}

/// Each value of `src` between the entry before the last (or `a`) and the
/// last entry is no better than the last entry.
proof fn lemma_deque_last_cover(dq: Seq<(usize, u64)>, src: Seq<u64>, a: int, is_max: bool, j: int)
    requires
        deque_ok(dq, src, a, is_max),
        dq.len() > 0,
        a <= j <= dq.last().0,
        dq.len() == 1 || dq[dq.len() - 2].0 < j,
    ensures
        no_better(src[j], dq.last().1, is_max),
{
    reveal(deque_ok);
    let k = dq.len() - 1;
    assert(dq[k] == dq.last());
}

/// An empty deque is well formed.
proof fn lemma_deque_empty(src: Seq<u64>, a: int, is_max: bool)
    ensures
        deque_ok(Seq::<(usize, u64)>::empty(), src, a, is_max),
{
    reveal(deque_ok);
}

/// The best value of each window of `window` values ending at `kept`,
/// `kept + 1`, ..., up to the end of `src`, found with a deque of candidate
/// values from best to worst.
pub fn window_best(src: &[u64], kept: usize, window: usize, is_max: bool) -> (out: Vec<u64>)
    requires
        kept <= src@.len(),
    ensures
        out@.len() == src@.len() - kept,
        forall|k: int|
            0 <= k < out@.len() ==> #[trigger] out@[k] == spec_range_best(
                src@,
                window_lo(kept + k, window as int),
                kept + k,
                is_max,
            ),
{
    let n = src.len();
    let start = if kept >= window {
        kept - window
    } else {
        0
    };
    let mut dq: VecDeque<(usize, u64)> = VecDeque::new();
    let mut out: Vec<u64> = Vec::new();
    let mut i = start;
    proof {
        lemma_deque_empty(src@, eff_lo(i - 1, start as int, window as int), is_max);
        assert(dq@ =~= Seq::<(usize, u64)>::empty());
    }
    while i < n
        invariant
            start <= i <= n,
            n == src@.len(),
            start <= kept <= n,
            start == if kept >= window { kept - window } else { 0 },
            i == start ==> dq@.len() == 0,
            i > start ==> dq@.len() > 0 && dq@.last().0 == i - 1,
            forall|k: int| 0 <= k < dq@.len() ==> (#[trigger] dq@[k]).0 < i,
            deque_ok(dq@, src@, eff_lo(i - 1, start as int, window as int), is_max),
            out@.len() == if i > kept { i - kept } else { 0 },
            forall|k: int|
                0 <= k < out@.len() ==> #[trigger] out@[k] == spec_range_best(
                    src@,
                    window_lo(kept + k, window as int),
                    kept + k,
                    is_max,
                ),
        decreases n - i,
    {
        let x = src[i];
        let ghost lo = eff_lo(i as int, start as int, window as int);
        let ghost mut cur = eff_lo(i - 1, start as int, window as int);
        assert(window_lo(i - 1, window as int) <= window_lo(i as int, window as int));
        // Drop the entries that left the window.
        while front_left(&dq, i, window)
            invariant
                deque_ok(dq@, src@, cur, is_max),
                start <= cur <= lo <= i,
                lo == eff_lo(i as int, start as int, window as int),
                start <= i < n,
                n == src@.len(),
                forall|k: int| 0 <= k < dq@.len() ==> (#[trigger] dq@[k]).0 < i,
                i == start ==> dq@.len() == 0,
                i > start && dq@.len() > 0 ==> dq@.last().0 == i - 1,
                i > start && dq@.len() == 0 ==> lo >= i,
            decreases dq@.len(),
        {
            let front = dq[0].0;
            let ghost before = dq@;
            proof {
                lemma_deque_pop_front(before, src@, cur, is_max);
                lemma_deque_entry(before, src@, cur, is_max, 0);
                assert(before[0].0 < i);
                assert(front + 1 <= window_lo(i as int, window as int));
            }
            let _ = dq.pop_front();
            proof {
                cur = front + 1;
                assert(dq@ =~= before.subrange(1, before.len() as int));
                assert forall|k: int| 0 <= k < dq@.len() implies (#[trigger] dq@[k]).0 < i by {
                    assert(dq@[k] == before[k + 1]);
                }
                if dq@.len() > 0 {
                    assert(dq@.last() == before.last());
                }
            }
        }
        proof {
            if dq@.len() > 0 {
                assert forall|k: int| 0 <= k < dq@.len() implies lo <= (#[trigger] dq@[k]).0 by {
                    lemma_deque_entry(dq@, src@, cur, is_max, k);
                }
            }
            lemma_deque_raise(dq@, src@, cur, lo, is_max);
        }
        // Drop the entries that the new value beats.
        while back_beaten(&dq, x, is_max)
            invariant
                deque_ok(dq@, src@, lo, is_max),
                lo <= i < n,
                n == src@.len(),
                x == src@[i as int],
                forall|k: int| 0 <= k < dq@.len() ==> (#[trigger] dq@[k]).0 < i,
                forall|j: int|
                    lo <= j < i && (dq@.len() == 0 || dq@.last().0 < j) ==> no_better(#[trigger] src@[j], x, is_max),
            decreases dq@.len(),
        {
            let ghost before = dq@;
            proof {
                lemma_deque_pop_back(before, src@, lo, is_max);
                assert forall|j: int|
                    lo <= j < i && (before.len() == 1 || before[before.len() - 2].0 < j) implies no_better(
                    #[trigger] src@[j],
                    x,
                    is_max,
                ) by {
                    if j <= before.last().0 {
                        lemma_deque_last_cover(before, src@, lo, is_max, j);
                    }
                }
            }
            let _ = dq.pop_back();
            proof {
                assert(dq@ =~= before.subrange(0, before.len() - 1));
                assert forall|k: int| 0 <= k < dq@.len() implies (#[trigger] dq@[k]).0 < i by {
                    assert(dq@[k] == before[k]);
                }
                if dq@.len() > 0 {
                    assert(dq@.last() == before[before.len() - 2]);
                }
            }
        }
        proof {
            lemma_deque_push(dq@, src@, lo, is_max, i);
        }
        dq.push_back((i, x));
        if i >= kept {
            let best = dq[0].1;
            proof {
                assert(lo == window_lo(i as int, window as int));
                lemma_deque_entry(dq@, src@, lo, is_max, 0);
                lemma_deque_entry(dq@, src@, lo, is_max, dq@.len() - 1);
                assert forall|j: int| lo <= j <= i implies no_better(#[trigger] src@[j], src@[dq@[0].0 as int], is_max) by {
                    lemma_deque_front_best(dq@, src@, lo, is_max, j);
                }
                lemma_range_best_is(src@, lo, i as int, is_max, dq@[0].0 as int);
            }
            out.push(best);
        }
        i = i + 1;
    }
    out
}

/// The first entry of the deque left the window ending at `i`.
fn front_left(dq: &VecDeque<(usize, u64)>, i: usize, window: usize) -> (r: bool)
    ensures
        r == (dq@.len() > 0 && i >= window && dq@[0].0 <= i - window),
{
    dq.len() > 0 && i >= window && dq[0].0 <= i - window
}

/// The value `x` beats the last entry of the deque.
fn back_beaten(dq: &VecDeque<(usize, u64)>, x: u64, is_max: bool) -> (r: bool)
    ensures
        r == (dq@.len() > 0 && !no_better(x, dq@.last().1, is_max)),
{
    if dq.len() == 0 {
        return false;
    }
    let back = dq[dq.len() - 1].1;
    if is_max {
        back < x
    } else {
        back > x
    }
}

/// The lower index of the window ending at `i`, but not below `start`.
pub open spec fn eff_lo(i: int, start: int, window: int) -> int {
    if window_lo(i, window) > start {
        window_lo(i, window)
    } else {
        start
    }
}

/// The sum of `s[a..b]`.
pub open spec fn spec_seq_sum(s: Seq<u64>, a: int, b: int) -> int
    decreases b - a,
{
    if b <= a {
        0
    } else {
        spec_seq_sum(s, a, b - 1) + s[b - 1]
    }
}

/// A sum can also be cut after its first value.
pub proof fn lemma_seq_sum_front(s: Seq<u64>, a: int, b: int)
    requires
        a < b,
    ensures
        spec_seq_sum(s, a, b) == s[a] + spec_seq_sum(s, a + 1, b),
    decreases b - a,
{
    reveal_with_fuel(spec_seq_sum, 2);
    if a + 1 < b {
        lemma_seq_sum_front(s, a, b - 1);
    }
}

/// A sum of `u64` values is not negative.
proof fn lemma_seq_sum_nonneg(s: Seq<u64>, a: int, b: int)
    ensures
        spec_seq_sum(s, a, b) >= 0,
    decreases b - a,
{
    if a < b {
        lemma_seq_sum_nonneg(s, a, b - 1);
    }
}

/// The value a running window sum subtracts at `i`: the one leaving the
/// window, if any.
pub open spec fn spec_leaving(src: Seq<u64>, i: int, window: int) -> int {
    if i >= window {
        src[i - window] as int
    } else {
        0
    }
}

/// The running window sum written at `i`, carried on from `seed` written
/// just before `from`: the previous sum, less the value leaving the window,
/// plus `src[i]`.
pub open spec fn spec_window_sum_at(seed: int, src: Seq<u64>, from: int, i: int, window: int) -> int
    decreases i - from,
{
    let prev = if i <= from {
        seed
    } else {
        spec_window_sum_at(seed, src, from, i - 1, window)
    };
    prev - spec_leaving(src, i, window) + src[i]
}

/// The running sum before `i`.
pub open spec fn spec_window_prev(seed: int, src: Seq<u64>, from: int, i: int, window: int) -> int {
    if i <= from {
        seed
    } else {
        spec_window_sum_at(seed, src, from, i - 1, window)
    }
}

/// Starting from the sum of the window before `from`, the running window
/// sum at each later index is the sum of the `window` values ending there.
pub proof fn lemma_window_sum_is_sum(seed: int, src: Seq<u64>, from: int, i: int, window: int)
    requires
        window >= 1,
        0 <= from <= i < src.len(),
        seed == spec_seq_sum(src, if from >= window { from - window } else { 0 }, from),
    ensures
        spec_window_sum_at(seed, src, from, i, window) == spec_seq_sum(
            src,
            if i + 1 >= window { i + 1 - window } else { 0 },
            i + 1,
        ),
    decreases i - from,
{
    if i > from {
        lemma_window_sum_is_sum(seed, src, from, i - 1, window);
    }
    if i >= window {
        lemma_seq_sum_front(src, i - window, i);
    }
}

/// No running window sum from `from` on goes below zero when the leaving
/// value is taken off, nor past `u64::MAX`.
pub open spec fn window_sums_fit(seed: int, src: Seq<u64>, from: int, window: int) -> bool {
    forall|i: int|
        from <= i < src.len() ==> spec_window_prev(seed, src, from, i, window) >= spec_leaving(
            src,
            i,
            window,
        ) && #[trigger] spec_window_sum_at(seed, src, from, i, window) <= u64::MAX
}

impl EagerVec {
    /// Value `i` becomes the largest of the `window` source values ending at
    /// `i` (of `src[i]` alone when `window` is zero).
    pub fn compute_max(&mut self, max_from: usize, source: &[u64], source_version: Version, window: usize) -> (r: Result<(), Error>)
        requires
            old(self).wf(),
            source@.len() <= old(self).capacity(),
        ensures
            ({
                let v = old(self).version1(0, source_version);
                let kept = old(self).kept(v, max_from);
                &&& final(self).wf()
                &&& final(self).computed_version_view() == v
                &&& final(self).values() == spec_replaced(
                    old(self).base_values(v),
                    kept,
                    spec_range_values(
                        kept,
                        source@.len() as int,
                        |i: int| spec_range_best(source@, window_lo(i, window as int), i, true),
                    ),
                )
            }),
            old(self).format_view() is Raw ==> r is Ok,
    {
        let version = Version::zero().plus(self.inner_version()).plus(source_version);
        let kept = self.begin(version, max_from);
        self.finish_window(kept, source, window, true)
    }

    /// Value `i` becomes the smallest of the `window` source values ending at
    /// `i` (of `src[i]` alone when `window` is zero).
    pub fn compute_min(&mut self, max_from: usize, source: &[u64], source_version: Version, window: usize) -> (r: Result<(), Error>)
        requires
            old(self).wf(),
            source@.len() <= old(self).capacity(),
        ensures
            ({
                let v = old(self).version1(0, source_version);
                let kept = old(self).kept(v, max_from);
                &&& final(self).wf()
                &&& final(self).computed_version_view() == v
                &&& final(self).values() == spec_replaced(
                    old(self).base_values(v),
                    kept,
                    spec_range_values(
                        kept,
                        source@.len() as int,
                        |i: int| spec_range_best(source@, window_lo(i, window as int), i, false),
                    ),
                )
            }),
            old(self).format_view() is Raw ==> r is Ok,
    {
        let version = Version::zero().plus(self.inner_version()).plus(source_version);
        let kept = self.begin(version, max_from);
        self.finish_window(kept, source, window, false)
    }

    /// Writes the window extremes from `kept` on, then flushes.
    fn finish_window(&mut self, kept: usize, source: &[u64], window: usize, is_max: bool) -> (r: Result<(), Error>)
        requires
            old(self).wf(),
            kept <= old(self).spec_len(),
            source@.len() <= old(self).capacity(),
        ensures
            final(self).wf(),
            final(self).computed_version_view() == old(self).computed_version_view(),
            final(self).values() == spec_replaced(
                old(self).values(),
                kept as int,
                spec_range_values(
                    kept as int,
                    source@.len() as int,
                    |i: int| spec_range_best(source@, window_lo(i, window as int), i, is_max),
                ),
            ),
            old(self).format_view() is Raw ==> r is Ok,
    {
        let n = source.len();
        let new = if kept < n {
            window_best(source, kept, window, is_max)
        } else {
            Vec::new()
        };
        assert(new@ =~= spec_range_values(
            kept as int,
            n as int,
            |i: int| spec_range_best(source@, window_lo(i, window as int), i, is_max),
        ));
        self.finish(kept, new)
    }

    /// The running sum a window sum starts from: the last kept value, or
    /// zero when nothing is kept.
    pub open spec fn sum_seed(&self, version: Version, max_from: usize) -> int {
        let kept = self.kept(version, max_from);
        if kept > 0 {
            self.base_values(version)[kept - 1]->0 as int
        } else {
            0
        }
    }

    /// Value `i` becomes the sum of the `window` source values ending at
    /// `i`, computed as a running sum carried on from the last kept value:
    /// the previous sum, less the value leaving the window, plus `source[i]`.
    /// The window must not be empty, and no running sum may go below zero
    /// or past `u64::MAX`.
    #[verifier::spinoff_prover]
    #[verifier::rlimit(30)]
    pub fn compute_sum(&mut self, max_from: usize, source: &[u64], source_version: Version, window: usize) -> (r: Result<(), Error>)
        requires
            old(self).wf(),
            source@.len() <= old(self).capacity(),
            ({
                let v = old(self).version1(1, source_version);
                let kept = old(self).kept(v, max_from);
                let seed = old(self).sum_seed(v, max_from);
                &&& kept < source@.len() ==> window > 0
                &&& !old(self).seed_unreadable(v, max_from, source@.len() as int) ==> window_sums_fit(
                    seed,
                    source@,
                    kept,
                    window as int,
                )
            }),
        ensures
            ({
                let v = old(self).version1(1, source_version);
                let kept = old(self).kept(v, max_from);
                let seed = old(self).sum_seed(v, max_from);
                &&& final(self).wf()
                &&& final(self).computed_version_view() == v
                &&& old(self).seed_unreadable(v, max_from, source@.len() as int) ==> r == Err::<(), Error>(Error::Decompression)
                    && final(self).values() == old(self).base_values(v)
                &&& !old(self).seed_unreadable(v, max_from, source@.len() as int) ==> final(self).values() == spec_replaced(
                    old(self).base_values(v),
                    kept,
                    spec_range_values(
                        kept,
                        source@.len() as int,
                        |i: int| spec_window_sum_at(seed, source@, kept, i, window as int) as u64,
                    ),
                ) && (old(self).format_view() is Raw ==> r is Ok)
            }),
    {
        let version = Version::one().plus(self.inner_version()).plus(source_version);
        let ghost old_self = *self;
        let kept = self.begin(version, max_from);
        let n = source.len();
        let mut new: Vec<u64> = Vec::new();
        if kept < n {
            let mut prev: u64 = if kept > 0 {
                match self.value(kept - 1) {
                    Ok(v) => v,
                    Err(e) => {
                        return Err(e);
                    },
                }
            } else {
                0
            };
            let ghost seed = prev as int;
            assert(seed == old_self.sum_seed(version, max_from));
            assert(version == old_self.version1(1, source_version));
            assert(!old_self.seed_unreadable(version, max_from, n as int));
            assert(window_sums_fit(seed, source@, kept as int, window as int));
            let mut window_values: VecDeque<u64> = VecDeque::new();
            let start = if kept >= window {
                kept - window
            } else {
                0
            };
            let mut k = start;
            while k < kept
                invariant
                    start <= k <= kept,
                    kept < n == source@.len(),
                    window_values@ == source@.subrange(start as int, k as int),
                    window_sums_fit(seed, source@, kept as int, window as int),
                decreases kept - k,
            {
                window_values.push_back(source[k]);
                k = k + 1;
                assert(window_values@ =~= source@.subrange(start as int, k as int));
            }
            let mut i = kept;
            while i < n
                invariant
                    kept <= i <= n,
                    n == source@.len(),
                    window > 0,
                    window_values@ == source@.subrange(if i >= window { i - window } else { 0 }, i as int),
                    prev == spec_window_prev(seed, source@, kept as int, i as int, window as int),
                    window_sums_fit(seed, source@, kept as int, window as int),
                    new@ =~= spec_range_values(
                        kept as int,
                        i as int,
                        |j: int| spec_window_sum_at(seed, source@, kept as int, j, window as int) as u64,
                    ),
                decreases n - i,
            {
                let value = source[i];
                let processed = i + 1;
                let len = if processed < window {
                    processed
                } else {
                    window
                };
                assert(spec_window_sum_at(seed, source@, kept as int, i as int, window as int) <= u64::MAX);
                let sum = if processed > len {
                    let leaving = window_values.pop_front().unwrap();
                    prev - leaving + value
                } else {
                    prev + value
                };
                window_values.push_back(value);
                if window_values.len() > window {
                    let _ = window_values.pop_front();
                }
                assert(window_values@ =~= source@.subrange(if i + 1 >= window { i + 1 - window } else { 0 }, i + 1));
                prev = sum;
                new.push(sum);
                i = i + 1;
            }
        }
        self.finish(kept, new)
    }
}

/// Tests whether the running window sums from `from` on, carried on from
/// `seed`, fit as `window_sums_fit` asks.
#[verifier::spinoff_prover]
#[verifier::rlimit(40)]
fn check_window_sums(seed: u64, src: &[u64], from: usize, window: usize) -> (r: bool)
    requires
        from <= src@.len(),
    ensures
        r == window_sums_fit(seed as int, src@, from as int, window as int),
{
    let n = src.len();
    let mut prev: u64 = seed;
    let mut i = from;
    while i < n
        invariant
            from <= i <= n,
            n == src@.len(),
            prev == spec_window_prev(seed as int, src@, from as int, i as int, window as int),
            forall|j: int|
                from <= j < i ==> spec_window_prev(seed as int, src@, from as int, j, window as int)
                    >= spec_leaving(src@, j, window as int) && #[trigger] spec_window_sum_at(
                    seed as int,
                    src@,
                    from as int,
                    j,
                    window as int,
                ) <= u64::MAX,
        decreases n - i,
    {
        let leaving = if i >= window {
            src[i - window]
        } else {
            0
        };
        assert(leaving == spec_leaving(src@, i as int, window as int));
        if prev < leaving {
            return false;
        }
        let next = match (prev - leaving).checked_add(src[i]) {
            Some(x) => x,
            None => {
                assert(spec_window_sum_at(seed as int, src@, from as int, i as int, window as int)
                    > u64::MAX);
                return false;
            },
        };
        assert(next == spec_window_sum_at(seed as int, src@, from as int, i as int, window as int));
        let ghost i0 = i as int;
        assert forall|j: int|
            from <= j < i0 + 1 implies spec_window_prev(seed as int, src@, from as int, j, window as int)
                >= spec_leaving(src@, j, window as int) && #[trigger] spec_window_sum_at(
                seed as int,
                src@,
                from as int,
                j,
                window as int,
            ) <= u64::MAX by {}
        prev = next;
        i = i + 1;
    }
    assert(window_sums_fit(seed as int, src@, from as int, window as int));
    true
}

impl EagerVec {
    /// The window sum of `compute_sum`, after a run-time test of what it
    /// requires: the window is not empty when there is something to compute,
    /// and the running sums carried on from the last kept value fit. It
    /// returns `Ok(false)` and changes nothing when the test fails; otherwise
    /// it returns what `compute_sum` returns, with `true` for `Ok`.
    pub fn compute_sum_checked(
        &mut self,
        max_from: usize,
        source: &[u64],
        source_version: Version,
        window: usize,
    ) -> (r: Result<bool, Error>)
        requires
            old(self).wf(),
            source@.len() <= old(self).capacity(),
        ensures
            ({
                let v = old(self).version1(1, source_version);
                let kept = old(self).kept(v, max_from);
                let seed = old(self).sum_seed(v, max_from);
                let unreadable = old(self).seed_unreadable(v, max_from, source@.len() as int);
                let fits = (kept < source@.len() ==> window > 0) && (!unreadable
                    ==> window_sums_fit(seed, source@, kept, window as int));
                &&& final(self).wf()
                &&& !fits ==> r == Ok::<bool, Error>(false) && *final(self) == *old(self)
                &&& fits ==> r != Ok::<bool, Error>(false) && final(self).computed_version_view() == v
                &&& fits && unreadable ==> r == Err::<bool, Error>(Error::Decompression)
                    && final(self).values() == old(self).base_values(v)
                &&& fits && !unreadable ==> final(self).values() == spec_replaced(
                    old(self).base_values(v),
                    kept,
                    spec_range_values(
                        kept,
                        source@.len() as int,
                        |i: int| spec_window_sum_at(seed, source@, kept, i, window as int) as u64,
                    ),
                ) && (old(self).format_view() is Raw ==> r == Ok::<bool, Error>(true))
            }),
    {
        let version = Version::one().plus(self.inner_version()).plus(source_version);
        let ghost v = old(self).version1(1, source_version);
        assert(version == v);
        let n = source.len();
        let len = self.len();
        let kept = if self.computed_version() == version {
            if max_from < len {
                max_from
            } else {
                len
            }
        } else {
            0
        };
        assert(kept == old(self).kept(v, max_from));
        if kept < n {
            if window == 0 {
                return Ok(false);
            }
            if kept > 0 {
                match self.value(kept - 1) {
                    Ok(seed) => {
                        assert(seed == old(self).sum_seed(v, max_from));
                        if !check_window_sums(seed, source, kept, window) {
                            return Ok(false);
                        }
                    },
                    Err(_) => {},
                }
            } else if !check_window_sums(0, source, 0, window) {
                return Ok(false);
            }
        }
        match self.compute_sum(max_from, source, source_version, window) {
            Ok(()) => Ok(true),
            Err(e) => Err(e),
        }
    }

    /// Resuming a window minimum or maximum from any `max_from` gives what a
    /// computation from scratch gives: when every value kept from `version`
    /// is already the extreme of its window, the values `compute_min` or
    /// `compute_max` leave are the extremes of every window of `source`.
    pub proof fn lemma_window_best_resumes(
        &self,
        version: Version,
        max_from: usize,
        source: Seq<u64>,
        window: usize,
        is_max: bool,
    )
        requires
            self.base_values(version).len() <= source.len(),
            forall|i: int|
                0 <= i < self.base_values(version).len() ==> #[trigger] self.base_values(version)[i]
                    == Some(spec_range_best(source, window_lo(i, window as int), i, is_max)),
        ensures
            spec_replaced(
                self.base_values(version),
                self.kept(version, max_from),
                spec_range_values(
                    self.kept(version, max_from),
                    source.len() as int,
                    |i: int| spec_range_best(source, window_lo(i, window as int), i, is_max),
                ),
            ) == Seq::new(
                source.len(),
                |i: int| Some(spec_range_best(source, window_lo(i, window as int), i, is_max)),
            ),
    {
        let base = self.base_values(version);
        let kept = self.kept(version, max_from);
        let f = |i: int| spec_range_best(source, window_lo(i, window as int), i, is_max);
        let new = spec_range_values(kept, source.len() as int, f);
        let full = Seq::new(source.len(), |i: int| Some(f(i)));
        if new.len() > 0 {
            assert forall|i: int| 0 <= i < source.len() implies #[trigger] spec_replaced(base, kept, new)[i]
                == full[i] by {
                if i >= kept {
                    lemma_replaced_at(base, kept, new, i);
                }
            }
            assert(spec_replaced(base, kept, new) =~= full);
        } else {
            assert(base =~= full);
        }
    }

    /// Resuming a window sum from any `max_from` gives what a computation
    /// from scratch gives: when `window` is not empty, every window sum of
    /// `source` fits in `u64` and every value kept from `version` is already
    /// the sum of its window, the values `compute_sum` leaves are the sums of
    /// every window of `source`.
    pub proof fn lemma_window_sum_resumes(
        &self,
        version: Version,
        max_from: usize,
        source: Seq<u64>,
        window: usize,
    )
        requires
            window >= 1,
            self.base_values(version).len() <= source.len(),
            forall|i: int|
                0 <= i < source.len() ==> #[trigger] spec_seq_sum(source, window_lo(i, window as int), i + 1)
                    <= u64::MAX,
            forall|i: int|
                0 <= i < self.base_values(version).len() ==> #[trigger] self.base_values(version)[i]
                    == Some(spec_seq_sum(source, window_lo(i, window as int), i + 1) as u64),
        ensures
            spec_replaced(
                self.base_values(version),
                self.kept(version, max_from),
                spec_range_values(
                    self.kept(version, max_from),
                    source.len() as int,
                    |i: int|
                        spec_window_sum_at(
                            self.sum_seed(version, max_from),
                            source,
                            self.kept(version, max_from),
                            i,
                            window as int,
                        ) as u64,
                ),
            ) == Seq::new(
                source.len(),
                |i: int| Some(spec_seq_sum(source, window_lo(i, window as int), i + 1) as u64),
            ),
    {
        let base = self.base_values(version);
        let kept = self.kept(version, max_from);
        let seed = self.sum_seed(version, max_from);
        let f = |i: int| spec_window_sum_at(seed, source, kept, i, window as int) as u64;
        let new = spec_range_values(kept, source.len() as int, f);
        let full = Seq::new(
            source.len(),
            |i: int| Some(spec_seq_sum(source, window_lo(i, window as int), i + 1) as u64),
        );
        if new.len() > 0 {
            if kept > 0 {
                let j = kept - 1;
                assert(base[j] == Some(spec_seq_sum(source, window_lo(j, window as int), j + 1) as u64));
                assert(spec_seq_sum(source, window_lo(j, window as int), j + 1) <= u64::MAX);
                lemma_seq_sum_nonneg(source, window_lo(j, window as int), j + 1);
                assert(seed == spec_seq_sum(source, window_lo(j, window as int), j + 1));
            }
            assert(seed == spec_seq_sum(
                source,
                if kept >= window { kept - window } else { 0 },
                kept,
            ));
            assert forall|i: int| 0 <= i < source.len() implies #[trigger] spec_replaced(base, kept, new)[i]
                == full[i] by {
                if i >= kept {
                    lemma_replaced_at(base, kept, new, i);
                    lemma_window_sum_is_sum(seed, source, kept, i, window as int);
                }
            }
            assert(spec_replaced(base, kept, new) =~= full);
        } else {
            assert(base =~= full);
        }
    }
}

} // verus!
