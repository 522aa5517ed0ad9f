use vstd::prelude::*;

use crate::eager::{EagerVec, spec_replaced};
use crate::error::Error;
use crate::version::Version;

verus! {

/// The largest of `seed` and `src[from..i]`.
pub open spec fn spec_running_max(seed: u64, src: Seq<u64>, from: int, i: int) -> u64
    decreases i - from,
{
    if i <= from {
        seed
    } else {
        let p = spec_running_max(seed, src, from, i - 1);
        if p >= src[i - 1] {
            p
        } else {
            src[i - 1]
        }
    }
}

/// The largest of `src[0..i]`, for `i >= 1`.
pub open spec fn spec_prefix_max(src: Seq<u64>, i: int) -> u64
    decreases i,
{
    if i <= 1 {
        src[0]
    } else {
        let p = spec_prefix_max(src, i - 1);
        if p >= src[i - 1] {
            p
        } else {
            src[i - 1]
        }
    }
}

/// What a minimum kept across values becomes after value `v`: the smaller
/// of the two, except that when zeros are excluded and the smaller is zero,
/// the larger is kept instead.
pub open spec fn spec_low_next(prev: u64, v: u64, exclude_default: bool) -> u64 {
    let min = if prev <= v {
        prev
    } else {
        v
    };
    if !exclude_default || min != 0 {
        min
    } else if prev >= v {
        prev
    } else {
        v
    }
}

/// The minimum kept before value `i`, starting at `seed` before value
/// `from`.
pub open spec fn spec_low_state(seed: u64, src: Seq<u64>, from: int, i: int, exclude_default: bool) -> u64
    decreases i - from,
{
    if i <= from {
        seed
    } else {
        spec_low_next(spec_low_state(seed, src, from, i - 1, exclude_default), src[i - 1], exclude_default)
    }
}

/// The value written at `i`: the smaller of the kept minimum and `src[i]`.
pub open spec fn spec_low_at(seed: u64, src: Seq<u64>, from: int, i: int, exclude_default: bool) -> u64 {
    let p = spec_low_state(seed, src, from, i, exclude_default);
    if p <= src[i] {
        p
    } else {
        src[i]
    }
}

/// The smallest of `src[0..i]`, for `i >= 1`.
pub open spec fn spec_prefix_min(src: Seq<u64>, i: int) -> u64
    decreases i,
{
    if i <= 1 {
        src[0]
    } else {
        let p = spec_prefix_min(src, i - 1);
        if p <= src[i - 1] {
            p
        } else {
            src[i - 1]
        }
    }
}

/// Starting from the largest of the values before `from` (or from the first
/// value, when `from` is zero), the running maximum at each later index is
/// the largest value up to there.
pub proof fn lemma_running_max_is_prefix_max(seed: u64, src: Seq<u64>, from: int, i: int)
    requires
        0 <= from < i <= src.len(),
        from == 0 ==> seed == src[0],
        from > 0 ==> seed == spec_prefix_max(src, from),
    ensures
        spec_running_max(seed, src, from, i) == spec_prefix_max(src, i),
    decreases i - from,
{
    reveal_with_fuel(spec_running_max, 2);
    reveal_with_fuel(spec_prefix_max, 2);
    if i - 1 > from {
        lemma_running_max_is_prefix_max(seed, src, from, i - 1);
    }
}

/// Without zeros excluded, the minimum kept is the running minimum, and the
/// value written at each index is the smallest value up to there when it
/// starts from the smallest of the values before `from` (or the first value).
pub proof fn lemma_running_min_is_prefix_min(seed: u64, src: Seq<u64>, from: int, i: int)
    requires
        0 <= from <= i < src.len(),
        from == 0 ==> seed == src[0],
        from > 0 ==> seed == spec_prefix_min(src, from),
    ensures
        spec_low_at(seed, src, from, i, false) == spec_prefix_min(src, i + 1),
    decreases i - from,
{
    reveal_with_fuel(spec_low_state, 2);
    reveal_with_fuel(spec_prefix_min, 2);
    if i > from {
        lemma_running_min_is_prefix_min(seed, src, from, i - 1);
    }
}

/// `m` is the smallest value of `src[0..i]` that is not zero: it is one of
/// them, and no value there but zero is smaller.
pub open spec fn is_least_nonzero(src: Seq<u64>, i: int, m: u64) -> bool {
    &&& m != 0
    &&& exists|j: int| 0 <= j < i && #[trigger] src[j] == m
    &&& forall|j: int| 0 <= j < i && #[trigger] src[j] != 0 ==> m <= src[j]
}

/// With zeros excluded and starting from the first value, the minimum kept
/// before `i > 0` is the smallest value of `src[0..i]` that is not zero, or
/// zero when every one of them is zero.
proof fn lemma_low_state_excluding_zeros(src: Seq<u64>, i: int)
    requires
        0 < i <= src.len(),
    ensures
        (forall|j: int| 0 <= j < i ==> #[trigger] src[j] == 0) ==> spec_low_state(
            src[0],
            src,
            0,
            i,
            true,
        ) == 0,
        (exists|j: int| 0 <= j < i && #[trigger] src[j] != 0) ==> is_least_nonzero(
            src,
            i,
            spec_low_state(src[0], src, 0, i, true),
        ),
    decreases i,
{
    reveal_with_fuel(spec_low_state, 2);
    let s = spec_low_state(src[0], src, 0, i, true);
    if i == 1 {
        assert(spec_low_state(src[0], src, 0, 0, true) == src[0]);
        if src[0] != 0 {
            assert(src[0] == s);
        }
    } else {
        lemma_low_state_excluding_zeros(src, i - 1);
        let p = spec_low_state(src[0], src, 0, i - 1, true);
        let v = src[i - 1];
        if forall|j: int| 0 <= j < i - 1 ==> #[trigger] src[j] == 0 {
            assert(p == 0);
            if v != 0 {
                assert(s == v);
                assert forall|j: int| 0 <= j < i && #[trigger] src[j] != 0 implies s <= src[j] by {
                    if j < i - 1 {
                        assert(src[j] == 0);
                    }
                }
            }
        } else {
            let w = choose|j: int| 0 <= j < i - 1 && #[trigger] src[j] != 0;
            assert(is_least_nonzero(src, i - 1, p));
            let jp = choose|j: int| 0 <= j < i - 1 && #[trigger] src[j] == p;
            if v == 0 || p <= v {
                assert(s == p);
                assert(src[jp] == s);
            } else {
                assert(s == v);
                assert(src[i - 1] == s);
            }
            assert forall|j: int| 0 <= j < i && #[trigger] src[j] != 0 implies s <= src[j] by {
                if j < i - 1 {
                    assert(p <= src[j]);
                }
            }
        }
    }
}

/// The all-time low with zeros excluded, computed from the first value: a
/// zero is written as zero; the first value is written as it is; a later
/// value is written as zero while every value before it was zero, and
/// otherwise as the smallest value up to it that is not zero. So once a
/// value other than zero has been seen, the minimum carried on is never zero.
pub proof fn lemma_all_time_low_excluding_zeros(src: Seq<u64>, i: int)
    requires
        0 <= i < src.len(),
    ensures
        src[i] == 0 ==> spec_low_at(src[0], src, 0, i, true) == 0,
        i == 0 ==> spec_low_at(src[0], src, 0, i, true) == src[0],
        i > 0 && (forall|j: int| 0 <= j < i ==> #[trigger] src[j] == 0) ==> spec_low_at(
            src[0],
            src,
            0,
            i,
            true,
        ) == 0,
        src[i] != 0 && (exists|j: int| 0 <= j < i && #[trigger] src[j] != 0) ==> is_least_nonzero(
            src,
            i + 1,
            spec_low_at(src[0], src, 0, i, true),
        ),
{
    let w = spec_low_at(src[0], src, 0, i, true);
    if i == 0 {
        assert(spec_low_state(src[0], src, 0, 0, true) == src[0]);
    } else {
        lemma_low_state_excluding_zeros(src, i);
        let p = spec_low_state(src[0], src, 0, i, true);
        if src[i] != 0 && exists|j: int| 0 <= j < i && #[trigger] src[j] != 0 {
            assert(is_least_nonzero(src, i, p));
            let jp = choose|j: int| 0 <= j < i && #[trigger] src[j] == p;
            if p <= src[i] {
                assert(w == p);
                assert(src[jp] == w);
            } else {
                assert(w == src[i]);
                assert(src[i] == w);
            }
            assert forall|j: int| 0 <= j < i + 1 && #[trigger] src[j] != 0 implies w <= src[j] by {
                if j < i {
                    assert(p <= src[j]);
                }
            }
        }
    }
}

/// Carrying an all-time low on from `seed` before `from` gives, at each
/// later index, what a computation from scratch gives on the source with
/// `seed` put before `src[from..]`: resuming behaves as if the seed were the
/// first value.
pub proof fn lemma_low_resumed_is_fresh(seed: u64, src: Seq<u64>, from: int, i: int, exclude_default: bool)
    requires
        0 <= from <= i < src.len(),
    ensures
        ({
            let t = seq![seed] + src.subrange(from, src.len() as int);
            &&& spec_low_state(seed, src, from, i, exclude_default) == spec_low_state(
                t[0],
                t,
                0,
                i - from + 1,
                exclude_default,
            )
            &&& spec_low_at(seed, src, from, i, exclude_default) == spec_low_at(
                t[0],
                t,
                0,
                i - from + 1,
                exclude_default,
            )
        }),
    decreases i - from,
{
    let t = seq![seed] + src.subrange(from, src.len() as int);
    reveal_with_fuel(spec_low_state, 2);
    assert(t[i - from + 1] == src[i]);
    if i > from {
        lemma_low_resumed_is_fresh(seed, src, from, i - 1, exclude_default);
        assert(t[i - from] == src[i - 1]);
    } else {
        assert(t[0] == seed);
    }
}

impl EagerVec {
    /// The value a running computation starts from: the last kept value, or
    /// the first source value when nothing is kept.
    pub open spec fn running_seed(&self, version: Version, max_from: usize, src: Seq<u64>) -> u64 {
        let kept = self.kept(version, max_from);
        if kept > 0 {
            self.base_values(version)[kept - 1]->0
        } else {
            src[0]
        }
    }

    /// The last kept value cannot be read.
    pub open spec fn seed_unreadable(&self, version: Version, max_from: usize, n: int) -> bool {
        let kept = self.kept(version, max_from);
        kept < n && kept > 0 && !self.readable(kept - 1)
    }

    /// Value `i` becomes the largest source value up to `i`, carried on from
    /// the last kept value.
    pub fn compute_all_time_high(&mut self, max_from: usize, source: &[u64], source_version: Version) -> (r: Result<(), Error>)
        requires
            old(self).wf(),
            source@.len() <= old(self).capacity(),
        ensures
            ({
                let v = old(self).version1(0, source_version);
                let kept = old(self).kept(v, max_from);
                let seed = old(self).running_seed(v, max_from, source@);
                &&& final(self).wf()
                &&& final(self).computed_version_view() == v
                &&& old(self).seed_unreadable(v, max_from, source@.len() as int) ==> r == Err::<(), Error>(Error::Decompression)
                    && final(self).values() == old(self).base_values(v)
                &&& !old(self).seed_unreadable(v, max_from, source@.len() as int) ==> final(self).values() == spec_replaced(
                    old(self).base_values(v),
                    kept,
                    Seq::new(
                        (if kept < source@.len() { source@.len() - kept } else { 0 }) as nat,
                        |k: int| spec_running_max(seed, source@, kept, kept + k + 1),
                    ),
                ) && (old(self).format_view() is Raw ==> r is Ok)
            }),
    {
        let version = Version::zero().plus(self.inner_version()).plus(source_version);
        let ghost base = self.base_values(version);
        let ghost old_self = *self;
        let kept = self.begin(version, max_from);
        let n = source.len();
        let mut new: Vec<u64> = Vec::new();
        if kept < n {
            let mut prev = if kept > 0 {
                match self.value(kept - 1) {
                    Ok(v) => v,
                    Err(e) => {
                        return Err(e);
                    },
                }
            } else {
                source[0]
            };
            let ghost seed = prev;
            assert(seed == old_self.running_seed(version, max_from, source@));
            let mut i = kept;
            while i < n
                invariant
                    kept <= i <= n,
                    n == source@.len(),
                    prev == spec_running_max(seed, source@, kept as int, i as int),
                    new@ =~= Seq::new((i - kept) as nat, |k: int| spec_running_max(seed, source@, kept as int, kept + k + 1)),
                decreases n - i,
            {
                if source[i] > prev {
                    prev = source[i];
                }
                new.push(prev);
                i = i + 1;
            }
        }
        self.finish(kept, new)
    }

    /// Value `i` becomes the smallest source value up to `i`, carried on
    /// from the last kept value, except that when `exclude_default` is set a
    /// zero does not become the minimum carried on (it is still written).
    pub fn compute_all_time_low_(&mut self, max_from: usize, source: &[u64], source_version: Version, exclude_default: bool) -> (r: Result<(), Error>)
        requires
            old(self).wf(),
            source@.len() <= old(self).capacity(),
        ensures
            ({
                let v = old(self).version1(0, source_version);
                let kept = old(self).kept(v, max_from);
                let seed = old(self).running_seed(v, max_from, source@);
                &&& final(self).wf()
                &&& final(self).computed_version_view() == v
                &&& old(self).seed_unreadable(v, max_from, source@.len() as int) ==> r == Err::<(), Error>(Error::Decompression)
                    && final(self).values() == old(self).base_values(v)
                &&& !old(self).seed_unreadable(v, max_from, source@.len() as int) ==> final(self).values() == spec_replaced(
                    old(self).base_values(v),
                    kept,
                    Seq::new(
                        (if kept < source@.len() { source@.len() - kept } else { 0 }) as nat,
                        |k: int| spec_low_at(seed, source@, kept, kept + k, exclude_default),
                    ),
                ) && (old(self).format_view() is Raw ==> r is Ok)
            }),
    {
        let version = Version::zero().plus(self.inner_version()).plus(source_version);
        let ghost old_self = *self;
        let kept = self.begin(version, max_from);
        let n = source.len();
        let mut new: Vec<u64> = Vec::new();
        if kept < n {
            let mut prev = if kept > 0 {
                match self.value(kept - 1) {
                    Ok(v) => v,
                    Err(e) => {
                        return Err(e);
                    },
                }
            } else {
                source[0]
            };
            let ghost seed = prev;
            assert(seed == old_self.running_seed(version, max_from, source@));
            let mut i = kept;
            while i < n
                invariant
                    kept <= i <= n,
                    n == source@.len(),
                    prev == spec_low_state(seed, source@, kept as int, i as int, exclude_default),
                    new@ =~= Seq::new((i - kept) as nat, |k: int| spec_low_at(seed, source@, kept as int, kept + k, exclude_default)),
                decreases n - i,
            {
                let v = source[i];
                let min = if prev <= v {
                    prev
                } else {
                    v
                };
                prev = if !exclude_default || min != 0 {
                    min
                } else if prev >= v {
                    prev
                } else {
                    v
                };
                new.push(min);
                i = i + 1;
            }
        }
        self.finish(kept, new)
    }

    /// Value `i` becomes the smallest source value up to `i`, carried on
    /// from the last kept value.
    pub fn compute_all_time_low(&mut self, max_from: usize, source: &[u64], source_version: Version) -> (r: Result<(), Error>)
        requires
            old(self).wf(),
            source@.len() <= old(self).capacity(),
        ensures
            ({
                let v = old(self).version1(0, source_version);
                let kept = old(self).kept(v, max_from);
                let seed = old(self).running_seed(v, max_from, source@);
                &&& final(self).wf()
                &&& final(self).computed_version_view() == v
                &&& old(self).seed_unreadable(v, max_from, source@.len() as int) ==> r == Err::<(), Error>(Error::Decompression)
                    && final(self).values() == old(self).base_values(v)
                &&& !old(self).seed_unreadable(v, max_from, source@.len() as int) ==> final(self).values() == spec_replaced(
                    old(self).base_values(v),
                    kept,
                    Seq::new(
                        (if kept < source@.len() { source@.len() - kept } else { 0 }) as nat,
                        |k: int| spec_low_at(seed, source@, kept, kept + k, false),
                    ),
                ) && (old(self).format_view() is Raw ==> r is Ok)
            }),
    {
        self.compute_all_time_low_(max_from, source, source_version, false)
    }
}

} // verus!
