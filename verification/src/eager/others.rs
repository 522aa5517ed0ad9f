use vstd::prelude::*;

use crate::eager::{EagerVec, spec_range_values, spec_replaced, vsum, vsum_all};
use crate::error::Error;
use crate::version::Version;

verus! {

/// The values of each source vector.
pub open spec fn views(others: Seq<Vec<u64>>) -> Seq<Seq<u64>> {
    others.map_values(|v: Vec<u64>| v@)
}

/// `others[0][i] + ... + others[m - 1][i]`.
pub open spec fn spec_sum_at(others: Seq<Seq<u64>>, i: int, m: int) -> int
    decreases m,
{
    if m <= 1 {
        others[0][i] as int
    } else {
        spec_sum_at(others, i, m - 1) + others[m - 1][i]
    }
}

/// The smallest of `others[0][i], ..., others[m - 1][i]`.
pub open spec fn spec_min_at(others: Seq<Seq<u64>>, i: int, m: int) -> u64
    decreases m,
{
    if m <= 1 {
        others[0][i]
    } else {
        let p = spec_min_at(others, i, m - 1);
        if p <= others[m - 1][i] {
            p
        } else {
            others[m - 1][i]
        }
    }
}

/// The largest of `others[0][i], ..., others[m - 1][i]`.
pub open spec fn spec_max_at(others: Seq<Seq<u64>>, i: int, m: int) -> u64
    decreases m,
{
    if m <= 1 {
        others[0][i]
    } else {
        let p = spec_max_at(others, i, m - 1);
        if p >= others[m - 1][i] {
            p
        } else {
            others[m - 1][i]
        }
    }
}

/// Partial sums grow with the number of vectors summed.
proof fn lemma_sum_at_grows(others: Seq<Seq<u64>>, i: int, j: int, m: int)
    requires
        1 <= j <= m,
    ensures
        spec_sum_at(others, i, j) <= spec_sum_at(others, i, m),
    decreases m - j,
{
    if j < m {
        lemma_sum_at_grows(others, i, j, m - 1);
    }
}

/// Which of the sum, the smallest or the largest a reduction of vectors
/// computes.
pub open spec fn spec_reduce_at(others: Seq<Seq<u64>>, i: int, m: int, kind: u8) -> u64 {
    if kind == 0 {
        spec_sum_at(others, i, m) as u64
    } else if kind == 1 {
        spec_min_at(others, i, m)
    } else {
        spec_max_at(others, i, m)
    }
}

/// The sum (`kind` 0), the smallest (1) or the largest (2) of the values
/// at `i` of every vector.
fn reduce_at(others: &[Vec<u64>], i: usize, kind: u8) -> (r: u64)
    requires
        others@.len() >= 1,
        forall|j: int| 0 <= j < others@.len() ==> i < (#[trigger] others@[j])@.len(),
        kind == 0 ==> spec_sum_at(views(others@), i as int, others@.len() as int) <= u64::MAX,
    ensures
        r == spec_reduce_at(views(others@), i as int, others@.len() as int, kind),
{
    let ghost o = views(others@);
    let m = others.len();
    let mut acc = others[0][i];
    let mut j: usize = 1;
    assert(o[0] == others@[0]@);
    while j < m
        invariant
            1 <= j <= m,
            m == others@.len(),
            o == views(others@),
            forall|k: int| 0 <= k < others@.len() ==> i < (#[trigger] others@[k])@.len(),
            kind == 0 ==> spec_sum_at(o, i as int, m as int) <= u64::MAX,
            acc == spec_reduce_at(o, i as int, j as int, kind),
            kind == 0 ==> acc == spec_sum_at(o, i as int, j as int),
        decreases m - j,
    {
        let v = others[j][i];
        assert(o[j as int] == others@[j as int]@);
        if kind == 0 {
            proof {
                lemma_sum_at_grows(o, i as int, (j + 1) as int, m as int);
            }
            acc = acc + v;
        } else if kind == 1 {
            if v < acc {
                acc = v;
            }
        } else {
            if v > acc {
                acc = v;
            }
        }
        j = j + 1;
    }
    acc
}

/// The sum of the versions, from zero.
fn sum_versions(versions: &[Version]) -> (r: Version)
    ensures
        r == vsum_all(Version(0), versions@),
{
    let mut total = Version::zero();
    let mut j: usize = 0;
    while j < versions.len()
        invariant
            j <= versions@.len(),
            total == vsum_all(Version(0), versions@.take(j as int)),
        decreases versions@.len() - j,
    {
        total = total.plus(versions[j]);
        j = j + 1;
        assert(versions@.take(j as int).drop_last() =~= versions@.take((j - 1) as int));
    }
    assert(versions@.take(versions@.len() as int) =~= versions@);
    total
}

impl EagerVec {
    /// The version of a computation from the vectors whose versions are
    /// `versions`.
    pub open spec fn version_of_others(&self, versions: Seq<Version>) -> Version {
        vsum(vsum(Version(0), self.inner_version_view()), vsum_all(Version(0), versions))
    }

    /// The values of the first vector are reduced with those of the others
    /// at the same index.
    fn compute_reduce_others(&mut self, max_from: usize, others: &[Vec<u64>], versions: &[Version], kind: u8) -> (r: Result<(), Error>)
        requires
            old(self).wf(),
            others@.len() >= 1,
            others@[0]@.len() <= old(self).capacity(),
            ({
                let kept = old(self).kept(old(self).version_of_others(versions@), max_from);
                let n = others@[0]@.len();
                &&& kept < n ==> forall|j: int| 0 <= j < others@.len() ==> (#[trigger] others@[j])@.len() >= n
                &&& kind == 0 ==> forall|i: int| kept <= i < n ==> #[trigger] spec_sum_at(views(others@), i, others@.len() as int) <= u64::MAX
            }),
        ensures
            ({
                let v = old(self).version_of_others(versions@);
                let kept = old(self).kept(v, max_from);
                &&& final(self).wf()
                &&& final(self).computed_version_view() == v
                &&& final(self).values() == spec_replaced(
                    old(self).base_values(v),
                    kept,
                    spec_range_values(kept, others@[0]@.len() as int, |i: int| spec_reduce_at(views(others@), i, others@.len() as int, kind)),
                )
            }),
            old(self).format_view() is Raw ==> r is Ok,
    {
        let total = sum_versions(versions);
        let version = Version::zero().plus(self.inner_version()).plus(total);
        let ghost kept = self.kept(version, max_from);
        let to = others[0].len();
        let f = |i: usize| -> (x: u64)
            requires
                kept <= i < to,
                to == others@[0]@.len(),
                others@.len() >= 1,
                kept < to ==> forall|j: int| 0 <= j < others@.len() ==> (#[trigger] others@[j])@.len() >= to,
                kind == 0 ==> spec_sum_at(views(others@), i as int, others@.len() as int) <= u64::MAX,
            ensures
                x == spec_reduce_at(views(others@), i as int, others@.len() as int, kind),
            { reduce_at(others, i, kind) };
        self.compute_exact(version, max_from, to, f, Ghost(|i: int| spec_reduce_at(views(others@), i, others@.len() as int, kind)))
    }

    /// Value `i` becomes the sum of the values at `i` of every vector of
    /// `others`, whose versions are `versions`. There must be at least one
    /// vector, and the others must be at least as long as the first.
    pub fn compute_sum_of_others(&mut self, max_from: usize, others: &[Vec<u64>], versions: &[Version]) -> (r: Result<(), Error>)
        requires
            old(self).wf(),
            others@.len() >= 1,
            others@[0]@.len() <= old(self).capacity(),
            ({
                let kept = old(self).kept(old(self).version_of_others(versions@), max_from);
                let n = others@[0]@.len();
                &&& kept < n ==> forall|j: int| 0 <= j < others@.len() ==> (#[trigger] others@[j])@.len() >= n
                &&& forall|i: int| kept <= i < n ==> #[trigger] spec_sum_at(views(others@), i, others@.len() as int) <= u64::MAX
            }),
        ensures
            ({
                let v = old(self).version_of_others(versions@);
                let kept = old(self).kept(v, max_from);
                &&& final(self).wf()
                &&& final(self).computed_version_view() == v
                &&& final(self).values() == spec_replaced(
                    old(self).base_values(v),
                    kept,
                    spec_range_values(kept, others@[0]@.len() as int, |i: int| spec_sum_at(views(others@), i, others@.len() as int) as u64),
                )
            }),
            old(self).format_view() is Raw ==> r is Ok,
    {
        let r = self.compute_reduce_others(max_from, others, versions, 0);
        proof {
            let v = old(self).version_of_others(versions@);
            let kept = old(self).kept(v, max_from);
            assert(spec_range_values(kept, others@[0]@.len() as int, |i: int| spec_reduce_at(views(others@), i, others@.len() as int, 0))
                =~= spec_range_values(kept, others@[0]@.len() as int, |i: int| spec_sum_at(views(others@), i, others@.len() as int) as u64));
        }
        r
    }

    /// Value `i` becomes the smallest of the values at `i` of every vector of
    /// `others`.
    pub fn compute_min_of_others(&mut self, max_from: usize, others: &[Vec<u64>], versions: &[Version]) -> (r: Result<(), Error>)
        requires
            old(self).wf(),
            others@.len() >= 1,
            others@[0]@.len() <= old(self).capacity(),
            ({
                let kept = old(self).kept(old(self).version_of_others(versions@), max_from);
                let n = others@[0]@.len();
                kept < n ==> forall|j: int| 0 <= j < others@.len() ==> (#[trigger] others@[j])@.len() >= n
            }),
        ensures
            ({
                let v = old(self).version_of_others(versions@);
                let kept = old(self).kept(v, max_from);
                &&& final(self).wf()
                &&& final(self).computed_version_view() == v
                &&& final(self).values() == spec_replaced(
                    old(self).base_values(v),
                    kept,
                    spec_range_values(kept, others@[0]@.len() as int, |i: int| spec_min_at(views(others@), i, others@.len() as int)),
                )
            }),
            old(self).format_view() is Raw ==> r is Ok,
    {
        let r = self.compute_reduce_others(max_from, others, versions, 1);
        proof {
            let v = old(self).version_of_others(versions@);
            let kept = old(self).kept(v, max_from);
            assert(spec_range_values(kept, others@[0]@.len() as int, |i: int| spec_reduce_at(views(others@), i, others@.len() as int, 1))
                =~= spec_range_values(kept, others@[0]@.len() as int, |i: int| spec_min_at(views(others@), i, others@.len() as int)));
        }
        r
    }

    /// Value `i` becomes the largest of the values at `i` of every vector of
    /// `others`.
    pub fn compute_max_of_others(&mut self, max_from: usize, others: &[Vec<u64>], versions: &[Version]) -> (r: Result<(), Error>)
        requires
            old(self).wf(),
            others@.len() >= 1,
            others@[0]@.len() <= old(self).capacity(),
            ({
                let kept = old(self).kept(old(self).version_of_others(versions@), max_from);
                let n = others@[0]@.len();
                kept < n ==> forall|j: int| 0 <= j < others@.len() ==> (#[trigger] others@[j])@.len() >= n
            }),
        ensures
            ({
                let v = old(self).version_of_others(versions@);
                let kept = old(self).kept(v, max_from);
                &&& final(self).wf()
                &&& final(self).computed_version_view() == v
                &&& final(self).values() == spec_replaced(
                    old(self).base_values(v),
                    kept,
                    spec_range_values(kept, others@[0]@.len() as int, |i: int| spec_max_at(views(others@), i, others@.len() as int)),
                )
            }),
            old(self).format_view() is Raw ==> r is Ok,
    {
        let r = self.compute_reduce_others(max_from, others, versions, 2);
        proof {
            let v = old(self).version_of_others(versions@);
            let kept = old(self).kept(v, max_from);
            assert(spec_range_values(kept, others@[0]@.len() as int, |i: int| spec_reduce_at(views(others@), i, others@.len() as int, 2))
                =~= spec_range_values(kept, others@[0]@.len() as int, |i: int| spec_max_at(views(others@), i, others@.len() as int)));
        }
        r
    }

    /// Value `i` becomes `source[i]` less the value `len` places before it
    /// (zero for the first `len` values); the change must not be negative.
    pub fn compute_change(&mut self, max_from: usize, source: &[u64], source_version: Version, len: usize) -> (r: Result<(), Error>)
        requires
            old(self).wf(),
            source@.len() <= old(self).capacity(),
            forall|i: int|
                old(self).kept(old(self).version1(0, source_version), max_from) <= i < source@.len() && i >= len
                    ==> #[trigger] source@[i] >= source@[i - len],
        ensures
            ({
                let v = old(self).version1(0, source_version);
                let kept = old(self).kept(v, max_from);
                &&& final(self).wf()
                &&& final(self).computed_version_view() == v
                &&& final(self).values() == spec_replaced(
                    old(self).base_values(v),
                    kept,
                    spec_range_values(
                        kept,
                        source@.len() as int,
                        |i: int| if i >= len { (source@[i] - source@[i - len]) as u64 } else { source@[i] },
                    ),
                )
            }),
            old(self).format_view() is Raw ==> r is Ok,
    {
        let version = Version::zero().plus(self.inner_version()).plus(source_version);
        let ghost kept = self.kept(version, max_from);
        let to = source.len();
        let f = |i: usize| -> (x: u64)
            requires
                kept <= i < to,
                to == source@.len(),
                i >= len ==> source@[i as int] >= source@[i - len],
            ensures
                x == if i >= len { (source@[i as int] - source@[i - len]) as u64 } else { source@[i as int] },
            {
                if i >= len {
                    source[i] - source[i - len]
                } else {
                    source[i]
                }
            };
        assert forall|i: usize| kept <= i < to implies call_requires(f, (i,)) by {
            if i >= len {
                assert(source@[i as int] >= source@[i - len]);
            }
        }
        self.compute_exact(
            version,
            max_from,
            to,
            f,
            Ghost(|i: int| if i >= len { (source@[i] - source@[i - len]) as u64 } else { source@[i] }),
        )
    }

    /// Value `i` becomes 1 when `other_to_self` maps `self_to_other[i]` back
    /// to `i`, 0 otherwise.
    pub fn compute_is_first_ordered(
        &mut self,
        max_from: usize,
        self_to_other: &[u64],
        self_to_other_version: Version,
        other_to_self: &[u64],
        other_to_self_version: Version,
    ) -> (r: Result<(), Error>)
        requires
            old(self).wf(),
            self_to_other@.len() <= old(self).capacity(),
            forall|i: int|
                old(self).kept(old(self).version2(0, self_to_other_version, other_to_self_version), max_from) <= i
                    < self_to_other@.len() ==> #[trigger] self_to_other@[i] < other_to_self@.len(),
        ensures
            ({
                let v = old(self).version2(0, self_to_other_version, other_to_self_version);
                let kept = old(self).kept(v, max_from);
                &&& final(self).wf()
                &&& final(self).computed_version_view() == v
                &&& final(self).values() == spec_replaced(
                    old(self).base_values(v),
                    kept,
                    spec_range_values(
                        kept,
                        self_to_other@.len() as int,
                        |i: int| if other_to_self@[self_to_other@[i] as int] == i { 1u64 } else { 0u64 },
                    ),
                )
            }),
            old(self).format_view() is Raw ==> r is Ok,
    {
        let version = Version::zero().plus(self.inner_version()).plus(self_to_other_version).plus(other_to_self_version);
        let ghost kept = self.kept(version, max_from);
        let to = self_to_other.len();
        let f = |i: usize| -> (x: u64)
            requires
                kept <= i < to,
                to == self_to_other@.len(),
                self_to_other@[i as int] < other_to_self@.len(),
            ensures
                x == if other_to_self@[self_to_other@[i as int] as int] == i { 1u64 } else { 0u64 },
            {
                let other = self_to_other[i] as usize;
                if other_to_self[other] == i as u64 {
                    1
                } else {
                    0
                }
            };
        assert forall|i: usize| kept <= i < to implies call_requires(f, (i,)) by {
            assert(self_to_other@[i as int] < other_to_self@.len());
        }
        self.compute_exact(
            version,
            max_from,
            to,
            f,
            Ghost(|i: int| if other_to_self@[self_to_other@[i] as int] == i { 1u64 } else { 0u64 }),
        )
    }
}

} // verus!
