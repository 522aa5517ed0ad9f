use vstd::prelude::*;

use crate::eager::{EagerVec, spec_range_values, spec_replaced, vsum, vsum_all};
use crate::error::Error;
use crate::version::Version;

verus! {

/// The value of `divided / divider`, first multiplied by 100 when asked for
/// a percentage, then less the multiplier (100 or 1) when asked for a
/// difference.
pub open spec fn spec_ratio(divided: u64, divider: u64, as_percentage: bool, as_difference: bool) -> int {
    let multiplier: int = if as_percentage { 100 } else { 1 };
    let v = divided * multiplier / divider as int;
    if as_difference {
        v - multiplier
    } else {
        v
    }
}

impl EagerVec {
    /// The version of a computation from one source: the vector's own plus
    /// the source's, on top of `base`.
    pub open spec fn version1(&self, base: u64, a: Version) -> Version {
        vsum(vsum(Version(base), self.inner_version_view()), a)
    }

    /// The version of a computation from two sources.
    pub open spec fn version2(&self, base: u64, a: Version, b: Version) -> Version {
        vsum(self.version1(base, a), b)
    }

    /// Value `i` becomes `added[i] + adder[i]`.
    pub fn compute_add(
        &mut self,
        max_from: usize,
        added: &[u64],
        added_version: Version,
        adder: &[u64],
        adder_version: Version,
    ) -> (r: Result<(), Error>)
        requires
            old(self).wf(),
            added@.len() <= old(self).capacity(),
            ({
                let kept = old(self).kept(old(self).version2(0, added_version, adder_version), max_from);
                &&& kept < added@.len() ==> adder@.len() >= added@.len()
                &&& forall|i: int| kept <= i < added@.len() ==> #[trigger] added@[i] + adder@[i] <= u64::MAX
            }),
        ensures
            ({
                let v = old(self).version2(0, added_version, adder_version);
                let kept = old(self).kept(v, max_from);
                &&& final(self).wf()
                &&& final(self).computed_version_view() == v
                &&& final(self).values() == spec_replaced(
                    old(self).base_values(v),
                    kept,
                    spec_range_values(kept, added@.len() as int, |i: int| (added@[i] + adder@[i]) as u64),
                )
            }),
            old(self).format_view() is Raw ==> r is Ok,
    {
        let version = Version::zero().plus(self.inner_version()).plus(added_version).plus(adder_version);
        let ghost kept = self.kept(version, max_from);
        let to = added.len();
        let f = |i: usize| -> (x: u64)
            requires
                kept <= i < to,
                to == added@.len(),
                kept < added@.len() ==> adder@.len() >= added@.len(),
                added@[i as int] + adder@[i as int] <= u64::MAX,
            ensures
                x == added@[i as int] + adder@[i as int],
            { added[i] + adder[i] };
        self.compute_exact(version, max_from, to, f, Ghost(|i: int| (added@[i] + adder@[i]) as u64))
    }

    /// Value `i` becomes `subtracted[i] - subtracter[i]`, which must not be
    /// negative.
    pub fn compute_subtract(
        &mut self,
        max_from: usize,
        subtracted: &[u64],
        subtracted_version: Version,
        subtracter: &[u64],
        subtracter_version: Version,
    ) -> (r: Result<(), Error>)
        requires
            old(self).wf(),
            subtracted@.len() <= old(self).capacity(),
            ({
                let kept = old(self).kept(old(self).version2(0, subtracted_version, subtracter_version), max_from);
                &&& kept < subtracted@.len() ==> subtracter@.len() >= subtracted@.len()
                &&& forall|i: int| kept <= i < subtracted@.len() ==> #[trigger] subtracted@[i] >= subtracter@[i]
            }),
        ensures
            ({
                let v = old(self).version2(0, subtracted_version, subtracter_version);
                let kept = old(self).kept(v, max_from);
                &&& final(self).wf()
                &&& final(self).computed_version_view() == v
                &&& final(self).values() == spec_replaced(
                    old(self).base_values(v),
                    kept,
                    spec_range_values(kept, subtracted@.len() as int, |i: int| (subtracted@[i] - subtracter@[i]) as u64),
                )
            }),
            old(self).format_view() is Raw ==> r is Ok,
    {
        let version = Version::zero().plus(self.inner_version()).plus(subtracted_version).plus(subtracter_version);
        let ghost kept = self.kept(version, max_from);
        let to = subtracted.len();
        let f = |i: usize| -> (x: u64)
            requires
                kept <= i < to,
                to == subtracted@.len(),
                kept < subtracted@.len() ==> subtracter@.len() >= subtracted@.len(),
                subtracted@[i as int] >= subtracter@[i as int],
            ensures
                x == subtracted@[i as int] - subtracter@[i as int],
            { subtracted[i] - subtracter[i] };
        self.compute_exact(version, max_from, to, f, Ghost(|i: int| (subtracted@[i] - subtracter@[i]) as u64))
    }

    /// Value `i` becomes `multiplied[i] * multiplier[i]`.
    pub fn compute_multiply(
        &mut self,
        max_from: usize,
        multiplied: &[u64],
        multiplied_version: Version,
        multiplier: &[u64],
        multiplier_version: Version,
    ) -> (r: Result<(), Error>)
        requires
            old(self).wf(),
            multiplied@.len() <= old(self).capacity(),
            ({
                let kept = old(self).kept(old(self).version2(0, multiplied_version, multiplier_version), max_from);
                &&& kept < multiplied@.len() ==> multiplier@.len() >= multiplied@.len()
                &&& forall|i: int| kept <= i < multiplied@.len() ==> #[trigger] multiplied@[i] * multiplier@[i] <= u64::MAX
            }),
        ensures
            ({
                let v = old(self).version2(0, multiplied_version, multiplier_version);
                let kept = old(self).kept(v, max_from);
                &&& final(self).wf()
                &&& final(self).computed_version_view() == v
                &&& final(self).values() == spec_replaced(
                    old(self).base_values(v),
                    kept,
                    spec_range_values(kept, multiplied@.len() as int, |i: int| (multiplied@[i] * multiplier@[i]) as u64),
                )
            }),
            old(self).format_view() is Raw ==> r is Ok,
    {
        let version = Version::zero().plus(self.inner_version()).plus(multiplied_version).plus(multiplier_version);
        let ghost kept = self.kept(version, max_from);
        let to = multiplied.len();
        let f = |i: usize| -> (x: u64)
            requires
                kept <= i < to,
                to == multiplied@.len(),
                kept < multiplied@.len() ==> multiplier@.len() >= multiplied@.len(),
                multiplied@[i as int] * multiplier@[i as int] <= u64::MAX,
            ensures
                x == multiplied@[i as int] * multiplier@[i as int],
            { multiplied[i] * multiplier[i] };
        self.compute_exact(version, max_from, to, f, Ghost(|i: int| (multiplied@[i] * multiplier@[i]) as u64))
    }

    /// Value `i` becomes `divided[i] / divider[i]` (integer division), first
    /// multiplied by 100 when `as_percentage`, then less the multiplier
    /// when `as_difference`. Dividers must not be zero, and the difference
    /// must not be negative.
    pub fn compute_divide_(
        &mut self,
        max_from: usize,
        divided: &[u64],
        divided_version: Version,
        divider: &[u64],
        divider_version: Version,
        as_percentage: bool,
        as_difference: bool,
    ) -> (r: Result<(), Error>)
        requires
            old(self).wf(),
            divided@.len() <= old(self).capacity(),
            ({
                let kept = old(self).kept(old(self).version2(1, divided_version, divider_version), max_from);
                &&& kept < divided@.len() ==> divider@.len() >= divided@.len()
                &&& forall|i: int| kept <= i < divided@.len() ==> #[trigger] divider@[i] != 0
                    && (as_percentage ==> divided@[i] * 100 <= u64::MAX)
                    && spec_ratio(divided@[i], divider@[i], as_percentage, as_difference) >= 0
            }),
        ensures
            ({
                let v = old(self).version2(1, divided_version, divider_version);
                let kept = old(self).kept(v, max_from);
                &&& final(self).wf()
                &&& final(self).computed_version_view() == v
                &&& final(self).values() == spec_replaced(
                    old(self).base_values(v),
                    kept,
                    spec_range_values(
                        kept,
                        divided@.len() as int,
                        |i: int| spec_ratio(divided@[i], divider@[i], as_percentage, as_difference) as u64,
                    ),
                )
            }),
            old(self).format_view() is Raw ==> r is Ok,
    {
        let version = Version::one().plus(self.inner_version()).plus(divided_version).plus(divider_version);
        assert(version == self.version2(1, divided_version, divider_version));
        let ghost kept = self.kept(version, max_from);
        assert(forall|i: int| kept <= i < divided@.len() ==> #[trigger] divider@[i] != 0
            && (as_percentage ==> divided@[i] * 100 <= u64::MAX)
            && spec_ratio(divided@[i], divider@[i], as_percentage, as_difference) >= 0);
        let to = divided.len();
        let f = |i: usize| -> (x: u64)
            requires
                kept <= i < to,
                to == divided@.len(),
                kept < divided@.len() ==> divider@.len() >= divided@.len(),
                divider@[i as int] != 0,
                as_percentage ==> divided@[i as int] * 100 <= u64::MAX,
                spec_ratio(divided@[i as int], divider@[i as int], as_percentage, as_difference) >= 0,
            ensures
                x == spec_ratio(divided@[i as int], divider@[i as int], as_percentage, as_difference),
            {
                let multiplier: u64 = if as_percentage {
                    100
                } else {
                    1
                };
                let v = divided[i] * multiplier;
                let v = v / divider[i];
                if as_difference {
                    v - multiplier
                } else {
                    v
                }
            };
        assert forall|i: usize| kept <= i < to implies call_requires(f, (i,)) by {
            assert(divider@[i as int] != 0);
        }
        self.compute_exact(
            version,
            max_from,
            to,
            f,
            Ghost(|i: int| spec_ratio(divided@[i], divider@[i], as_percentage, as_difference) as u64),
        )
    }

    /// Value `i` becomes `divided[i] / divider[i]`.
    pub fn compute_divide(
        &mut self,
        max_from: usize,
        divided: &[u64],
        divided_version: Version,
        divider: &[u64],
        divider_version: Version,
    ) -> (r: Result<(), Error>)
        requires
            old(self).wf(),
            divided@.len() <= old(self).capacity(),
            ({
                let kept = old(self).kept(old(self).version2(1, divided_version, divider_version), max_from);
                &&& kept < divided@.len() ==> divider@.len() >= divided@.len()
                &&& forall|i: int| kept <= i < divided@.len() ==> #[trigger] divider@[i] != 0
            }),
        ensures
            ({
                let v = old(self).version2(1, divided_version, divider_version);
                let kept = old(self).kept(v, max_from);
                &&& final(self).wf()
                &&& final(self).computed_version_view() == v
                &&& final(self).values() == spec_replaced(
                    old(self).base_values(v),
                    kept,
                    spec_range_values(kept, divided@.len() as int, |i: int| (divided@[i] / divider@[i]) as u64),
                )
            }),
            old(self).format_view() is Raw ==> r is Ok,
    {
        let ghost v = self.version2(1, divided_version, divider_version);
        let ghost kept = self.kept(v, max_from);
        assert forall|i: int| kept <= i < divided@.len() implies #[trigger] divider@[i] != 0
            && spec_ratio(divided@[i], divider@[i], false, false) >= 0 by {}
        let r = self.compute_divide_(max_from, divided, divided_version, divider, divider_version, false, false);
        assert(spec_range_values(kept, divided@.len() as int, |i: int| spec_ratio(divided@[i], divider@[i], false, false) as u64)
            =~= spec_range_values(kept, divided@.len() as int, |i: int| (divided@[i] / divider@[i]) as u64));
        r
    }

    /// Value `i` becomes `divided[i] * 100 / divider[i]`.
    pub fn compute_percentage(
        &mut self,
        max_from: usize,
        divided: &[u64],
        divided_version: Version,
        divider: &[u64],
        divider_version: Version,
    ) -> (r: Result<(), Error>)
        requires
            old(self).wf(),
            divided@.len() <= old(self).capacity(),
            ({
                let kept = old(self).kept(old(self).version2(1, divided_version, divider_version), max_from);
                &&& kept < divided@.len() ==> divider@.len() >= divided@.len()
                &&& forall|i: int| kept <= i < divided@.len() ==> #[trigger] divider@[i] != 0
                    && divided@[i] * 100 <= u64::MAX
            }),
        ensures
            ({
                let v = old(self).version2(1, divided_version, divider_version);
                let kept = old(self).kept(v, max_from);
                &&& final(self).wf()
                &&& final(self).computed_version_view() == v
                &&& final(self).values() == spec_replaced(
                    old(self).base_values(v),
                    kept,
                    spec_range_values(kept, divided@.len() as int, |i: int| spec_ratio(divided@[i], divider@[i], true, false) as u64),
                )
            }),
            old(self).format_view() is Raw ==> r is Ok,
    {
        let ghost v = self.version2(1, divided_version, divider_version);
        let ghost kept = self.kept(v, max_from);
        assert forall|i: int| kept <= i < divided@.len() implies #[trigger] divider@[i] != 0
            && spec_ratio(divided@[i], divider@[i], true, false) >= 0 by {
            assert(divided@[i] * 100 / divider@[i] as int >= 0) by (nonlinear_arith)
                requires
                    divider@[i] != 0,
            ;
        }
        self.compute_divide_(max_from, divided, divided_version, divider, divider_version, true, false)
    }

    /// Value `i` becomes `divided[i] * 100 / divider[i] - 100`, which must
    /// not be negative.
    pub fn compute_percentage_difference(
        &mut self,
        max_from: usize,
        divided: &[u64],
        divided_version: Version,
        divider: &[u64],
        divider_version: Version,
    ) -> (r: Result<(), Error>)
        requires
            old(self).wf(),
            divided@.len() <= old(self).capacity(),
            ({
                let kept = old(self).kept(old(self).version2(1, divided_version, divider_version), max_from);
                &&& kept < divided@.len() ==> divider@.len() >= divided@.len()
                &&& forall|i: int| kept <= i < divided@.len() ==> #[trigger] divider@[i] != 0
                    && divided@[i] * 100 <= u64::MAX
                    && spec_ratio(divided@[i], divider@[i], true, true) >= 0
            }),
        ensures
            ({
                let v = old(self).version2(1, divided_version, divider_version);
                let kept = old(self).kept(v, max_from);
                &&& final(self).wf()
                &&& final(self).computed_version_view() == v
                &&& final(self).values() == spec_replaced(
                    old(self).base_values(v),
                    kept,
                    spec_range_values(kept, divided@.len() as int, |i: int| spec_ratio(divided@[i], divider@[i], true, true) as u64),
                )
            }),
            old(self).format_view() is Raw ==> r is Ok,
    {
        self.compute_divide_(max_from, divided, divided_version, divider, divider_version, true, true)
    }

    /// Value `i` becomes `divided[i] * 100 / divider[i]`, less 100 when
    /// `as_difference`, under the version made of the vector's own and the
    /// sources'.
    pub fn compute_percentage_(
        &mut self,
        max_from: usize,
        divided: &[u64],
        divided_version: Version,
        divider: &[u64],
        divider_version: Version,
        as_difference: bool,
    ) -> (r: Result<(), Error>)
        requires
            old(self).wf(),
            divided@.len() <= old(self).capacity(),
            ({
                let kept = old(self).kept(old(self).version2(0, divided_version, divider_version), max_from);
                &&& kept < divided@.len() ==> divider@.len() >= divided@.len()
                &&& forall|i: int| kept <= i < divided@.len() ==> #[trigger] divider@[i] != 0
                    && divided@[i] * 100 <= u64::MAX
                    && spec_ratio(divided@[i], divider@[i], true, as_difference) >= 0
            }),
        ensures
            ({
                let v = old(self).version2(0, divided_version, divider_version);
                let kept = old(self).kept(v, max_from);
                &&& final(self).wf()
                &&& final(self).computed_version_view() == v
                &&& final(self).values() == spec_replaced(
                    old(self).base_values(v),
                    kept,
                    spec_range_values(
                        kept,
                        divided@.len() as int,
                        |i: int| spec_ratio(divided@[i], divider@[i], true, as_difference) as u64,
                    ),
                )
            }),
            old(self).format_view() is Raw ==> r is Ok,
    {
        let version = Version::zero().plus(self.inner_version()).plus(divided_version).plus(divider_version);
        let ghost kept = self.kept(version, max_from);
        let to = divided.len();
        let f = |i: usize| -> (x: u64)
            requires
                kept <= i < to,
                to == divided@.len(),
                kept < divided@.len() ==> divider@.len() >= divided@.len(),
                divider@[i as int] != 0,
                divided@[i as int] * 100 <= u64::MAX,
                spec_ratio(divided@[i as int], divider@[i as int], true, as_difference) >= 0,
            ensures
                x == spec_ratio(divided@[i as int], divider@[i as int], true, as_difference),
            {
                let multiplier: u64 = 100;
                let v = divided[i] * multiplier;
                let v = v / divider[i];
                if as_difference {
                    v - multiplier
                } else {
                    v
                }
            };
        self.compute_exact(
            version,
            max_from,
            to,
            f,
            Ghost(|i: int| spec_ratio(divided@[i], divider@[i], true, as_difference) as u64),
        )
    }
}

} // verus!
