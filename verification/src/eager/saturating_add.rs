use vstd::prelude::*;

verus! {

/// Addition that stops at the largest value instead of overflowing.
pub trait SaturatingAdd: Sized {
    /// The sum, or the largest value when the sum does not fit.
    spec fn spec_saturating_add(self, rhs: Self) -> Self;

    fn saturating_add(self, rhs: Self) -> (r: Self)
        ensures
            r == self.spec_saturating_add(rhs),
    ;
}

impl SaturatingAdd for u64 {
    open spec fn spec_saturating_add(self, rhs: Self) -> Self {
        if self + rhs > u64::MAX {
            u64::MAX
        } else {
            (self + rhs) as u64
        }
    }

    fn saturating_add(self, rhs: Self) -> (r: Self) {
        if self > u64::MAX - rhs {
            u64::MAX
        } else {
            self + rhs
        }
    }
}

impl SaturatingAdd for u32 {
    open spec fn spec_saturating_add(self, rhs: Self) -> Self {
        if self + rhs > u32::MAX {
            u32::MAX
        } else {
            (self + rhs) as u32
        }
    }

    fn saturating_add(self, rhs: Self) -> (r: Self) {
        if self > u32::MAX - rhs {
            u32::MAX
        } else {
            self + rhs
        }
    }
}

impl SaturatingAdd for usize {
    open spec fn spec_saturating_add(self, rhs: Self) -> Self {
        if self + rhs > usize::MAX {
            usize::MAX
        } else {
            (self + rhs) as usize
        }
    }

    fn saturating_add(self, rhs: Self) -> (r: Self) {
        if self > usize::MAX - rhs {
            usize::MAX
        } else {
            self + rhs
        }
    }
}

} // verus!
