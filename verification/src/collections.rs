use std::collections::{BTreeMap, BTreeSet};
use vstd::prelude::*;

verus! {

/// Calls `BTreeSet::first`, which returns the smallest element of the set,
/// if any.
#[verifier::external_body]
pub(crate) fn set_first(s: &BTreeSet<usize>) -> (r: Option<usize>)
    ensures
        match r {
            Some(x) => s@.contains(x) && forall|y: usize| s@.contains(y) ==> x <= y,
            None => s@ == Set::<usize>::empty(),
        },
{
    s.first().copied()
}

/// Calls `BTreeSet::pop_first`, which removes the smallest element of the
/// set and returns it, if any.
#[verifier::external_body]
pub(crate) fn set_pop_first(s: &mut BTreeSet<usize>) -> (r: Option<usize>)
    ensures
        match r {
            Some(x) => {
                &&& old(s)@.contains(x)
                &&& forall|y: usize| old(s)@.contains(y) ==> x <= y
                &&& final(s)@ == old(s)@.remove(x)
            },
            None => old(s)@ == Set::<usize>::empty() && final(s)@ == old(s)@,
        },
{
    s.pop_first()
}

/// Calls `BTreeSet::split_off`, which moves the elements at or above `at`
/// into the returned set and keeps those below.
#[verifier::external_body]
pub(crate) fn set_split_off(s: &mut BTreeSet<usize>, at: usize) -> (r: BTreeSet<usize>)
    ensures
        final(s)@ == old(s)@.filter(|x: usize| x < at),
        r@ == old(s)@.filter(|x: usize| x >= at),
{
    s.split_off(&at)
}

/// Calls `BTreeMap::split_off`, which moves the entries whose key is at or
/// above `at` into the returned map and keeps those below.
#[verifier::external_body]
pub(crate) fn map_split_off<V>(m: &mut BTreeMap<usize, V>, at: usize) -> (r: BTreeMap<usize, V>)
    ensures
        final(m)@ == old(m)@.restrict(Set::new(|k: usize| k < at)),
        r@ == old(m)@.restrict(Set::new(|k: usize| k >= at)),
{
    m.split_off(&at)
}

} // verus!
