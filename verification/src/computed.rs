use vstd::prelude::*;

use crate::eager::{EagerVec, vsum};
use crate::error::Error;
use crate::lazy::{
    LazyVecFrom1, LazyVecFrom1Iterator, LazyVecFrom2, LazyVecFrom2Iterator, LazyVecFrom3,
    LazyVecFrom3Iterator, SourceVec,
};
use crate::options::ImportOptions;
use crate::stored::{StoredVec, StoredVecIterator};
use crate::version::{Format, Version};

verus! {

/// How a derived vector gets its values.
#[derive(Debug, Clone, Copy, PartialEq, Eq, PartialOrd, Ord, Structural)]
pub enum Computation {
    /// Computed once, stored, and updated incrementally.
    Eager,
    /// Computed again at each read.
    Lazy,
}

impl Computation {
    pub fn eager(&self) -> (r: bool)
        ensures
            r == (*self is Eager),
    {
        match self {
            Computation::Eager => true,
            Computation::Lazy => false,
        }
    }

    pub fn lazy(&self) -> (r: bool)
        ensures
            r == (*self is Lazy),
    {
        match self {
            Computation::Eager => false,
            Computation::Lazy => true,
        }
    }
}

impl Default for Computation {
    fn default() -> (r: Computation)
        ensures
            r == Computation::Lazy,
    {
        Computation::Lazy
    }
}

/// The sources an eager derived vector is computed from, with the
/// computation of each value.
pub enum Dependencies<F1, F2, F3> {
    From1(SourceVec, F1),
    From2((SourceVec, SourceVec), F2),
    From3((SourceVec, SourceVec, SourceVec), F3),
}

/// A derived vector: stored and computed from its dependencies, or lazy.
pub enum ComputedVec<F1, F2, F3>
where
    F1: Fn(usize, &Vec<u64>) -> Option<u64>,
    F2: Fn(usize, &Vec<u64>, &Vec<u64>) -> Option<u64>,
    F3: Fn(usize, &Vec<u64>, &Vec<u64>, &Vec<u64>) -> Option<u64>,
{
    Eager { vec: EagerVec, deps: Dependencies<F1, F2, F3> },
    LazyFrom1(LazyVecFrom1<F1>),
    LazyFrom2(LazyVecFrom2<F2>),
    LazyFrom3(LazyVecFrom3<F3>),
}

/// What computing an eager vector up to `to` gives: the values kept from
/// `old` (see `EagerVec::kept`), then up to `to` values meeting `ok`; when
/// nothing is computed, the values it started from.
pub open spec fn computed_to(old: EagerVec, new: EagerVec, max_from: usize, to: int, v: Version, ok: spec_fn(int, u64) -> bool) -> bool {
    let base = old.base_values(v);
    let kept = old.kept(v, max_from);
    &&& new.wf()
    &&& new.computed_version_view() == v
    &&& kept < to ==> new.spec_len() == to && new.values().take(kept) == base.take(kept) && forall|i: int|
        kept <= i < to ==> (#[trigger] new.value_at(i) matches Some(x) && ok(i, x))
    &&& kept >= to ==> new.values() == base
}

/// The version of the sources of some dependencies.
pub open spec fn deps_version<F1, F2, F3>(deps: Dependencies<F1, F2, F3>) -> Version {
    match deps {
        Dependencies::From1(s, _) => s.version,
        Dependencies::From2((s1, s2), _) => vsum(s1.version, s2.version),
        Dependencies::From3((s1, s2, s3), _) => vsum(vsum(s1.version, s2.version), s3.version),
    }
}

impl<F1, F2, F3> ComputedVec<F1, F2, F3>
where
    F1: Fn(usize, &Vec<u64>) -> Option<u64>,
    F2: Fn(usize, &Vec<u64>, &Vec<u64>) -> Option<u64>,
    F3: Fn(usize, &Vec<u64>, &Vec<u64>, &Vec<u64>) -> Option<u64>,
{
    /// The computation gives a value at every index from `from` to `to`.
    pub open spec fn deps_give_values(deps: Dependencies<F1, F2, F3>, from: int, to: int) -> bool {
        match deps {
            Dependencies::From1(s, f) => forall|i: usize|
                from <= i < to ==> call_requires(f, (i, &s.values)) && forall|o: Option<u64>|
                    call_ensures(f, (i, &s.values), o) ==> o is Some,
            Dependencies::From2((s1, s2), f) => forall|i: usize|
                from <= i < to ==> call_requires(f, (i, &s1.values, &s2.values)) && forall|o: Option<u64>|
                    call_ensures(f, (i, &s1.values, &s2.values), o) ==> o is Some,
            Dependencies::From3((s1, s2, s3), f) => forall|i: usize|
                from <= i < to ==> call_requires(f, (i, &s1.values, &s2.values, &s3.values))
                    && forall|o: Option<u64>|
                    call_ensures(f, (i, &s1.values, &s2.values, &s3.values), o) ==> o is Some,
        }
    }

    /// `x` is a value the computation may give at index `i`.
    pub open spec fn deps_value(deps: Dependencies<F1, F2, F3>, i: int, x: u64) -> bool {
        match deps {
            Dependencies::From1(s, f) => call_ensures(f, (i as usize, &s.values), Some(x)),
            Dependencies::From2((s1, s2), f) => call_ensures(f, (i as usize, &s1.values, &s2.values), Some(x)),
            Dependencies::From3((s1, s2, s3), f) => call_ensures(
                f,
                (i as usize, &s1.values, &s2.values, &s3.values),
                Some(x),
            ),
        }
    }

    /// An eager vector computed from one source, imported in `format`, or a
    /// lazy one over that source.
    pub fn forced_import_or_init_from_1_with(
        options: &ImportOptions,
        computation: Computation,
        format: Format,
        region: Vec<u8>,
        aux: Vec<u8>,
        index: &str,
        source: SourceVec,
        compute: F1,
    ) -> (r: Result<Self, Error>)
        requires
            options.version.0 != 0,
            computation is Lazy ==> index@ == source.index@,
        ensures
            computation is Lazy ==> (r matches Ok(ComputedVec::LazyFrom1(l)) && l.name@ == options.name@
                && l.version == options.version && l.source == source && l.compute == compute),
            computation is Eager ==> match r {
                Ok(ComputedVec::Eager { vec, deps }) => vec.wf() && deps == Dependencies::<F1, F2, F3>::From1(source, compute)
                    && StoredVec::forced_import_error(*options, format, region@, aux@) is None
                    && vec.stored().forced_imported(*options, format, region@, aux@),
                Ok(_) => false,
                Err(e) => StoredVec::forced_import_error(*options, format, region@, aux@) == Some(e),
            },
    {
        match computation {
            Computation::Eager => {
                match EagerVec::forced_import_with(options, format, region, aux) {
                    Ok(vec) => Ok(ComputedVec::Eager { vec, deps: Dependencies::From1(source, compute) }),
                    Err(e) => Err(e),
                }
            },
            Computation::Lazy => Ok(
                ComputedVec::LazyFrom1(
                    LazyVecFrom1::init(options.name.as_str(), options.version, index, source, compute),
                ),
            ),
        }
    }

    /// An eager vector computed from two sources, imported in `format`, or a
    /// lazy one over them.
    pub fn forced_import_or_init_from_2_with(
        options: &ImportOptions,
        computation: Computation,
        format: Format,
        region: Vec<u8>,
        aux: Vec<u8>,
        index: &str,
        source1: SourceVec,
        source2: SourceVec,
        compute: F2,
    ) -> (r: Result<Self, Error>)
        requires
            options.version.0 != 0,
            computation is Lazy ==> source1.index@ == index@ || source2.index@ == index@,
        ensures
            computation is Lazy ==> (r matches Ok(ComputedVec::LazyFrom2(l)) && l.name@ == options.name@
                && l.version == options.version && l.source1 == source1 && l.source2 == source2
                && l.compute == compute),
            computation is Eager ==> match r {
                Ok(ComputedVec::Eager { vec, deps }) => vec.wf() && deps == Dependencies::<F1, F2, F3>::From2((source1, source2), compute)
                    && StoredVec::forced_import_error(*options, format, region@, aux@) is None
                    && vec.stored().forced_imported(*options, format, region@, aux@),
                Ok(_) => false,
                Err(e) => StoredVec::forced_import_error(*options, format, region@, aux@) == Some(e),
            },
    {
        match computation {
            Computation::Eager => {
                match EagerVec::forced_import_with(options, format, region, aux) {
                    Ok(vec) => Ok(
                        ComputedVec::Eager { vec, deps: Dependencies::From2((source1, source2), compute) },
                    ),
                    Err(e) => Err(e),
                }
            },
            Computation::Lazy => Ok(
                ComputedVec::LazyFrom2(
                    LazyVecFrom2::init(options.name.as_str(), options.version, index, source1, source2, compute),
                ),
            ),
        }
    }

    /// An eager vector computed from three sources, imported in `format`, or
    /// a lazy one over them.
    pub fn forced_import_or_init_from_3_with(
        options: &ImportOptions,
        computation: Computation,
        format: Format,
        region: Vec<u8>,
        aux: Vec<u8>,
        index: &str,
        source1: SourceVec,
        source2: SourceVec,
        source3: SourceVec,
        compute: F3,
    ) -> (r: Result<Self, Error>)
        requires
            options.version.0 != 0,
            computation is Lazy ==> source1.index@ == index@ || source2.index@ == index@
                || source3.index@ == index@,
        ensures
            computation is Lazy ==> (r matches Ok(ComputedVec::LazyFrom3(l)) && l.name@ == options.name@
                && l.version == options.version && l.source1 == source1 && l.source2 == source2
                && l.source3 == source3 && l.compute == compute),
            computation is Eager ==> match r {
                Ok(ComputedVec::Eager { vec, deps }) => vec.wf() && deps == Dependencies::<F1, F2, F3>::From3((source1, source2, source3), compute)
                    && StoredVec::forced_import_error(*options, format, region@, aux@) is None
                    && vec.stored().forced_imported(*options, format, region@, aux@),
                Ok(_) => false,
                Err(e) => StoredVec::forced_import_error(*options, format, region@, aux@) == Some(e),
            },
    {
        match computation {
            Computation::Eager => {
                match EagerVec::forced_import_with(options, format, region, aux) {
                    Ok(vec) => Ok(
                        ComputedVec::Eager {
                            vec,
                            deps: Dependencies::From3((source1, source2, source3), compute),
                        },
                    ),
                    Err(e) => Err(e),
                }
            },
            Computation::Lazy => Ok(
                ComputedVec::LazyFrom3(
                    LazyVecFrom3::init(
                        options.name.as_str(),
                        options.version,
                        index,
                        source1,
                        source2,
                        source3,
                        compute,
                    ),
                ),
            ),
        }
    }

    /// An iterator over the values: over the stored values of an eager
    /// vector, over the computed ones of a lazy vector.
    pub fn iter(&self) -> (r: ComputedVecIterator<'_, F1, F2, F3>)
        requires
            self matches ComputedVec::Eager { vec, .. } ==> vec.wf(),
        ensures
            match (*self, r) {
                (ComputedVec::Eager { vec, .. }, ComputedVecIterator::Eager(it)) => it.wf()
                    && it.remaining_values() == vec.stored().iter_values(),
                (ComputedVec::LazyFrom1(l), ComputedVecIterator::LazyFrom1(it)) => *it.lazy == l
                    && it.index == 0 && it.end_index == l.source.values@.len(),
                (ComputedVec::LazyFrom2(l), ComputedVecIterator::LazyFrom2(it)) => *it.lazy == l
                    && it.index == 0 && it.end_index == l.spec_len(),
                (ComputedVec::LazyFrom3(l), ComputedVecIterator::LazyFrom3(it)) => *it.lazy == l
                    && it.index == 0 && it.end_index == l.spec_len(),
                _ => false,
            },
    {
        match self {
            ComputedVec::Eager { vec, .. } => ComputedVecIterator::Eager(vec.iter()),
            ComputedVec::LazyFrom1(l) => ComputedVecIterator::LazyFrom1(l.iter()),
            ComputedVec::LazyFrom2(l) => ComputedVecIterator::LazyFrom2(l.iter()),
            ComputedVec::LazyFrom3(l) => ComputedVecIterator::LazyFrom3(l.iter()),
        }
    }

    /// The regions of the vector: those of the eager vector, none for a lazy
    /// one.
    pub fn region_names(&self) -> (r: Vec<String>)
        ensures
            match self {
                ComputedVec::Eager { vec, .. } => vec.stored().region_names_are(r@),
                _ => r@.len() == 0,
            },
    {
        match self {
            ComputedVec::Eager { vec, .. } => vec.region_names(),
            ComputedVec::LazyFrom1(v) => v.region_names(),
            ComputedVec::LazyFrom2(v) => v.region_names(),
            ComputedVec::LazyFrom3(v) => v.region_names(),
        }
    }

    /// Brings an eager vector up to `len` values, computing each missing one
    /// from its dependencies (see `EagerVec::compute_to`), under the version
    /// of the sources; a lazy vector has nothing to compute.
    pub fn compute_if_necessary(&mut self, max_from: usize, len: usize) -> (r: Result<(), Error>)
        requires
            *old(self) matches ComputedVec::Eager { vec, deps } ==> vec.wf() && len <= vec.capacity()
                && Self::deps_give_values(
                deps,
                vec.kept(vsum(vsum(Version(0), vec.inner_version_view()), deps_version(deps)), max_from),
                len as int,
            ),
        ensures
            match *old(self) {
                ComputedVec::Eager { vec, deps } => *final(self) matches ComputedVec::Eager { vec: new, deps: d }
                    && d == deps && computed_to(
                    vec,
                    new,
                    max_from,
                    len as int,
                    vsum(vsum(Version(0), vec.inner_version_view()), deps_version(deps)),
                    |i: int, x: u64| Self::deps_value(deps, i, x),
                ) && (vec.format_view() is Raw ==> r is Ok),
                _ => *final(self) == *old(self) && r is Ok,
            },
    {
        match self {
            ComputedVec::Eager { vec, deps } => {
                match deps {
                    Dependencies::From1(source, compute) => {
                        let version = source.version;
                        let ghost kept = vec.kept(vsum(vsum(Version(0), vec.inner_version_view()), version), max_from);
                        let cf = &*compute;
                        let t = |i: usize| -> (x: u64)
                            requires
                                kept <= i < len,
                                call_requires(cf, (i, &source.values)),
                                forall|o: Option<u64>| call_ensures(cf, (i, &source.values), o) ==> o is Some,
                            ensures
                                call_ensures(cf, (i, &source.values), Some(x)),
                            {
                                match cf(i, &source.values) {
                                    Some(v) => v,
                                    None => 0,
                                }
                            };
                        vec.compute_to(max_from, len, version, t)
                    },
                    Dependencies::From2((source1, source2), compute) => {
                        let version = source1.version.plus(source2.version);
                        let ghost kept = vec.kept(vsum(vsum(Version(0), vec.inner_version_view()), version), max_from);
                        let cf = &*compute;
                        let t = |i: usize| -> (x: u64)
                            requires
                                kept <= i < len,
                                call_requires(cf, (i, &source1.values, &source2.values)),
                                forall|o: Option<u64>| call_ensures(cf, (i, &source1.values, &source2.values), o) ==> o is Some,
                            ensures
                                call_ensures(cf, (i, &source1.values, &source2.values), Some(x)),
                            {
                                match cf(i, &source1.values, &source2.values) {
                                    Some(v) => v,
                                    None => 0,
                                }
                            };
                        vec.compute_to(max_from, len, version, t)
                    },
                    Dependencies::From3((source1, source2, source3), compute) => {
                        let version = source1.version.plus(source2.version).plus(source3.version);
                        let ghost kept = vec.kept(vsum(vsum(Version(0), vec.inner_version_view()), version), max_from);
                        let cf = &*compute;
                        let t = |i: usize| -> (x: u64)
                            requires
                                kept <= i < len,
                                call_requires(cf, (i, &source1.values, &source2.values, &source3.values)),
                                forall|o: Option<u64>|
                                    call_ensures(cf, (i, &source1.values, &source2.values, &source3.values), o)
                                        ==> o is Some,
                            ensures
                                call_ensures(cf, (i, &source1.values, &source2.values, &source3.values), Some(x)),
                            {
                                match cf(i, &source1.values, &source2.values, &source3.values) {
                                    Some(v) => v,
                                    None => 0,
                                }
                            };
                        assert forall|i: usize| kept <= i < len implies call_requires(t, (i,)) by {
                            assert(call_requires(cf, (i, &source1.values, &source2.values, &source3.values)));
                        }
                        vec.compute_to(max_from, len, version, t)
                    },
                }
            },
            _ => Ok(()),
        }
    }
}

/// An iterator over a derived vector, of the kind of the vector.
pub enum ComputedVecIterator<'a, F1, F2, F3>
where
    F1: Fn(usize, &Vec<u64>) -> Option<u64>,
    F2: Fn(usize, &Vec<u64>, &Vec<u64>) -> Option<u64>,
    F3: Fn(usize, &Vec<u64>, &Vec<u64>, &Vec<u64>) -> Option<u64>,
{
    Eager(StoredVecIterator<'a>),
    LazyFrom1(LazyVecFrom1Iterator<'a, F1>),
    LazyFrom2(LazyVecFrom2Iterator<'a, F2>),
    LazyFrom3(LazyVecFrom3Iterator<'a, F3>),
}

impl<'a, F1, F2, F3> ComputedVecIterator<'a, F1, F2, F3>
where
    F1: Fn(usize, &Vec<u64>) -> Option<u64>,
    F2: Fn(usize, &Vec<u64>, &Vec<u64>) -> Option<u64>,
    F3: Fn(usize, &Vec<u64>, &Vec<u64>, &Vec<u64>) -> Option<u64>,
{
    /// The next value can be asked for: the eager iterator is well formed,
    /// a lazy one may call its computation at its index.
    pub open spec fn can_advance(&self) -> bool {
        match self {
            ComputedVecIterator::Eager(it) => it.wf(),
            ComputedVecIterator::LazyFrom1(it) => it.index < it.end_index ==> call_requires(
                it.lazy.compute,
                (it.index, &it.lazy.source.values),
            ),
            ComputedVecIterator::LazyFrom2(it) => it.index < it.end_index ==> call_requires(
                it.lazy.compute,
                (it.index, &it.lazy.source1.values, &it.lazy.source2.values),
            ),
            ComputedVecIterator::LazyFrom3(it) => it.index < it.end_index ==> call_requires(
                it.lazy.compute,
                (it.index, &it.lazy.source1.values, &it.lazy.source2.values, &it.lazy.source3.values),
            ),
        }
    }

    /// The next value, as the iterator of the vector's kind gives it.
    pub fn next(&mut self) -> (r: Option<u64>)
        requires
            old(self).can_advance(),
        ensures
            match (*old(self), *final(self)) {
                (ComputedVecIterator::Eager(a), ComputedVecIterator::Eager(b)) => {
                    &&& b.wf()
                    &&& a.remaining_values().len() > 0 ==> r == Some(a.remaining_values()[0])
                        && b.remaining_values() == a.remaining_values().drop_first()
                    &&& a.remaining_values().len() == 0 ==> r is None
                },
                (ComputedVecIterator::LazyFrom1(a), ComputedVecIterator::LazyFrom1(b)) => {
                    &&& b.lazy == a.lazy
                    &&& b.end_index == a.end_index
                    &&& a.index >= a.end_index ==> r is None && b.index == a.index
                    &&& a.index < a.end_index ==> call_ensures(
                        a.lazy.compute,
                        (a.index, &a.lazy.source.values),
                        r,
                    ) && b.index == if r is Some {
                        a.index + 1
                    } else {
                        a.index as int
                    }
                },
                (ComputedVecIterator::LazyFrom2(a), ComputedVecIterator::LazyFrom2(b)) => {
                    &&& b.lazy == a.lazy
                    &&& b.end_index == a.end_index
                    &&& a.index >= a.end_index ==> r is None && b.index == a.index
                    &&& a.index < a.end_index ==> call_ensures(
                        a.lazy.compute,
                        (a.index, &a.lazy.source1.values, &a.lazy.source2.values),
                        r,
                    ) && b.index == if r is Some {
                        a.index + 1
                    } else {
                        a.index as int
                    }
                },
                (ComputedVecIterator::LazyFrom3(a), ComputedVecIterator::LazyFrom3(b)) => {
                    &&& b.lazy == a.lazy
                    &&& b.end_index == a.end_index
                    &&& a.index >= a.end_index ==> r is None && b.index == a.index
                    &&& a.index < a.end_index ==> call_ensures(
                        a.lazy.compute,
                        (a.index, &a.lazy.source1.values, &a.lazy.source2.values, &a.lazy.source3.values),
                        r,
                    ) && b.index == if r is Some {
                        a.index + 1
                    } else {
                        a.index as int
                    }
                },
                _ => false,
            },
    {
        match self {
            ComputedVecIterator::Eager(it) => it.next(),
            ComputedVecIterator::LazyFrom1(it) => it.next(),
            ComputedVecIterator::LazyFrom2(it) => it.next(),
            ComputedVecIterator::LazyFrom3(it) => it.next(),
        }
    }
}

} // verus!
