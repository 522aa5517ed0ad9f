use vstd::prelude::*;

use crate::lazy::SourceVec;
use crate::version::Version;

verus! {

/// A readable vector whose whole value list can be served from memory.
pub trait CachedReadableVec {
    /// The values a snapshot serves.
    spec fn snapshot(&self) -> Seq<u64>;

    /// Every value, from the in-memory snapshot.
    fn cached(&mut self) -> (r: Vec<u64>)
        ensures
            r@ == final(self).snapshot(),
    ;
}

/// A vector with an in-memory snapshot of its values, taken again when its
/// length or version changes. With an access counter, taking a snapshot can
/// be refused by a budget.
pub struct CachedVec {
    pub inner: SourceVec,
    cache_len: usize,
    cache_version: Version,
    cache: Vec<u64>,
    access_count: Option<u64>,
}

impl CachedVec {
    pub closed spec fn inner_view(&self) -> SourceVec {
        self.inner
    }

    pub closed spec fn cache_len_view(&self) -> usize {
        self.cache_len
    }

    pub closed spec fn cache_version_view(&self) -> Version {
        self.cache_version
    }

    pub closed spec fn cache_view(&self) -> Seq<u64> {
        self.cache@
    }

    pub closed spec fn access_count_view(&self) -> Option<u64> {
        self.access_count
    }

    /// The snapshot is that of the current length and version.
    pub open spec fn fresh(&self) -> bool {
        self.cache_len_view() == self.inner_view().values@.len() && self.cache_version_view()
            == self.inner_view().version
    }

    /// A cached vector over `inner`, with an empty snapshot.
    pub fn wrap(inner: SourceVec) -> (r: CachedVec)
        ensures
            r.inner_view() == inner,
            r.cache_len_view() == 0,
            r.cache_version_view() == Version(0),
            r.cache_view() == Seq::<u64>::empty(),
            r.access_count_view() is None,
    {
        CachedVec { inner, cache_len: 0, cache_version: Version::zero(), cache: Vec::new(), access_count: None }
    }

    /// A cached vector over `inner` that counts its accesses, for a budget to
    /// decide on.
    pub fn wrap_budgeted(inner: SourceVec) -> (r: CachedVec)
        ensures
            r.inner_view() == inner,
            r.cache_len_view() == 0,
            r.cache_version_view() == Version(0),
            r.cache_view() == Seq::<u64>::empty(),
            r.access_count_view() == Some(0u64),
    {
        CachedVec { inner, cache_len: 0, cache_version: Version::zero(), cache: Vec::new(), access_count: Some(0) }
    }

    pub fn version(&self) -> (r: Version)
        ensures
            r == self.inner_view().version,
    {
        self.inner.version
    }

    /// Drops the snapshot and restarts the access count.
    pub fn clear(&mut self)
        ensures
            final(self).inner_view() == old(self).inner_view(),
            final(self).cache_len_view() == 0,
            final(self).cache_version_view() == Version(0),
            final(self).cache_view() == Seq::<u64>::empty(),
            final(self).access_count_view() == match old(self).access_count_view() {
                Some(_) => Some(0u64),
                None => None,
            },
    {
        self.cache_len = 0;
        self.cache_version = Version::zero();
        self.cache = Vec::new();
        if self.access_count.is_some() {
            self.access_count = Some(0);
        }
    }

    /// The snapshot, taken again first when the length or the version
    /// changed. When asked to check the budget, `try_reserve` decides from
    /// the access count whether a new snapshot may be taken; if not, there is
    /// none.
    pub fn materialize<B: Fn(u64) -> bool>(&mut self, check_budget: bool, try_reserve: B) -> (r: Option<Vec<u64>>)
        requires
            forall|c: u64| call_requires(try_reserve, (c,)),
        ensures
            final(self).inner_view() == old(self).inner_view(),
            ({
                let count: u64 = match old(self).access_count_view() {
                    Some(c) => (if c == u64::MAX { 0 } else { c + 1 }) as u64,
                    None => 0,
                };
                &&& final(self).access_count_view() == match old(self).access_count_view() {
                    Some(_) => Some(count),
                    None => None,
                }
                &&& old(self).fresh() ==> (r matches Some(d) && d@ == old(self).cache_view())
                    && final(self).cache_view() == old(self).cache_view() && final(self).fresh()
                &&& !old(self).fresh() ==> match r {
                    None => check_budget && call_ensures(try_reserve, (count,), false)
                        && final(self).cache_view() == old(self).cache_view()
                        && final(self).cache_len_view() == old(self).cache_len_view()
                        && final(self).cache_version_view() == old(self).cache_version_view(),
                    Some(data) => data@ == old(self).inner_view().values@ && final(self).cache_view()
                        == data@ && final(self).fresh() && (check_budget ==> call_ensures(
                        try_reserve,
                        (count,),
                        true,
                    )),
                }
            }),
    {
        let len = self.inner.values.len();
        let version = self.inner.version;
        let count: u64 = match self.access_count {
            Some(c) => {
                let n = if c == u64::MAX {
                    0
                } else {
                    c + 1
                };
                self.access_count = Some(n);
                n
            },
            None => 0,
        };
        if self.cache_len == len && self.cache_version == version {
            return Some(self.cache.clone());
        }
        if check_budget && !try_reserve(count) {
            return None;
        }
        let data = self.inner.values.clone();
        self.cache_len = len;
        self.cache_version = version;
        self.cache = data.clone();
        Some(data)
    }

    /// Every value, from the snapshot, taken again first when the length or
    /// the version changed.
    pub fn cached(&mut self) -> (r: Vec<u64>)
        ensures
            final(self).inner_view() == old(self).inner_view(),
            final(self).fresh(),
            r@ == final(self).cache_view(),
            old(self).fresh() ==> r@ == old(self).cache_view(),
            !old(self).fresh() ==> r@ == old(self).inner_view().values@,
    {
        let always = |_c: u64| -> (b: bool)
            ensures
                b,
            { true };
        match self.materialize(false, always) {
            Some(v) => v,
            None => Vec::new(),
        }
    }

    /// The snapshot, when the budget allows taking a new one if it is
    /// needed (see `materialize`).
    pub fn try_cached<B: Fn(u64) -> bool>(&mut self, try_reserve: B) -> (r: Option<Vec<u64>>)
        requires
            forall|c: u64| call_requires(try_reserve, (c,)),
        ensures
            final(self).inner_view() == old(self).inner_view(),
            ({
                let count: u64 = match old(self).access_count_view() {
                    Some(c) => (if c == u64::MAX { 0 } else { c + 1 }) as u64,
                    None => 0,
                };
                &&& final(self).access_count_view() == match old(self).access_count_view() {
                    Some(_) => Some(count),
                    None => None,
                }
                &&& old(self).fresh() ==> (r matches Some(d) && d@ == old(self).cache_view())
                    && final(self).cache_view() == old(self).cache_view() && final(self).fresh()
                &&& !old(self).fresh() ==> match r {
                    None => call_ensures(try_reserve, (count,), false) && final(self).cache_view()
                        == old(self).cache_view(),
                    Some(data) => data@ == old(self).inner_view().values@ && final(self).cache_view()
                        == data@ && final(self).fresh() && call_ensures(try_reserve, (count,), true),
                }
            }),
    {
        self.materialize(true, try_reserve)
    }

    /// Value `index` of the snapshot (see `get_at`).
    pub fn get(&mut self, index: usize) -> (r: Option<u64>)
        ensures
            final(self).inner_view() == old(self).inner_view(),
            final(self).fresh(),
            r == if index < final(self).cache_view().len() {
                Some(final(self).cache_view()[index as int])
            } else {
                None
            },
    {
        self.get_at(index)
    }

    /// Value `index` of the snapshot.
    pub fn get_at(&mut self, index: usize) -> (r: Option<u64>)
        ensures
            final(self).inner_view() == old(self).inner_view(),
            final(self).fresh(),
            r == if index < final(self).cache_view().len() {
                Some(final(self).cache_view()[index as int])
            } else {
                None
            },
    {
        let all = self.cached();
        if index < all.len() {
            Some(all[index])
        } else {
            None
        }
    }
}

impl CachedReadableVec for CachedVec {
    open spec fn snapshot(&self) -> Seq<u64> {
        self.cache_view()
    }

    fn cached(&mut self) -> (r: Vec<u64>) {
        CachedVec::cached(self)
    }
}

} // verus!
