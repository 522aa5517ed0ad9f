use vstd::prelude::*;

use crate::error::Error;
use crate::options::ImportOptions;
use crate::stored::{StoredVec, StoredVecIterator};
use crate::version::{Format, Version};

pub mod arith;
pub mod window;
pub mod indexes;
pub mod running;
pub mod others;
pub mod saturating_add;

verus! {

/// Sum of two versions, wrapping around as `Version::plus` does.
pub open spec fn vsum(a: Version, b: Version) -> Version {
    Version(((a.0 + b.0) % 0x1_0000_0000_0000_0000) as u64)
}

/// The values after a computation that keeps the first `kept` values and
/// writes `new` after them; when there is nothing new, nothing is cut.
pub open spec fn spec_replaced(old: Seq<Option<u64>>, kept: int, new: Seq<u64>) -> Seq<Option<u64>> {
    if new.len() > 0 {
        old.take(kept) + new.map_values(|v: u64| Some(v))
    } else {
        old
    }
}

/// Past the kept values, the values after a replacement are the new ones.
pub proof fn lemma_replaced_at(base: Seq<Option<u64>>, kept: int, new: Seq<u64>, i: int)
    requires
        0 <= kept <= base.len(),
        kept <= i < kept + new.len(),
    ensures
        spec_replaced(base, kept, new).len() == kept + new.len(),
        spec_replaced(base, kept, new)[i] == Some(new[i - kept]),
{
}

/// The values `f(from)`, ..., `f(to - 1)`, or none when `to <= from`.
pub open spec fn spec_range_values(from: int, to: int, f: spec_fn(int) -> u64) -> Seq<u64> {
    if from < to {
        Seq::new((to - from) as nat, |k: int| f(from + k))
    } else {
        Seq::empty()
    }
}

/// The version `base` followed by the versions `vs`, summed.
pub open spec fn vsum_all(base: Version, vs: Seq<Version>) -> Version
    decreases vs.len(),
{
    if vs.len() == 0 {
        base
    } else {
        vsum(vsum_all(base, vs.drop_last()), vs.last())
    }
}

/// Resuming a computation after kept values that are what it computes gives
/// the values it gives from scratch: incremental updates match a full
/// recomputation.
pub proof fn lemma_resumed_equals_full(base: Seq<Option<u64>>, kept: int, n: int, f: spec_fn(int) -> u64)
    requires
        0 <= kept <= base.len(),
        kept < n,
        forall|i: int| 0 <= i < kept ==> base[i] == Some(f(i)),
    ensures
        spec_replaced(base, kept, spec_range_values(kept, n, f)) == spec_replaced(
            Seq::empty(),
            0,
            spec_range_values(0, n, f),
        ),
{
    let a = spec_replaced(base, kept, spec_range_values(kept, n, f));
    let b = spec_replaced(Seq::empty(), 0, spec_range_values(0, n, f));
    assert(a.len() == n);
    assert(b.len() == n);
    assert forall|i: int| 0 <= i < n implies a[i] == b[i] by {
        if i >= kept {
            lemma_replaced_at(base, kept, spec_range_values(kept, n, f), i);
        }
        lemma_replaced_at(Seq::empty(), 0, spec_range_values(0, n, f), i);
    }
    assert(a =~= b);
}

/// A stored vector whose values are computed from other vectors, and kept up
/// to date incrementally: each computation starts where the stored values end
/// (or earlier, when asked), and starts over when the version of the
/// computation changes.
pub struct EagerVec {
    inner: StoredVec,
}

impl EagerVec {
    pub closed spec fn stored(&self) -> StoredVec {
        self.inner
    }

    pub open spec fn wf(&self) -> bool {
        self.stored().wf() && self.stored().holes_free()
    }

    pub open spec fn spec_len(&self) -> nat {
        self.stored().spec_len()
    }

    pub open spec fn capacity(&self) -> nat {
        self.stored().capacity()
    }

    pub open spec fn value_at(&self, i: int) -> Option<u64> {
        self.stored().value_at(i)
    }

    /// The values, in order.
    pub open spec fn values(&self) -> Seq<Option<u64>> {
        Seq::new(self.spec_len(), |i: int| self.value_at(i))
    }

    pub open spec fn readable(&self, i: int) -> bool {
        self.stored().readable(i)
    }

    /// The version of the computation that produced the values.
    pub open spec fn computed_version_view(&self) -> Version {
        self.stored().header_inner().computed_version
    }

    /// The version the vector itself was imported with.
    pub open spec fn inner_version_view(&self) -> Version {
        self.stored().header_inner().vec_version
    }

    pub open spec fn format_view(&self) -> Format {
        self.stored().format_view()
    }

    /// The values a computation of `version` starts from: the current ones,
    /// or none when they were computed under another version.
    pub open spec fn base_values(&self, version: Version) -> Seq<Option<u64>> {
        if self.computed_version_view() == version {
            self.values()
        } else {
            Seq::empty()
        }
    }

    /// How many values a computation of `version` asked to start at
    /// `max_from` keeps.
    pub open spec fn kept(&self, version: Version, max_from: usize) -> int {
        let n = self.base_values(version).len() as int;
        if max_from < n {
            max_from as int
        } else {
            n
        }
    }

    /// Imports the vector in the given format (see `StoredVec`).
    pub fn forced_import_with(options: &ImportOptions, format: Format, region: Vec<u8>, aux: Vec<u8>) -> (r: Result<EagerVec, Error>)
        requires
            options.version.0 != 0,
        ensures
            r matches Ok(v) ==> v.wf() && v.format_view() == format,
            match r {
                Ok(v) => StoredVec::forced_import_error(*options, format, region@, aux@) is None
                    && v.stored().forced_imported(*options, format, region@, aux@),
                Err(e) => StoredVec::forced_import_error(*options, format, region@, aux@) == Some(e),
            },
    {
        match StoredVec::forced_import_with(options, format, region, aux) {
            Ok(inner) => Ok(EagerVec { inner }),
            Err(e) => Err(e),
        }
    }

    /// Imports the vector in the raw format.
    pub fn forced_import_raw_with(options: &ImportOptions, region: Vec<u8>) -> (r: Result<EagerVec, Error>)
        requires
            options.version.0 != 0,
        ensures
            r matches Ok(v) ==> v.wf() && v.format_view() == Format::Raw,
            match r {
                Ok(v) => StoredVec::forced_import_error(*options, Format::Raw, region@, Seq::empty()) is None
                    && v.stored().forced_imported(*options, Format::Raw, region@, Seq::empty()),
                Err(e) => StoredVec::forced_import_error(*options, Format::Raw, region@, Seq::empty()) == Some(e),
            },
    {
        let empty: Vec<u8> = Vec::new();
        assert(empty@ =~= Seq::<u8>::empty());
        Self::forced_import_with(options, Format::Raw, region, empty)
    }

    /// Imports the vector in the compressed format, with its page table.
    pub fn forced_import_compressed_with(options: &ImportOptions, region: Vec<u8>, pages_region: Vec<u8>) -> (r: Result<EagerVec, Error>)
        requires
            options.version.0 != 0,
        ensures
            r matches Ok(v) ==> v.wf() && v.format_view() == Format::Compressed,
            match r {
                Ok(v) => StoredVec::forced_import_error(*options, Format::Compressed, region@, pages_region@) is None
                    && v.stored().forced_imported(*options, Format::Compressed, region@, pages_region@),
                Err(e) => StoredVec::forced_import_error(*options, Format::Compressed, region@, pages_region@) == Some(e),
            },
    {
        Self::forced_import_with(options, Format::Compressed, region, pages_region)
    }

    pub fn len(&self) -> (r: usize)
        requires
            self.wf(),
        ensures
            r == self.spec_len(),
    {
        self.inner.len()
    }

    pub fn is_empty(&self) -> (r: bool)
        requires
            self.wf(),
        ensures
            r == (self.spec_len() == 0),
    {
        self.inner.is_empty()
    }

    /// The version the vector itself was imported with.
    pub fn inner_version(&self) -> (r: Version)
        ensures
            r == self.inner_version_view(),
    {
        self.inner.vec_version()
    }

    /// The version of the computation that produced the values.
    pub fn computed_version(&self) -> (r: Version)
        ensures
            r == self.computed_version_view(),
    {
        self.inner.computed_version()
    }

    /// Reads value `index`.
    pub fn get(&self, index: usize) -> (r: Result<Option<u64>, Error>)
        requires
            self.wf(),
        ensures
            self.readable(index as int) ==> r == Ok::<Option<u64>, Error>(self.value_at(index as int)),
            !self.readable(index as int) ==> r == Err::<Option<u64>, Error>(Error::Decompression),
    {
        self.inner.get(index)
    }

    /// An iterator over the values.
    pub fn iter(&self) -> (r: StoredVecIterator<'_>)
        requires
            self.wf(),
        ensures
            r.wf(),
            r.remaining_values() == self.stored().iter_values(),
    {
        self.inner.iter()
    }

    /// Writes the pending values; every value reads as before (see
    /// `StoredVec::flush`).
    pub fn flush(&mut self) -> (r: Result<(), Error>)
        requires
            old(self).wf(),
        ensures
            final(self).wf(),
            final(self).values() == old(self).values(),
            final(self).computed_version_view() == old(self).computed_version_view(),
            final(self).inner_version_view() == old(self).inner_version_view(),
            final(self).format_view() == old(self).format_view(),
            old(self).format_view() is Raw ==> r is Ok,
            r matches Err(e) ==> e is Compression || e is Decompression,
            old(self).stored().flushed(final(self).stored(), r),
    {
        let r = self.inner.flush();
        assert(self.values() =~= old(self).values());
        r
    }

    /// The regions of the vector.
    pub fn region_names(&self) -> (r: Vec<String>)
        ensures
            self.stored().region_names_are(r@),
    {
        self.inner.region_names()
    }

    /// The regions to delete to remove the vector.
    pub fn remove(self) -> (r: Vec<String>)
        ensures
            self.stored().region_names_are(r@),
    {
        self.inner.remove()
    }

    /// Reads value `index` (same as `get`).
    pub fn get_or_read(&self, index: usize) -> (r: Result<Option<u64>, Error>)
        requires
            self.wf(),
        ensures
            self.readable(index as int) ==> r == Ok::<Option<u64>, Error>(self.value_at(index as int)),
            !self.readable(index as int) ==> r == Err::<Option<u64>, Error>(Error::Decompression),
    {
        self.get(index)
    }

    /// Records `version` as the version of the computation; when it differs
    /// from the recorded one, the values computed under the old one are
    /// dropped.
    pub fn validate_computed_version_or_reset(&mut self, version: Version)
        requires
            old(self).wf(),
        ensures
            final(self).wf(),
            final(self).computed_version_view() == version,
            final(self).inner_version_view() == old(self).inner_version_view(),
            final(self).format_view() == old(self).format_view(),
            final(self).values() == old(self).base_values(version),
            old(self).computed_version_view() == version ==> *final(self) == *old(self),
    {
        if version != self.inner.computed_version() {
            self.inner.update_computed_version(version);
            if !self.inner.is_empty() {
                self.inner.reset();
            }
            assert(self.values() =~= Seq::<Option<u64>>::empty());
        } else {
            assert(self.values() =~= old(self).values());
        }
    }

    /// Writes `value` at `index`, which must be at most the length: the
    /// values from `index` on are dropped first.
    pub fn forced_push_at(&mut self, index: usize, value: u64) -> (r: Result<(), Error>)
        requires
            old(self).wf(),
            index < old(self).capacity(),
        ensures
            final(self).wf(),
            final(self).computed_version_view() == old(self).computed_version_view(),
            final(self).inner_version_view() == old(self).inner_version_view(),
            final(self).format_view() == old(self).format_view(),
            index > old(self).spec_len() ==> r == Err::<(), Error>(
                Error::IndexTooHigh { index, len: old(self).spec_len() as usize },
            ) && final(self).values() == old(self).values(),
            index <= old(self).spec_len() ==> r is Ok && final(self).values() == old(self).values().take(
                index as int,
            ).push(Some(value)),
            forall|j: int| j < index && old(self).readable(j) ==> #[trigger] final(self).readable(j),
            index <= old(self).spec_len() ==> final(self).readable(index as int),
    {
        let len = self.inner.len();
        if index > len {
            return Err(Error::IndexTooHigh { index, len });
        }
        self.inner.truncate_if_needed_at(index);
        self.inner.push(value);
        assert(self.values() =~= old(self).values().take(index as int).push(Some(value)));
        Ok(())
    }

    /// A value below the length that reads without failing is there.
    pub proof fn lemma_readable_value(&self, i: int)
        requires
            self.wf(),
            0 <= i < self.spec_len(),
            self.readable(i),
        ensures
            self.value_at(i) is Some,
    {
        self.stored().lemma_readable_value(i);
    }

    /// Reads value `index`, which is below the length.
    pub(crate) fn value(&self, index: usize) -> (r: Result<u64, Error>)
        requires
            self.wf(),
            index < self.spec_len(),
        ensures
            self.readable(index as int) ==> r == Ok::<u64, Error>(self.value_at(index as int)->0)
                && self.value_at(index as int) is Some,
            !self.readable(index as int) ==> r == Err::<u64, Error>(Error::Decompression),
    {
        proof {
            if self.readable(index as int) {
                self.lemma_readable_value(index as int);
            }
        }
        match self.inner.get(index) {
            Ok(Some(v)) => Ok(v),
            Ok(None) => Err(Error::ExpectVecToHaveIndex),
            Err(e) => Err(e),
        }
    }

    /// Records `version` as the version of the computation (dropping the
    /// values of another one) and returns how many values the computation
    /// keeps: `max_from`, or the length when it is smaller.
    pub(crate) fn begin(&mut self, version: Version, max_from: usize) -> (kept: usize)
        requires
            old(self).wf(),
        ensures
            final(self).wf(),
            final(self).computed_version_view() == version,
            final(self).inner_version_view() == old(self).inner_version_view(),
            final(self).format_view() == old(self).format_view(),
            final(self).capacity() == old(self).capacity(),
            final(self).values() == old(self).base_values(version),
            kept == old(self).kept(version, max_from),
            kept <= final(self).spec_len(),
            old(self).computed_version_view() == version ==> *final(self) == *old(self),
    {
        self.validate_computed_version_or_reset(version);
        let len = self.inner.len();
        if max_from < len {
            max_from
        } else {
            len
        }
    }

    /// Computes value `i` as `t(i)` for each `i` from where the stored values
    /// end (or `max_from`, when smaller) up to `to`, under `version`, then
    /// flushes.
    fn compute_indexed<F: Fn(usize) -> u64>(&mut self, version: Version, max_from: usize, to: usize, t: F) -> (r: Result<(), Error>)
        requires
            old(self).wf(),
            to <= old(self).capacity(),
            forall|i: usize| old(self).kept(version, max_from) <= i < to ==> call_requires(t, (i,)),
        ensures
            ({
                let base = old(self).base_values(version);
                let kept = old(self).kept(version, max_from);
                &&& final(self).wf()
                &&& final(self).computed_version_view() == version
                &&& final(self).inner_version_view() == old(self).inner_version_view()
                &&& kept < to ==> final(self).spec_len() == to && final(self).values().take(kept)
                    == base.take(kept) && forall|i: int|
                    kept <= i < to ==> (#[trigger] final(self).value_at(i) matches Some(x)
                        && call_ensures(t, (i as usize,), x))
                &&& kept >= to ==> final(self).values() == base
            }),
            old(self).format_view() is Raw ==> r is Ok,
    {
        let kept = self.begin(version, max_from);
        let mut new: Vec<u64> = Vec::new();
        let start = if kept < to {
            kept
        } else {
            to
        };
        let mut i = start;
        while i < to
            invariant
                start <= i <= to,
                start == if kept < to { kept } else { to },
                new@.len() == i - start,
                forall|j: usize| kept <= j < to ==> call_requires(t, (j,)),
                forall|k: int| 0 <= k < new@.len() ==> call_ensures(t, ((kept + k) as usize,), #[trigger] new@[k]),
            decreases to - i,
        {
            let x = t(i);
            new.push(x);
            i = i + 1;
        }
        let ghost mid = self.values();
        let r = self.finish(kept, new);
        proof {
            if kept < to {
                assert forall|i: int| kept <= i < to implies (#[trigger] self.value_at(i) matches Some(x)
                    && call_ensures(t, (i as usize,), x)) by {
                    let k = i - kept;
                    assert(0 <= k < new@.len());
                    assert(call_ensures(t, ((kept + k) as usize,), new@[k]));
                    assert((kept + k) as usize == i as usize);
                    lemma_replaced_at(mid, kept as int, new@, i);
                    assert(self.values()[i] == self.value_at(i));
                }
                assert(self.values().take(kept as int) =~= mid.take(kept as int));
            }
        }
        r
    }

    /// `compute_indexed` with a function whose results are known: value `i`
    /// becomes `sf(i)`.
    pub(crate) fn compute_exact<F: Fn(usize) -> u64>(
        &mut self,
        version: Version,
        max_from: usize,
        to: usize,
        f: F,
        Ghost(sf): Ghost<spec_fn(int) -> u64>,
    ) -> (r: Result<(), Error>)
        requires
            old(self).wf(),
            to <= old(self).capacity(),
            forall|i: usize| old(self).kept(version, max_from) <= i < to ==> call_requires(f, (i,)),
            forall|i: usize, x: u64| old(self).kept(version, max_from) <= i < to && #[trigger] call_ensures(f, (i,), x) ==> x == sf(i as int),
        ensures
            final(self).wf(),
            final(self).computed_version_view() == version,
            final(self).inner_version_view() == old(self).inner_version_view(),
            final(self).values() == spec_replaced(
                old(self).base_values(version),
                old(self).kept(version, max_from),
                spec_range_values(old(self).kept(version, max_from), to as int, sf),
            ),
            old(self).format_view() is Raw ==> r is Ok,
    {
        let ghost kept = self.kept(version, max_from);
        let ghost base = self.base_values(version);
        let r = self.compute_indexed(version, max_from, to, f);
        proof {
            let new = spec_range_values(kept, to as int, sf);
            if kept < to {
                assert forall|i: int| 0 <= i < self.values().len() implies #[trigger] self.values()[i]
                    == spec_replaced(base, kept, new)[i] by {
                    if i >= kept {
                        assert(self.value_at(i) matches Some(x) && call_ensures(f, (i as usize,), x));
                    }
                }
                assert(self.values() =~= spec_replaced(base, kept, new));
            } else {
                assert(new =~= Seq::<u64>::empty());
            }
        }
        r
    }

    /// Computes value `i` as `t(i)` for each `i` from where the stored
    /// values end (or `max_from`, when smaller) up to `to`, under the version
    /// made of the vector's own and `version`, then flushes.
    pub fn compute_to<F: Fn(usize) -> u64>(&mut self, max_from: usize, to: usize, version: Version, t: F) -> (r: Result<(), Error>)
        requires
            old(self).wf(),
            to <= old(self).capacity(),
            forall|i: usize|
                old(self).kept(vsum(vsum(Version(0), old(self).inner_version_view()), version), max_from)
                    <= i < to ==> call_requires(t, (i,)),
        ensures
            ({
                let v = vsum(vsum(Version(0), old(self).inner_version_view()), version);
                let base = old(self).base_values(v);
                let kept = old(self).kept(v, max_from);
                &&& final(self).wf()
                &&& final(self).computed_version_view() == v
                &&& kept < to ==> final(self).spec_len() == to && final(self).values().take(kept)
                    == base.take(kept) && forall|i: int|
                    kept <= i < to ==> (#[trigger] final(self).value_at(i) matches Some(x)
                        && call_ensures(t, (i as usize,), x))
                &&& kept >= to ==> final(self).values() == base
            }),
            old(self).format_view() is Raw ==> r is Ok,
    {
        let version = Version::zero().plus(self.inner_version()).plus(version);
        self.compute_indexed(version, max_from, to, t)
    }

    /// `compute_to` up to the length of `other`, under its version.
    pub fn compute_range<F: Fn(usize) -> u64>(&mut self, max_from: usize, other: &[u64], other_version: Version, t: F) -> (r: Result<(), Error>)
        requires
            old(self).wf(),
            other@.len() <= old(self).capacity(),
            forall|i: usize|
                old(self).kept(vsum(vsum(Version(0), old(self).inner_version_view()), other_version), max_from)
                    <= i < other@.len() ==> call_requires(t, (i,)),
        ensures
            ({
                let v = vsum(vsum(Version(0), old(self).inner_version_view()), other_version);
                let base = old(self).base_values(v);
                let kept = old(self).kept(v, max_from);
                let to = other@.len() as int;
                &&& final(self).wf()
                &&& final(self).computed_version_view() == v
                &&& kept < to ==> final(self).spec_len() == to && final(self).values().take(kept)
                    == base.take(kept) && forall|i: int|
                    kept <= i < to ==> (#[trigger] final(self).value_at(i) matches Some(x)
                        && call_ensures(t, (i as usize,), x))
                &&& kept >= to ==> final(self).values() == base
            }),
            old(self).format_view() is Raw ==> r is Ok,
    {
        self.compute_to(max_from, other.len(), other_version, t)
    }

    /// Computes value `i` as `i` itself, up to the length of `other`.
    pub fn compute_from_index(&mut self, max_from: usize, other: &[u64], other_version: Version) -> (r: Result<(), Error>)
        requires
            old(self).wf(),
            other@.len() <= old(self).capacity(),
        ensures
            ({
                let v = vsum(vsum(Version(0), old(self).inner_version_view()), other_version);
                let kept = old(self).kept(v, max_from);
                &&& final(self).wf()
                &&& final(self).computed_version_view() == v
                &&& final(self).values() == spec_replaced(
                    old(self).base_values(v),
                    kept,
                    spec_range_values(kept, other@.len() as int, |i: int| i as u64),
                )
            }),
            old(self).format_view() is Raw ==> r is Ok,
    {
        let version = Version::zero().plus(self.inner_version()).plus(other_version);
        let to = other.len();
        let f = |i: usize| -> (x: u64)
            requires
                i < to,
            ensures
                x == i as u64,
            { i as u64 };
        self.compute_exact(version, max_from, to, f, Ghost(|i: int| i as u64))
    }

    /// Computes value `i` as `t(i, other[i])` for each index of `other` from
    /// where the stored values end (or `max_from`, when smaller), under the
    /// version made of the vector's own and `other_version`, then flushes.
    pub fn compute_transform<F: Fn(usize, u64) -> u64>(&mut self, max_from: usize, other: &[u64], other_version: Version, t: F) -> (r: Result<(), Error>)
        requires
            old(self).wf(),
            other@.len() <= old(self).capacity(),
            forall|i: int|
                old(self).kept(vsum(vsum(Version(0), old(self).inner_version_view()), other_version), max_from)
                    <= i < other@.len() ==> call_requires(t, (i as usize, #[trigger] other@[i])),
        ensures
            ({
                let v = vsum(vsum(Version(0), old(self).inner_version_view()), other_version);
                let base = old(self).base_values(v);
                let kept = old(self).kept(v, max_from);
                let to = other@.len() as int;
                &&& final(self).wf()
                &&& final(self).computed_version_view() == v
                &&& kept < to ==> final(self).spec_len() == to && final(self).values().take(kept)
                    == base.take(kept) && forall|i: int|
                    kept <= i < to ==> (#[trigger] final(self).value_at(i) matches Some(x)
                        && call_ensures(t, (i as usize, other@[i]), x))
                &&& kept >= to ==> final(self).values() == base
            }),
            old(self).format_view() is Raw ==> r is Ok,
    {
        let version = Version::zero().plus(self.inner_version()).plus(other_version);
        let ghost kept = self.kept(version, max_from);
        let to = other.len();
        let tr = &t;
        let f = |i: usize| -> (x: u64)
            requires
                kept <= i < to,
                to == other@.len(),
                call_requires(tr, (i, other@[i as int])),
            ensures
                call_ensures(tr, (i, other@[i as int]), x),
            { tr(i, other[i]) };
        self.compute_indexed(version, max_from, to, f)
    }

    /// Computes value `i` as `t(i, other1[i], other2[i])` for each index of
    /// `other1` from where the stored values end (or `max_from`, when
    /// smaller), under the version made of the vector's own and the two
    /// others', then flushes. `other2` must be at least as long as `other1`.
    pub fn compute_transform2<F: Fn(usize, u64, u64) -> u64>(
        &mut self,
        max_from: usize,
        other1: &[u64],
        other1_version: Version,
        other2: &[u64],
        other2_version: Version,
        t: F,
    ) -> (r: Result<(), Error>)
        requires
            old(self).wf(),
            other1@.len() <= old(self).capacity(),
            ({
                let v = vsum(vsum(vsum(Version(0), old(self).inner_version_view()), other1_version), other2_version);
                let kept = old(self).kept(v, max_from);
                &&& kept < other1@.len() ==> other2@.len() >= other1@.len()
                &&& forall|i: int| kept <= i < other1@.len() ==> call_requires(t, (i as usize, #[trigger] other1@[i], other2@[i]))
            }),
        ensures
            ({
                let v = vsum(vsum(vsum(Version(0), old(self).inner_version_view()), other1_version), other2_version);
                let base = old(self).base_values(v);
                let kept = old(self).kept(v, max_from);
                let to = other1@.len() as int;
                &&& final(self).wf()
                &&& final(self).computed_version_view() == v
                &&& kept < to ==> final(self).spec_len() == to && final(self).values().take(kept)
                    == base.take(kept) && forall|i: int|
                    kept <= i < to ==> (#[trigger] final(self).value_at(i) matches Some(x)
                        && call_ensures(t, (i as usize, other1@[i], other2@[i]), x))
                &&& kept >= to ==> final(self).values() == base
            }),
            old(self).format_view() is Raw ==> r is Ok,
    {
        let version = Version::zero().plus(self.inner_version()).plus(other1_version).plus(other2_version);
        let ghost kept = self.kept(version, max_from);
        let to = other1.len();
        let tr = &t;
        let f = |i: usize| -> (x: u64)
            requires
                kept <= i < to,
                kept <= i < other1@.len() ==> other2@.len() >= other1@.len(),
                call_requires(tr, (i, other1@[i as int], other2@[i as int])),
            ensures
                call_ensures(tr, (i, other1@[i as int], other2@[i as int]), x),
            { tr(i, other1[i], other2[i]) };
        self.compute_indexed(version, max_from, to, f)
    }

    /// Computes value `i` as `t(i, ...)` with `other1[i]`, `other2[i]`, `other3[i]`, for each index of
    /// `other1` from where the stored values end (or `max_from`, when
    /// smaller), under the version made of the vector's own and the three
    /// others', then flushes. The others must be at least as long as `other1`.
    pub fn compute_transform3<F: Fn(usize, u64, u64, u64) -> u64>(
        &mut self,
        max_from: usize,
        other1: &[u64],
        other1_version: Version,
        other2: &[u64],
        other2_version: Version,
        other3: &[u64],
        other3_version: Version,
        t: F,
    ) -> (r: Result<(), Error>)
        requires
            old(self).wf(),
            other1@.len() <= old(self).capacity(),
            ({
                let v = vsum(vsum(vsum(vsum(Version(0), old(self).inner_version_view()), other1_version), other2_version), other3_version);
                let kept = old(self).kept(v, max_from);
                &&& kept < other1@.len() ==> other2@.len() >= other1@.len() && other3@.len() >= other1@.len()
                &&& forall|i: int| kept <= i < other1@.len() ==> call_requires(t, (i as usize, #[trigger] other1@[i], other2@[i], other3@[i]))
            }),
        ensures
            ({
                let v = vsum(vsum(vsum(vsum(Version(0), old(self).inner_version_view()), other1_version), other2_version), other3_version);
                let base = old(self).base_values(v);
                let kept = old(self).kept(v, max_from);
                let to = other1@.len() as int;
                &&& final(self).wf()
                &&& final(self).computed_version_view() == v
                &&& kept < to ==> final(self).spec_len() == to && final(self).values().take(kept)
                    == base.take(kept) && forall|i: int|
                    kept <= i < to ==> (#[trigger] final(self).value_at(i) matches Some(x)
                        && call_ensures(t, (i as usize, other1@[i], other2@[i], other3@[i]), x))
                &&& kept >= to ==> final(self).values() == base
            }),
            old(self).format_view() is Raw ==> r is Ok,
    {
        let version = Version::zero().plus(self.inner_version()).plus(other1_version).plus(other2_version).plus(other3_version);
        let ghost kept = self.kept(version, max_from);
        let to = other1.len();
        let tr = &t;
        let f = |i: usize| -> (x: u64)
            requires
                kept <= i < to,
                kept <= i < other1@.len() ==> other2@.len() >= other1@.len() && other3@.len() >= other1@.len(),
                call_requires(tr, (i, other1@[i as int], other2@[i as int], other3@[i as int])),
            ensures
                call_ensures(tr, (i, other1@[i as int], other2@[i as int], other3@[i as int]), x),
            { tr(i, other1[i], other2[i], other3[i]) };
        self.compute_indexed(version, max_from, to, f)
    }

    /// Computes value `i` as `t(i, ...)` with `other1[i]`, `other2[i]`, `other3[i]`, `other4[i]`, for each index of
    /// `other1` from where the stored values end (or `max_from`, when
    /// smaller), under the version made of the vector's own and the four
    /// others', then flushes. The others must be at least as long as `other1`.
    pub fn compute_transform4<F: Fn(usize, u64, u64, u64, u64) -> u64>(
        &mut self,
        max_from: usize,
        other1: &[u64],
        other1_version: Version,
        other2: &[u64],
        other2_version: Version,
        other3: &[u64],
        other3_version: Version,
        other4: &[u64],
        other4_version: Version,
        t: F,
    ) -> (r: Result<(), Error>)
        requires
            old(self).wf(),
            other1@.len() <= old(self).capacity(),
            ({
                let v = vsum(vsum(vsum(vsum(vsum(Version(0), old(self).inner_version_view()), other1_version), other2_version), other3_version), other4_version);
                let kept = old(self).kept(v, max_from);
                &&& kept < other1@.len() ==> other2@.len() >= other1@.len() && other3@.len() >= other1@.len() && other4@.len() >= other1@.len()
                &&& forall|i: int| kept <= i < other1@.len() ==> call_requires(t, (i as usize, #[trigger] other1@[i], other2@[i], other3@[i], other4@[i]))
            }),
        ensures
            ({
                let v = vsum(vsum(vsum(vsum(vsum(Version(0), old(self).inner_version_view()), other1_version), other2_version), other3_version), other4_version);
                let base = old(self).base_values(v);
                let kept = old(self).kept(v, max_from);
                let to = other1@.len() as int;
                &&& final(self).wf()
                &&& final(self).computed_version_view() == v
                &&& kept < to ==> final(self).spec_len() == to && final(self).values().take(kept)
                    == base.take(kept) && forall|i: int|
                    kept <= i < to ==> (#[trigger] final(self).value_at(i) matches Some(x)
                        && call_ensures(t, (i as usize, other1@[i], other2@[i], other3@[i], other4@[i]), x))
                &&& kept >= to ==> final(self).values() == base
            }),
            old(self).format_view() is Raw ==> r is Ok,
    {
        let version = Version::zero().plus(self.inner_version()).plus(other1_version).plus(other2_version).plus(other3_version).plus(other4_version);
        let ghost kept = self.kept(version, max_from);
        let to = other1.len();
        let tr = &t;
        let f = |i: usize| -> (x: u64)
            requires
                kept <= i < to,
                kept <= i < other1@.len() ==> other2@.len() >= other1@.len() && other3@.len() >= other1@.len() && other4@.len() >= other1@.len(),
                call_requires(tr, (i, other1@[i as int], other2@[i as int], other3@[i as int], other4@[i as int])),
            ensures
                call_ensures(tr, (i, other1@[i as int], other2@[i as int], other3@[i as int], other4@[i as int]), x),
            { tr(i, other1[i], other2[i], other3[i], other4[i]) };
        self.compute_indexed(version, max_from, to, f)
    }

    /// Drops the values from `kept` on and writes `new` after the kept ones
    /// (nothing is dropped when `new` is empty), then flushes.
    pub(crate) fn finish(&mut self, kept: usize, new: Vec<u64>) -> (r: Result<(), Error>)
        requires
            old(self).wf(),
            kept <= old(self).spec_len(),
            kept + new@.len() <= old(self).capacity(),
        ensures
            final(self).wf(),
            final(self).computed_version_view() == old(self).computed_version_view(),
            final(self).inner_version_view() == old(self).inner_version_view(),
            final(self).format_view() == old(self).format_view(),
            final(self).capacity() == old(self).capacity(),
            final(self).values() == spec_replaced(old(self).values(), kept as int, new@),
            old(self).format_view() is Raw ==> r is Ok,
            r matches Err(e) ==> e is Compression || e is Decompression,
    {
        let n = new.len();
        if n > 0 {
            self.inner.truncate_if_needed_at(kept);
            let ghost base = self.values();
            assert(base =~= old(self).values().take(kept as int));
            let mut i: usize = 0;
            while i < n
                invariant
                    self.wf(),
                    n == new@.len(),
                    i <= n,
                    kept + n <= self.capacity(),
                    self.spec_len() == kept + i,
                    self.values() == base + new@.take(i as int).map_values(|v: u64| Some(v)),
                    self.computed_version_view() == old(self).computed_version_view(),
                    self.inner_version_view() == old(self).inner_version_view(),
                    self.format_view() == old(self).format_view(),
                decreases n - i,
            {
                let ghost before = self.values();
                self.inner.push(new[i]);
                i = i + 1;
                assert(self.values() =~= before.push(Some(new@[i - 1])));
                assert(new@.take(i as int).map_values(|v: u64| Some(v)) =~= new@.take(
                    (i - 1) as int,
                ).map_values(|v: u64| Some(v)).push(Some(new@[i - 1])));
            }
            assert(new@.take(n as int) =~= new@);
        }
        let ghost before_flush = self.values();
        let r = self.inner.flush();
        assert(self.values() =~= before_flush);
        r
    }
}

} // verus!
