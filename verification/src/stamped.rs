use vstd::prelude::*;

use crate::error::Error;
use crate::header::Header;
use crate::options::ImportOptions;
use crate::stored::StoredVec;
use crate::version::{Format, Stamp};

verus! {

/// A vector of either format whose header records the stamp of its last
/// flush, which callers use to tell which state the stored data is in.
pub trait AnyStampedVec {
    spec fn stamp_view(&self) -> Stamp;

    /// The vector is well formed.
    spec fn stamped_wf(&self) -> bool;

    /// The stamp recorded by the last flush.
    fn stamp(&self) -> (r: Stamp)
        ensures
            r == self.stamp_view(),
    ;

    /// Records `stamp`, then writes the pending values.
    fn flush(&mut self, stamp: Stamp) -> (r: Result<(), Error>)
        requires
            old(self).stamped_wf(),
        ensures
            final(self).stamped_wf(),
            final(self).stamp_view() == stamp,
    ;
}

/// A stored vector that records a stamp at each flush, truncation and reset.
pub struct StampedVec {
    inner: StoredVec,
}

impl StampedVec {
    pub closed spec fn stored(&self) -> StoredVec {
        self.inner
    }

    pub open spec fn wf(&self) -> bool {
        self.stored().wf() && self.stored().holes_free()
    }

    pub open spec fn spec_len(&self) -> nat {
        self.stored().spec_len()
    }

    pub open spec fn value_at(&self, i: int) -> Option<u64> {
        self.stored().value_at(i)
    }

    /// Imports the vector (see `StoredVec::forced_import_with`).
    pub fn forced_import_with(options: &ImportOptions, format: Format, region: Vec<u8>, aux: Vec<u8>) -> (r: Result<StampedVec, Error>)
        requires
            options.version.0 != 0,
        ensures
            r matches Ok(v) ==> v.wf() && v.stored().format_view() == format,
            match r {
                Ok(v) => StoredVec::forced_import_error(*options, format, region@, aux@) is None
                    && v.stored().forced_imported(*options, format, region@, aux@),
                Err(e) => StoredVec::forced_import_error(*options, format, region@, aux@) == Some(e),
            },
    {
        match StoredVec::forced_import_with(options, format, region, aux) {
            Ok(inner) => Ok(StampedVec { inner }),
            Err(e) => Err(e),
        }
    }

    pub fn len(&self) -> (r: usize)
        requires
            self.wf(),
        ensures
            r == self.spec_len(),
    {
        self.inner.len()
    }

    /// The header of the vector (see `StoredVec::header`).
    pub fn header(&self) -> (r: &Header)
        requires
            self.wf(),
        ensures
            r.inner == self.stored().header_inner(),
    {
        self.inner.header()
    }

    /// Value `index`, which must be there and readable.
    pub fn unwrap_read(&self, index: usize) -> (r: u64)
        requires
            self.wf(),
            index < self.spec_len(),
            self.stored().readable(index as int),
        ensures
            self.value_at(index as int) == Some(r),
    {
        proof {
            self.stored().lemma_readable_value(index as int);
        }
        match self.inner.get(index) {
            Ok(Some(v)) => v,
            _ => 0,
        }
    }

    /// Whether the vector has no value `index`: it holds no holes, so that
    /// is when `index` is past its length.
    pub fn hasnt(&self, index: usize) -> (r: bool)
        requires
            self.wf(),
        ensures
            r == (index >= self.spec_len()),
    {
        index >= self.inner.len()
    }

    /// Reads value `index`, pushed or stored (see `StoredVec::get`).
    pub fn get_or_read(&self, index: usize) -> (r: Result<Option<u64>, Error>)
        requires
            self.wf(),
        ensures
            self.stored().readable(index as int) ==> r == Ok::<Option<u64>, Error>(
                self.value_at(index as int),
            ),
            !self.stored().readable(index as int) ==> r == Err::<Option<u64>, Error>(
                Error::Decompression,
            ),
    {
        self.inner.get(index)
    }

    /// Appends `value` as value `index`, which must be the next one: an
    /// earlier index is refused with `IndexTooLow`, a later one with
    /// `IndexTooHigh`.
    pub fn checked_push(&mut self, index: usize, value: u64) -> (r: Result<(), Error>)
        requires
            old(self).wf(),
            old(self).spec_len() < old(self).stored().capacity(),
        ensures
            final(self).wf(),
            index < old(self).spec_len() ==> r == Err::<(), Error>(Error::IndexTooLow) && *final(self) == *old(self),
            index > old(self).spec_len() ==> r == Err::<(), Error>(
                Error::IndexTooHigh { index, len: old(self).spec_len() as usize },
            ) && *final(self) == *old(self),
            index == old(self).spec_len() ==> r is Ok && final(self).spec_len() == index + 1
                && final(self).value_at(index as int) == Some(value) && forall|j: int|
                j != index ==> #[trigger] final(self).value_at(j) == old(self).value_at(j),
    {
        let len = self.inner.len();
        if len > index {
            Err(Error::IndexTooLow)
        } else if len == index {
            self.inner.push(value);
            Ok(())
        } else {
            Err(Error::IndexTooHigh { index, len })
        }
    }

    /// Appends `value` as value `index` when it is the next one; an earlier
    /// index is accepted and nothing is written, a later one is refused with
    /// `IndexTooHigh`.
    pub fn push_if_needed(&mut self, index: usize, value: u64) -> (r: Result<(), Error>)
        requires
            old(self).wf(),
            old(self).spec_len() < old(self).stored().capacity(),
        ensures
            final(self).wf(),
            index < old(self).spec_len() ==> r is Ok && *final(self) == *old(self),
            index > old(self).spec_len() ==> r == Err::<(), Error>(
                Error::IndexTooHigh { index, len: old(self).spec_len() as usize },
            ) && *final(self) == *old(self),
            index == old(self).spec_len() ==> r is Ok && final(self).spec_len() == index + 1
                && final(self).value_at(index as int) == Some(value) && forall|j: int|
                j != index ==> #[trigger] final(self).value_at(j) == old(self).value_at(j),
    {
        let len = self.inner.len();
        if len > index {
            Ok(())
        } else if len == index {
            self.inner.push(value);
            Ok(())
        } else {
            Err(Error::IndexTooHigh { index, len })
        }
    }

    fn update_stamp(&mut self, stamp: Stamp)
        requires
            old(self).wf(),
        ensures
            final(self).wf(),
            final(self).stored().header_inner().stamp == stamp,
            final(self).stored().format_view() == old(self).stored().format_view(),
            final(self).spec_len() == old(self).spec_len(),
            forall|i: int| #[trigger] final(self).value_at(i) == old(self).value_at(i),
    {
        self.inner.update_stamp(stamp);
    }

    /// Drops every value and records the default stamp.
    pub fn reset(&mut self)
        requires
            old(self).wf(),
        ensures
            final(self).wf(),
            final(self).stored().header_inner().stamp == Stamp(0),
            final(self).spec_len() == 0,
            forall|i: int| #[trigger] final(self).value_at(i) is None,
    {
        self.update_stamp(Stamp::default_stamp());
        self.inner.reset();
    }

    /// Records `stamp` and shortens the vector to `index` values when it is
    /// longer.
    pub fn truncate_if_needed(&mut self, index: usize, stamp: Stamp)
        requires
            old(self).wf(),
        ensures
            final(self).wf(),
            final(self).stored().header_inner().stamp == stamp,
            final(self).spec_len() == if index < old(self).spec_len() {
                index as nat
            } else {
                old(self).spec_len()
            },
            forall|i: int| #[trigger]
                final(self).value_at(i) == if i < index {
                    old(self).value_at(i)
                } else {
                    None
                },
    {
        self.update_stamp(stamp);
        let ghost mid = *self;
        self.inner.truncate_if_needed_at(index);
        assert forall|i: int| #[trigger] self.value_at(i) == if i < index {
            old(self).value_at(i)
        } else {
            None
        } by {
            assert(mid.value_at(i) == old(self).value_at(i));
        }
    }
}

impl AnyStampedVec for StampedVec {
    open spec fn stamp_view(&self) -> Stamp {
        self.stored().header_inner().stamp
    }

    open spec fn stamped_wf(&self) -> bool {
        self.wf()
    }

    fn stamp(&self) -> (r: Stamp) {
        self.inner.stamp()
    }

    /// Records `stamp`, then writes the pending values; every value reads as
    /// before.
    fn flush(&mut self, stamp: Stamp) -> (r: Result<(), Error>)
        ensures
            final(self).spec_len() == old(self).spec_len(),
            forall|i: int| #[trigger] final(self).value_at(i) == old(self).value_at(i),
    {
        self.update_stamp(stamp);
        let ghost mid = *self;
        let r = self.inner.flush();
        assert forall|i: int| #[trigger] self.value_at(i) == old(self).value_at(i) by {
            assert(mid.value_at(i) == old(self).value_at(i));
        }
        r
    }
}

} // verus!
