use vstd::prelude::*;
use vstd::slice::slice_subrange;

use crate::codec::Bytes;
use crate::error::Error;
use crate::fold::{fold_values, spec_fold, spec_try_fold, try_fold_values};
use crate::header::{HEADER_OFFSET, Header};
use crate::raw::read_write::{lemma_slot_bounds, spec_stored_values};
use crate::version::Stamp;

verus! {

/// Read-only view of a raw vector: the region and the stored length, without
/// holes, updates or pushed values.
pub struct ReadOnlyRawVec<T> {
    region: Vec<u8>,
    stored_len: usize,
    header: Header,
    _marker: std::marker::PhantomData<T>,
}

impl<T: Bytes> ReadOnlyRawVec<T> {
    pub closed spec fn region_view(&self) -> Seq<u8> {
        self.region@
    }

    pub closed spec fn stored_len_view(&self) -> nat {
        self.stored_len as nat
    }

    pub closed spec fn header_view(&self) -> Header {
        self.header
    }

    pub open spec fn stored_view(&self) -> Seq<T> {
        spec_stored_values::<T>(self.region_view(), self.stored_len_view())
    }

    pub open spec fn wf(&self) -> bool {
        HEADER_OFFSET + self.stored_len_view() * T::spec_size() <= self.region_view().len()
    }

    pub fn new(region: Vec<u8>, stored_len: usize, header: Header) -> (r: ReadOnlyRawVec<T>)
        ensures
            r.region_view() == region@,
            r.stored_len_view() == stored_len,
            r.header_view() == header,
    {
        ReadOnlyRawVec { region, stored_len, header, _marker: std::marker::PhantomData }
    }

    pub fn region(&self) -> (r: &[u8])
        ensures
            r@ == self.region_view(),
    {
        self.region.as_slice()
    }

    pub fn stored_len(&self) -> (r: usize)
        ensures
            r == self.stored_len_view(),
    {
        self.stored_len
    }

    pub fn stamp(&self) -> (r: Stamp)
        ensures
            r == self.header_view().inner.stamp,
    {
        self.header.stamp()
    }

    pub fn reader(&self) -> (r: crate::raw::reader::VecReader<'_, T>)
        requires
            self.wf(),
        ensures
            r.wf(),
            r.values() == self.stored_view(),
            r.len_view() == self.stored_len_view(),
    {
        crate::raw::reader::VecReader::from_read_only(self)
    }

    /// The stored value at `index`, or an error past the length.
    pub fn read_at_once(&self, index: usize) -> (r: Result<T, Error>)
        requires
            self.wf(),
        ensures
            index < self.stored_len_view() ==> r == Ok::<T, Error>(self.stored_view()[index as int]),
            index >= self.stored_len_view() ==> r == Err::<T, Error>(
                Error::IndexTooHigh { index, len: self.stored_len_view() as usize },
            ),
    {
        let len = self.stored_len;
        if index >= len {
            return Err(Error::IndexTooHigh { index, len });
        }
        Ok(self.collect_one_unchecked(index))
    }

    pub fn read_once(&self, index: usize) -> (r: Result<T, Error>)
        requires
            self.wf(),
        ensures
            index < self.stored_len_view() ==> r == Ok::<T, Error>(self.stored_view()[index as int]),
            index >= self.stored_len_view() ==> r == Err::<T, Error>(
                Error::IndexTooHigh { index, len: self.stored_len_view() as usize },
            ),
    {
        self.read_at_once(index)
    }

    fn collect_one_unchecked(&self, index: usize) -> (r: T)
        requires
            self.wf(),
            index < self.stored_len_view(),
        ensures
            r == self.stored_view()[index as int],
    {
        let sz = T::size_of();
        let rlen = self.region.len();
        proof {
            lemma_slot_bounds(index as int, self.stored_len as int, sz as int);
        }
        let start = HEADER_OFFSET + index * sz;
        T::from_bytes(slice_subrange(self.region.as_slice(), start, start + sz))
    }

    /// The stored value at `index`, or `None` past the length.
    pub fn collect_one_at(&self, index: usize) -> (r: Option<T>)
        requires
            self.wf(),
        ensures
            r == if index < self.stored_len_view() {
                Some(self.stored_view()[index as int])
            } else {
                None
            },
    {
        if index >= self.stored_len {
            return None;
        }
        Some(self.collect_one_unchecked(index))
    }

    /// Appends to `buf` the stored values in `[from, to)`, clamped to the
    /// length.
    pub fn read_into_at(&self, from: usize, to: usize, buf: &mut Vec<T>)
        requires
            self.wf(),
        ensures
            ({
                let n = self.stored_len_view() as int;
                let f = if from < n { from as int } else { n };
                let t = if to < n { to as int } else { n };
                final(buf)@ == old(buf)@ + if f < t {
                    self.stored_view().subrange(f, t)
                } else {
                    Seq::empty()
                }
            }),
    {
        let len = self.stored_len;
        let from = if from < len {
            from
        } else {
            len
        };
        let to = if to < len {
            to
        } else {
            len
        };
        if from >= to {
            assert(buf@ =~= old(buf)@ + Seq::<T>::empty());
            return;
        }
        let mut i = from;
        while i < to
            invariant
                self.wf(),
                from <= i <= to <= self.stored_len_view(),
                buf@ == old(buf)@ + self.stored_view().subrange(from as int, i as int),
            decreases to - i,
        {
            let v = self.collect_one_unchecked(i);
            buf.push(v);
            i = i + 1;
            assert(buf@ =~= old(buf)@ + self.stored_view().subrange(from as int, i as int));
        }
    }

    /// Folds `f` over the stored values in `[from, to)`, clamped to the length.
    pub fn fold_range_at<B, F: Fn(B, T) -> B>(&self, from: usize, to: usize, init: B, f: F) -> (r: B)
        requires
            self.wf(),
            forall|b: B, t: T| #[trigger] f.requires((b, t)),
        ensures
            ({
                let n = self.stored_len_view() as int;
                let fr = if from < n { from as int } else { n };
                let t = if to < n { to as int } else { n };
                spec_fold(
                    f,
                    init,
                    if fr < t {
                        self.stored_view().subrange(fr, t)
                    } else {
                        Seq::empty()
                    },
                    r,
                )
            }),
    {
        let mut values: Vec<T> = Vec::new();
        self.read_into_at(from, to, &mut values);
        proof {
            let n = self.stored_len_view() as int;
            let fr = if from < n { from as int } else { n };
            let t = if to < n { to as int } else { n };
            assert(values@ =~= if fr < t {
                self.stored_view().subrange(fr, t)
            } else {
                Seq::empty()
            });
        }
        fold_values(&values, init, f)
    }

    /// Folds `f` over the stored values in `[from, to)`, clamped to the
    /// length, stopping at the first error `f` returns.
    pub fn try_fold_range_at<B, E, F: Fn(B, T) -> Result<B, E>>(&self, from: usize, to: usize, init: B, f: F) -> (r:
        Result<B, E>)
        requires
            self.wf(),
            forall|b: B, t: T| #[trigger] f.requires((b, t)),
        ensures
            ({
                let n = self.stored_len_view() as int;
                let fr = if from < n { from as int } else { n };
                let t = if to < n { to as int } else { n };
                spec_try_fold(
                    f,
                    init,
                    if fr < t {
                        self.stored_view().subrange(fr, t)
                    } else {
                        Seq::empty()
                    },
                    r,
                )
            }),
    {
        let mut values: Vec<T> = Vec::new();
        self.read_into_at(from, to, &mut values);
        proof {
            let n = self.stored_len_view() as int;
            let fr = if from < n { from as int } else { n };
            let t = if to < n { to as int } else { n };
            assert(values@ =~= if fr < t {
                self.stored_view().subrange(fr, t)
            } else {
                Seq::empty()
            });
        }
        try_fold_values(&values, init, f)
    }
}

} // verus!
