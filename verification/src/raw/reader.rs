use std::marker::PhantomData;
use vstd::prelude::*;
use vstd::slice::slice_subrange;

use crate::codec::Bytes;
use crate::fold::{spec_call_chain, spec_called_on_each, spec_fold};
use crate::header::HEADER_OFFSET;
use crate::raw::read_only::ReadOnlyRawVec;
use crate::raw::read_write::{ReadWriteRawVec, lemma_slot_bounds, spec_stored_values};

verus! {

/// Random-access handle into the persisted values of a raw vector. It sees
/// only the stored values: no holes, updates or pushed values.
pub struct VecReader<'a, T> {
    data: &'a [u8],
    stored_len: usize,
    _marker: PhantomData<T>,
}

/// Forward cursor over the persisted values of a raw vector.
pub struct VecReaderCursor<'a, T> {
    reader: VecReader<'a, T>,
    pos: usize,
}

impl<'a, T: Bytes> VecReader<'a, T> {
    pub closed spec fn data_view(&self) -> Seq<u8> {
        self.data@
    }

    pub closed spec fn len_view(&self) -> nat {
        self.stored_len as nat
    }

    /// The values the reader sees.
    pub open spec fn values(&self) -> Seq<T> {
        spec_stored_values::<T>(self.data_view(), self.len_view())
    }

    pub open spec fn wf(&self) -> bool {
        HEADER_OFFSET + self.len_view() * T::spec_size() <= self.data_view().len()
    }

    /// A reader over the first `stored_len` values past the header of `data`.
    pub fn from_region(data: &'a [u8], stored_len: usize) -> (r: VecReader<'a, T>)
        requires
            HEADER_OFFSET + stored_len * T::spec_size() <= data@.len(),
        ensures
            r.wf(),
            r.data_view() == data@,
            r.len_view() == stored_len,
    {
        VecReader { data, stored_len, _marker: PhantomData }
    }

    pub fn from_read_write(vec: &'a ReadWriteRawVec<T>) -> (r: VecReader<'a, T>)
        requires
            vec.wf(),
        ensures
            r.wf(),
            r.values() == vec.stored_view(),
            r.len_view() == vec.stored_len_view(),
    {
        Self::from_region(vec.region(), vec.stored_len())
    }

    pub fn from_read_only(vec: &'a ReadOnlyRawVec<T>) -> (r: VecReader<'a, T>)
        requires
            vec.wf(),
        ensures
            r.wf(),
            r.values() == vec.stored_view(),
            r.len_view() == vec.stored_len_view(),
    {
        Self::from_region(vec.region(), vec.stored_len())
    }

    /// The value at `index`, which must be below the length.
    pub fn get(&self, index: usize) -> (r: T)
        requires
            self.wf(),
            index < self.len_view(),
        ensures
            r == self.values()[index as int],
    {
        let sz = T::size_of();
        let dlen = self.data.len();
        proof {
            lemma_slot_bounds(index as int, self.stored_len as int, sz as int);
        }
        let start = HEADER_OFFSET + index * sz;
        T::from_bytes(slice_subrange(self.data, start, start + sz))
    }

    /// The value at `index`, or `None` past the length.
    pub fn try_get(&self, index: usize) -> (r: Option<T>)
        requires
            self.wf(),
        ensures
            r == if index < self.len_view() {
                Some(self.values()[index as int])
            } else {
                None
            },
    {
        if index >= self.stored_len {
            return None;
        }
        Some(self.get(index))
    }

    pub fn len(&self) -> (r: usize)
        ensures
            r == self.len_view(),
    {
        self.stored_len
    }

    pub fn is_empty(&self) -> (r: bool)
        ensures
            r == (self.len_view() == 0),
    {
        self.stored_len == 0
    }

    /// A cursor at position 0.
    pub fn cursor(self) -> (r: VecReaderCursor<'a, T>)
        requires
            self.wf(),
        ensures
            r.wf(),
            r.values() == self.values(),
            r.len_view() == self.len_view(),
            r.pos_view() == 0,
    {
        VecReaderCursor { reader: self, pos: 0 }
    }
}

impl<'a, T: Bytes> VecReaderCursor<'a, T> {
    pub closed spec fn pos_view(&self) -> nat {
        self.pos as nat
    }

    pub closed spec fn len_view(&self) -> nat {
        self.reader.len_view()
    }

    pub closed spec fn values(&self) -> Seq<T> {
        self.reader.values()
    }

    pub closed spec fn wf(&self) -> bool {
        &&& self.reader.wf()
        &&& self.pos <= self.reader.len_view()
    }

    pub fn position(&self) -> (r: usize)
        ensures
            r == self.pos_view(),
    {
        self.pos
    }

    /// How many values are left past the position.
    pub fn remaining(&self) -> (r: usize)
        ensures
            r == if self.pos_view() <= self.len_view() {
                self.len_view() - self.pos_view()
            } else {
                0
            },
    {
        self.reader.len().saturating_sub(self.pos)
    }

    /// Moves the position forward by `n`, stopping at the length.
    pub fn advance(&mut self, n: usize)
        requires
            old(self).wf(),
        ensures
            final(self).wf(),
            final(self).values() == old(self).values(),
            final(self).len_view() == old(self).len_view(),
            final(self).pos_view() == if old(self).pos_view() + n < old(self).len_view() {
                old(self).pos_view() + n
            } else {
                old(self).len_view() as int
            },
    {
        let p = self.pos.saturating_add(n);
        let len = self.reader.len();
        self.pos = if p < len {
            p
        } else {
            len
        };
    }

    /// The value at absolute `index`, without moving.
    pub fn get(&self, index: usize) -> (r: Option<T>)
        requires
            self.wf(),
        ensures
            r == if index < self.len_view() {
                Some(self.values()[index as int])
            } else {
                None
            },
    {
        self.reader.try_get(index)
    }

    /// The value at the position, which then moves forward by one.
    pub fn next(&mut self) -> (r: Option<T>)
        requires
            old(self).wf(),
        ensures
            final(self).wf(),
            final(self).values() == old(self).values(),
            final(self).len_view() == old(self).len_view(),
            old(self).pos_view() < old(self).len_view() ==> r == Some(
                old(self).values()[old(self).pos_view() as int],
            ) && final(self).pos_view() == old(self).pos_view() + 1,
            old(self).pos_view() >= old(self).len_view() ==> r is None && final(self).pos_view()
                == old(self).pos_view(),
    {
        match self.reader.try_get(self.pos) {
            Some(v) => {
                self.pos = self.pos + 1;
                Some(v)
            },
            None => None,
        }
    }

    /// Folds `f` over the next `n` values (fewer at the end) and moves past
    /// them.
    pub fn fold<B, F: Fn(B, T) -> B>(&mut self, n: usize, init: B, f: F) -> (r: B)
        requires
            old(self).wf(),
            forall|b: B, t: T| #[trigger] f.requires((b, t)),
        ensures
            final(self).wf(),
            final(self).values() == old(self).values(),
            final(self).len_view() == old(self).len_view(),
            final(self).pos_view() == if old(self).pos_view() + n < old(self).len_view() {
                old(self).pos_view() + n
            } else {
                old(self).len_view() as int
            },
            spec_fold(
                f,
                init,
                old(self).values().subrange(
                    old(self).pos_view() as int,
                    final(self).pos_view() as int,
                ),
                r,
            ),
    {
        let p = self.pos.saturating_add(n);
        let len = self.reader.len();
        let end = if p < len {
            p
        } else {
            len
        };
        let start = self.pos;
        let mut values: Vec<T> = Vec::new();
        while self.pos < end
            invariant
                self.wf(),
                start <= self.pos <= end <= self.len_view(),
                self.values() == old(self).values(),
                self.len_view() == old(self).len_view(),
                start == old(self).pos_view(),
                values@ == self.values().subrange(start as int, self.pos as int),
            decreases end - self.pos,
        {
            let v = self.reader.get(self.pos);
            values.push(v);
            self.pos = self.pos + 1;
            assert(values@ =~= self.values().subrange(start as int, self.pos as int));
        }
        crate::fold::fold_values(&values, init, f)
    }

    /// Calls `f` on each of the next `n` values (fewer at the end) and moves
    /// past them.
    pub fn for_each<F: FnMut(T)>(&mut self, n: usize, f: F)
        requires
            old(self).wf(),
            forall|t: T| #[trigger] f.requires((t,)),
        ensures
            final(self).wf(),
            final(self).values() == old(self).values(),
            final(self).len_view() == old(self).len_view(),
            final(self).pos_view() == if old(self).pos_view() + n < old(self).len_view() {
                old(self).pos_view() + n
            } else {
                old(self).len_view() as int
            },
            spec_called_on_each(
                f,
                old(self).values().subrange(old(self).pos_view() as int, final(self).pos_view() as int),
            ),
    {
        let ghost f0 = f;
        let mut f = f;
        let start = self.pos;
        let ghost mut calls: Seq<F> = seq![f];
        let p = self.pos.saturating_add(n);
        let len = self.reader.len();
        let end = if p < len {
            p
        } else {
            len
        };
        while self.pos < end
            invariant
                self.wf(),
                self.pos <= end <= self.len_view(),
                self.values() == old(self).values(),
                self.len_view() == old(self).len_view(),
                forall|t: T| #[trigger] f.requires((t,)),
                start == old(self).pos_view(),
                start <= self.pos,
                calls.last() == f,
                spec_call_chain(f0, self.values().subrange(start as int, self.pos as int), calls),
            decreases end - self.pos,
        {
            let v = self.reader.get(self.pos);
            let ghost before = f;
            let ghost prev = calls;
            f(v);
            proof {
                calls = calls.push(f);
                let s = self.values().subrange(start as int, self.pos + 1);
                assert forall|i: int| 0 <= i < s.len() implies call_ensures(#[trigger] calls[i], (s[i],), ()) by {
                    if i < s.len() - 1 {
                        assert(calls[i] == prev[i]);
                        assert(s[i] == self.values().subrange(start as int, self.pos as int)[i]);
                    } else {
                        assert(calls[i] == before);
                    }
                }
                assert(spec_call_chain(f0, s, calls));
            }
            self.pos = self.pos + 1;
        }
        assert(spec_call_chain(f0, self.values().subrange(start as int, self.pos as int), calls));
    }
}

} // verus!
