use std::collections::{BTreeMap, BTreeSet};
use vstd::prelude::*;
use vstd::slice::slice_subrange;
use vstd::string::StringExecFns;

use crate::codec::Bytes;
use crate::collections::{map_split_off, set_first, set_pop_first, set_split_off};
use crate::error::Error;
use crate::fold::{
    fn_deterministic, fold_values, lemma_fold_deterministic, spec_fold, spec_fold_chain, spec_try_fold,
    try_fold_values,
};
use crate::header::{
    HEADER_OFFSET, Header, HeaderInner, spec_header_bytes, spec_import_header, spec_new_header,
};
use crate::options::ImportOptions;
use crate::raw::read_only::ReadOnlyRawVec;
use crate::raw::reader::VecReader;
use crate::version::{Format, Version};

verus! {

broadcast use {vstd::std_specs::btree::group_btree_axioms, vstd::laws_cmp::group_laws_cmp};

/// The bytes of value `i` in a raw region: values of `sz` bytes follow the
/// header one after the other.
pub open spec fn spec_slot(region: Seq<u8>, i: int, sz: int) -> Seq<u8> {
    region.subrange(HEADER_OFFSET + i * sz, HEADER_OFFSET + (i + 1) * sz)
}

/// The `n` values stored in a raw region.
pub open spec fn spec_stored_values<T: Bytes>(region: Seq<u8>, n: nat) -> Seq<T> {
    Seq::new(n, |i: int| T::spec_from_bytes(spec_slot(region, i, T::spec_size() as int)))
}

pub proof fn lemma_slot_bounds(i: int, n: int, sz: int)
    requires
        0 <= i < n,
        0 < sz,
    ensures
        i * sz + sz == (i + 1) * sz,
        (i + 1) * sz <= n * sz,
        0 <= i * sz,
{
    assert(i * sz + sz == (i + 1) * sz) by (nonlinear_arith);
    assert((i + 1) * sz <= n * sz) by (nonlinear_arith)
        requires
            i + 1 <= n,
            0 < sz,
    ;
    assert(0 <= i * sz) by (nonlinear_arith)
        requires
            0 <= i,
            0 < sz,
    ;
}

/// Read-write raw vector: its region (header, then the stored values), plus
/// the pushed values, holes and updated values not yet written.
pub struct ReadWriteRawVec<T> {
    name: String,
    header: Header,
    region: Vec<u8>,
    stored_len: usize,
    pushed: Vec<T>,
    holes: BTreeSet<usize>,
    prev_holes: BTreeSet<usize>,
    updated: BTreeMap<usize, T>,
    prev_updated: BTreeMap<usize, T>,
    has_stored_holes: bool,
}

impl<T: Bytes> ReadWriteRawVec<T> {
    pub closed spec fn region_view(&self) -> Seq<u8> {
        self.region@
    }

    pub closed spec fn stored_len_view(&self) -> nat {
        self.stored_len as nat
    }

    /// The values persisted in the region.
    pub open spec fn stored_view(&self) -> Seq<T> {
        spec_stored_values::<T>(self.region_view(), self.stored_len_view())
    }

    pub closed spec fn pushed_view(&self) -> Seq<T> {
        self.pushed@
    }

    pub closed spec fn holes_view(&self) -> Set<usize> {
        self.holes@
    }

    pub closed spec fn prev_holes_view(&self) -> Set<usize> {
        self.prev_holes@
    }

    pub closed spec fn updated_view(&self) -> Map<usize, T> {
        self.updated@
    }

    pub closed spec fn prev_updated_view(&self) -> Map<usize, T> {
        self.prev_updated@
    }

    pub closed spec fn name_view(&self) -> Seq<char> {
        self.name@
    }

    pub closed spec fn header_view(&self) -> Header {
        self.header
    }

    pub closed spec fn has_stored_holes_view(&self) -> bool {
        self.has_stored_holes
    }

    pub open spec fn spec_len(&self) -> nat {
        self.stored_len_view() + self.pushed_view().len()
    }

    /// The region holds the header and every stored value, and the length
    /// fits in a `usize`.
    pub open spec fn wf(&self) -> bool {
        &&& HEADER_OFFSET + self.stored_len_view() * T::spec_size() <= self.region_view().len()
        &&& self.spec_len() <= usize::MAX
    }

    /// What a read at index `i` gives, holes, updates and pushed values
    /// included.
    pub open spec fn value_at(&self, i: int) -> Option<T> {
        if i < 0 || i > usize::MAX {
            None
        } else if self.holes_view().contains(i as usize) {
            None
        } else if i >= self.stored_len_view() {
            if i - self.stored_len_view() < self.pushed_view().len() {
                Some(self.pushed_view()[i - self.stored_len_view()])
            } else {
                None
            }
        } else if self.updated_view().contains_key(i as usize) {
            Some(self.updated_view()[i as usize])
        } else {
            Some(self.stored_view()[i])
        }
    }

    /// The values present in `[from, to)`, in order, holes left out.
    pub open spec fn present_values(&self, from: int, to: int) -> Seq<T>
        decreases to - from,
    {
        if to <= from {
            Seq::empty()
        } else {
            let rest = self.present_values(from, to - 1);
            match self.value_at(to - 1) {
                Some(v) => rest.push(v),
                None => rest,
            }
        }
    }

    pub fn name(&self) -> (r: &String)
        ensures
            r@ == self.name_view(),
    {
        &self.name
    }

    pub fn header(&self) -> (r: &Header)
        ensures
            *r == self.header_view(),
    {
        &self.header
    }

    pub fn stored_len(&self) -> (r: usize)
        ensures
            r == self.stored_len_view(),
    {
        self.stored_len
    }

    pub fn pushed_len(&self) -> (r: usize)
        ensures
            r == self.pushed_view().len(),
    {
        self.pushed.len()
    }

    pub fn len(&self) -> (r: usize)
        requires
            self.wf(),
        ensures
            r == self.spec_len(),
    {
        self.stored_len + self.pushed.len()
    }

    pub fn is_empty(&self) -> (r: bool)
        requires
            self.wf(),
        ensures
            r == (self.spec_len() == 0),
    {
        self.len() == 0
    }

    pub fn holes(&self) -> (r: &BTreeSet<usize>)
        ensures
            r@ == self.holes_view(),
    {
        &self.holes
    }

    pub fn prev_holes(&self) -> (r: &BTreeSet<usize>)
        ensures
            r@ == self.prev_holes_view(),
    {
        &self.prev_holes
    }

    pub fn updated(&self) -> (r: &BTreeMap<usize, T>)
        ensures
            r@ == self.updated_view(),
    {
        &self.updated
    }

    pub fn prev_updated(&self) -> (r: &BTreeMap<usize, T>)
        ensures
            r@ == self.prev_updated_view(),
    {
        &self.prev_updated
    }

    pub fn pushed(&self) -> (r: &[T])
        ensures
            r@ == self.pushed_view(),
    {
        self.pushed.as_slice()
    }

    /// The region bytes: the header followed by the stored values.
    pub fn region(&self) -> (r: &[u8])
        ensures
            r@ == self.region_view(),
    {
        self.region.as_slice()
    }

    /// Reads stored value `index` straight from the region.
    fn unchecked_read_at(&self, index: usize) -> (r: T)
        requires
            self.wf(),
            index < self.stored_len_view(),
        ensures
            r == self.stored_view()[index as int],
    {
        let sz = T::size_of();
        let rlen = self.region.len();
        proof {
            lemma_slot_bounds(index as int, self.stored_len as int, sz as int);
        }
        let start = HEADER_OFFSET + index * sz;
        let end = start + sz;
        T::from_bytes(slice_subrange(self.region.as_slice(), start, end))
    }

    /// Reads a stored value; indices at or past the stored length are refused.
    pub fn read_at(&self, index: usize) -> (r: Result<T, Error>)
        requires
            self.wf(),
        ensures
            index < self.stored_len_view() ==> r == Ok::<T, Error>(self.stored_view()[index as int]),
            index >= self.stored_len_view() ==> r == Err::<T, Error>(
                Error::IndexTooHigh { index, len: self.stored_len_view() as usize },
            ),
    {
        let len = self.stored_len;
        if index < len {
            Ok(self.unchecked_read_at(index))
        } else {
            Err(Error::IndexTooHigh { index, len })
        }
    }

    /// Same as `read_at`: the stored value at `index`, or an error past the
    /// stored length.
    pub fn read_at_once(&self, index: usize) -> (r: Result<T, Error>)
        requires
            self.wf(),
        ensures
            index < self.stored_len_view() ==> r == Ok::<T, Error>(self.stored_view()[index as int]),
            index >= self.stored_len_view() ==> r == Err::<T, Error>(
                Error::IndexTooHigh { index, len: self.stored_len_view() as usize },
            ),
    {
        self.read_at(index)
    }

    pub fn read_once(&self, index: usize) -> (r: Result<T, Error>)
        requires
            self.wf(),
        ensures
            index < self.stored_len_view() ==> r == Ok::<T, Error>(self.stored_view()[index as int]),
            index >= self.stored_len_view() ==> r == Err::<T, Error>(
                Error::IndexTooHigh { index, len: self.stored_len_view() as usize },
            ),
    {
        self.read_at_once(index)
    }

    /// Reads value `index` with holes, updates and pushed values taken into
    /// account.
    pub fn get_any_or_read_at(&self, index: usize) -> (r: Result<Option<T>, Error>)
        requires
            self.wf(),
        ensures
            r == Ok::<Option<T>, Error>(self.value_at(index as int)),
    {
        if !self.holes.is_empty() && self.holes.contains(&index) {
            return Ok(None);
        }
        let stored_len = self.stored_len;
        if index >= stored_len {
            let k = index - stored_len;
            if k < self.pushed.len() {
                return Ok(Some(self.pushed[k]));
            } else {
                return Ok(None);
            }
        }
        if !self.updated.is_empty() {
            match self.updated.get(&index) {
                Some(v) => {
                    return Ok(Some(*v));
                },
                None => {},
            }
        }
        Ok(Some(self.unchecked_read_at(index)))
    }

    pub fn get_any_or_read(&self, index: usize) -> (r: Result<Option<T>, Error>)
        requires
            self.wf(),
        ensures
            r == Ok::<Option<T>, Error>(self.value_at(index as int)),
    {
        self.get_any_or_read_at(index)
    }

    /// Same region, stored length, name, header, previous snapshots and
    /// stored-holes flag.
    pub open spec fn same_storage(&self, other: &Self) -> bool {
        &&& self.region_view() == other.region_view()
        &&& self.stored_len_view() == other.stored_len_view()
        &&& self.name_view() == other.name_view()
        &&& self.header_view() == other.header_view()
        &&& self.prev_holes_view() == other.prev_holes_view()
        &&& self.prev_updated_view() == other.prev_updated_view()
        &&& self.has_stored_holes_view() == other.has_stored_holes_view()
    }

    /// The index that the next `fill_first_hole_or_push` fills: the
    /// smallest hole, or the length when there is none.
    pub open spec fn first_empty_index(&self) -> int {
        if self.holes_view() == Set::<usize>::empty() {
            self.spec_len() as int
        } else {
            spec_set_min(self.holes_view()) as int
        }
    }

    pub fn mut_holes(&mut self) -> (r: &mut BTreeSet<usize>)
        ensures
            r@ == old(self).holes_view(),
            final(self).holes_view() == final(r)@,
            final(self).same_storage(old(self)),
            final(self).pushed_view() == old(self).pushed_view(),
            final(self).updated_view() == old(self).updated_view(),
    {
        &mut self.holes
    }

    pub fn mut_updated(&mut self) -> (r: &mut BTreeMap<usize, T>)
        ensures
            r@ == old(self).updated_view(),
            final(self).updated_view() == final(r)@,
            final(self).same_storage(old(self)),
            final(self).pushed_view() == old(self).pushed_view(),
            final(self).holes_view() == old(self).holes_view(),
    {
        &mut self.updated
    }

    pub fn mut_pushed(&mut self) -> (r: &mut Vec<T>)
        ensures
            r@ == old(self).pushed_view(),
            final(self).pushed_view() == final(r)@,
            final(self).same_storage(old(self)),
            final(self).holes_view() == old(self).holes_view(),
            final(self).updated_view() == old(self).updated_view(),
    {
        &mut self.pushed
    }

    /// Appends a value after the last one.
    pub fn push(&mut self, value: T)
        requires
            old(self).wf(),
            old(self).spec_len() < usize::MAX,
        ensures
            final(self).wf(),
            final(self).same_storage(old(self)),
            final(self).pushed_view() == old(self).pushed_view().push(value),
            final(self).holes_view() == old(self).holes_view(),
            final(self).updated_view() == old(self).updated_view(),
            final(self).spec_len() == old(self).spec_len() + 1,
            !old(self).holes_view().contains(old(self).spec_len() as usize) ==> final(self).value_at(
                old(self).spec_len() as int,
            ) == Some(value),
            forall|j: int| j != old(self).spec_len() ==> #[trigger] final(self).value_at(j) == old(self).value_at(j),
    {
        self.pushed.push(value);
    }

    /// Reserves room for `additional` more pushed values.
    pub fn reserve_pushed(&mut self, additional: usize)
        ensures
            final(self).same_storage(old(self)),
            final(self).pushed_view() == old(self).pushed_view(),
            final(self).holes_view() == old(self).holes_view(),
            final(self).updated_view() == old(self).updated_view(),
    {
        self.pushed.reserve(additional);
        assert(self.pushed@ =~= old(self).pushed@);
    }

    /// Overwrites the value at `index`: a pushed value is replaced in place, a
    /// stored one is recorded as updated (and no longer a hole).
    pub fn update_at(&mut self, index: usize, value: T) -> (r: Result<(), Error>)
        requires
            old(self).wf(),
        ensures
            final(self).wf(),
            final(self).same_storage(old(self)),
            index >= old(self).stored_len_view() && index - old(self).stored_len_view() >= old(
                self,
            ).pushed_view().len() ==> {
                &&& r == Err::<(), Error>(
                    Error::IndexTooHigh { index, len: old(self).stored_len_view() as usize },
                )
                &&& *final(self) == *old(self)
            },
            index >= old(self).stored_len_view() && index - old(self).stored_len_view() < old(
                self,
            ).pushed_view().len() ==> {
                &&& r == Ok::<(), Error>(())
                &&& final(self).pushed_view() == old(self).pushed_view().update(
                    index - old(self).stored_len_view(),
                    value,
                )
                &&& final(self).holes_view() == old(self).holes_view()
                &&& final(self).updated_view() == old(self).updated_view()
            },
            index < old(self).stored_len_view() ==> {
                &&& r == Ok::<(), Error>(())
                &&& final(self).pushed_view() == old(self).pushed_view()
                &&& final(self).holes_view() == old(self).holes_view().remove(index)
                &&& final(self).updated_view() == old(self).updated_view().insert(index, value)
            },
            r is Ok && !(index >= old(self).stored_len_view() && old(self).holes_view().contains(
                index,
            )) ==> final(self).value_at(index as int) == Some(value),
            forall|j: int| j != index ==> #[trigger] final(self).value_at(j) == old(self).value_at(j),
    {
        let stored_len = self.stored_len;
        if index >= stored_len {
            let k = index - stored_len;
            if k >= self.pushed.len() {
                return Err(Error::IndexTooHigh { index, len: stored_len });
            }
            self.pushed.set(k, value);
            return Ok(());
        }
        if !self.holes.is_empty() {
            self.holes.remove(&index);
        }
        proof {
            if old(self).holes@.is_empty() {
                assert(old(self).holes@ =~= old(self).holes@.remove(index));
            }
        }
        self.updated.insert(index, value);
        Ok(())
    }

    pub fn update(&mut self, index: usize, value: T) -> (r: Result<(), Error>)
        requires
            old(self).wf(),
        ensures
            final(self).wf(),
            final(self).same_storage(old(self)),
            index >= old(self).spec_len() ==> r == Err::<(), Error>(
                Error::IndexTooHigh { index, len: old(self).stored_len_view() as usize },
            ) && *final(self) == *old(self),
            index < old(self).spec_len() ==> r == Ok::<(), Error>(()),
            r is Ok && !(index >= old(self).stored_len_view() && old(self).holes_view().contains(
                index,
            )) ==> final(self).value_at(index as int) == Some(value),
            forall|j: int| j != index ==> #[trigger] final(self).value_at(j) == old(self).value_at(j),
    {
        self.update_at(index, value)
    }

    /// Marks `index` as a hole without checking it against the length.
    pub fn unchecked_delete_at(&mut self, index: usize)
        requires
            old(self).wf(),
        ensures
            final(self).wf(),
            final(self).same_storage(old(self)),
            final(self).pushed_view() == old(self).pushed_view(),
            final(self).holes_view() == old(self).holes_view().insert(index),
            final(self).updated_view() == old(self).updated_view().remove(index),
            final(self).value_at(index as int) is None,
            forall|j: int| j != index ==> #[trigger] final(self).value_at(j) == old(self).value_at(j),
    {
        if !self.updated.is_empty() {
            self.updated.remove(&index);
        }
        proof {
            if old(self).updated@.is_empty() {
                assert(old(self).updated@ =~= old(self).updated@.remove(index));
            }
        }
        self.holes.insert(index);
    }

    pub fn unchecked_delete(&mut self, index: usize)
        requires
            old(self).wf(),
        ensures
            final(self).wf(),
            final(self).same_storage(old(self)),
            final(self).pushed_view() == old(self).pushed_view(),
            final(self).holes_view() == old(self).holes_view().insert(index),
            final(self).updated_view() == old(self).updated_view().remove(index),
            final(self).value_at(index as int) is None,
            forall|j: int| j != index ==> #[trigger] final(self).value_at(j) == old(self).value_at(j),
    {
        self.unchecked_delete_at(index)
    }

    /// Deletes the value at `index`, leaving a hole; indices past the length
    /// are ignored.
    pub fn delete_at(&mut self, index: usize)
        requires
            old(self).wf(),
        ensures
            final(self).wf(),
            final(self).same_storage(old(self)),
            final(self).pushed_view() == old(self).pushed_view(),
            index < old(self).spec_len() ==> final(self).holes_view() == old(self).holes_view().insert(index)
                && final(self).updated_view() == old(self).updated_view().remove(index),
            index >= old(self).spec_len() ==> *final(self) == *old(self),
            index < old(self).spec_len() ==> final(self).value_at(index as int) is None,
            forall|j: int| j != index ==> #[trigger] final(self).value_at(j) == old(self).value_at(j),
    {
        if index < self.len() {
            self.unchecked_delete_at(index);
        }
    }

    pub fn delete(&mut self, index: usize)
        requires
            old(self).wf(),
        ensures
            final(self).wf(),
            final(self).same_storage(old(self)),
            final(self).pushed_view() == old(self).pushed_view(),
            index < old(self).spec_len() ==> final(self).holes_view() == old(self).holes_view().insert(index)
                && final(self).updated_view() == old(self).updated_view().remove(index),
            index >= old(self).spec_len() ==> *final(self) == *old(self),
            index < old(self).spec_len() ==> final(self).value_at(index as int) is None,
            forall|j: int| j != index ==> #[trigger] final(self).value_at(j) == old(self).value_at(j),
    {
        self.delete_at(index)
    }

    /// The smallest hole, or the length when there is no hole.
    pub fn get_first_empty_index(&self) -> (r: usize)
        requires
            self.wf(),
        ensures
            r == self.first_empty_index(),
            self.holes_view() == Set::<usize>::empty() ==> r == self.spec_len(),
            self.holes_view() != Set::<usize>::empty() ==> self.holes_view().contains(r) && forall|y: usize|
                #[trigger] self.holes_view().contains(y) ==> r <= y,
    {
        match set_first(&self.holes) {
            Some(h) => {
                proof {
                    lemma_set_min(self.holes@, h);
                }
                h
            },
            None => self.len(),
        }
    }

    /// Puts `value` in the smallest hole, or pushes it when there is none, and
    /// returns its index.
    pub fn fill_first_hole_or_push(&mut self, value: T) -> (r: Result<usize, Error>)
        requires
            old(self).wf(),
            old(self).spec_len() < usize::MAX,
        ensures
            final(self).wf(),
            final(self).same_storage(old(self)),
            old(self).holes_view() == Set::<usize>::empty() ==> {
                &&& r == Ok::<usize, Error>(old(self).spec_len() as usize)
                &&& final(self).pushed_view() == old(self).pushed_view().push(value)
                &&& final(self).holes_view() == old(self).holes_view()
                &&& final(self).updated_view() == old(self).updated_view()
            },
            old(self).holes_view() != Set::<usize>::empty() ==> {
                let h = spec_set_min(old(self).holes_view());
                &&& final(self).holes_view() == old(self).holes_view().remove(h)
                &&& h < old(self).spec_len() ==> r == Ok::<usize, Error>(h)
                    && final(self).pushed_view().len() == old(self).pushed_view().len()
                    && final(self).spec_len() == old(self).spec_len()
                &&& h >= old(self).spec_len() ==> r == Err::<usize, Error>(
                    Error::IndexTooHigh { index: h, len: old(self).stored_len_view() as usize },
                ) && final(self).pushed_view() == old(self).pushed_view()
                    && final(self).updated_view() == old(self).updated_view()
            },
            r is Ok ==> r == Ok::<usize, Error>(old(self).first_empty_index() as usize),
            r matches Ok(i) ==> final(self).value_at(i as int) == Some(value),
            r matches Ok(i) ==> forall|j: int| j != i ==> #[trigger] final(self).value_at(j) == old(self).value_at(j),
    {
        match set_pop_first(&mut self.holes) {
            Some(hole) => {
                proof {
                    lemma_set_min(old(self).holes@, hole);
                }
                let ghost mid = *self;
                let res = self.update_at(hole, value);
                match res {
                    Ok(()) => {
                        proof {
                            assert forall|j: int| j != hole implies #[trigger] self.value_at(j)
                                == old(self).value_at(j) by {
                                assert(mid.value_at(j) == old(self).value_at(j));
                            }
                        }
                        Ok(hole)
                    },
                    Err(e) => Err(e),
                }
            },
            None => {
                let len = self.len();
                self.pushed.push(value);
                Ok(len)
            },
        }
    }

    /// Reads the value at `index` and, when there is one, deletes it.
    pub fn take_at(&mut self, index: usize) -> (r: Result<Option<T>, Error>)
        requires
            old(self).wf(),
        ensures
            final(self).wf(),
            final(self).same_storage(old(self)),
            final(self).pushed_view() == old(self).pushed_view(),
            r == Ok::<Option<T>, Error>(old(self).value_at(index as int)),
            old(self).value_at(index as int) is Some ==> final(self).holes_view() == old(
                self,
            ).holes_view().insert(index) && final(self).updated_view() == old(
                self,
            ).updated_view().remove(index),
            old(self).value_at(index as int) is None ==> *final(self) == *old(self),
            final(self).value_at(index as int) is None,
            forall|j: int| j != index ==> #[trigger] final(self).value_at(j) == old(self).value_at(j),
    {
        let opt = self.get_any_or_read_at(index);
        match opt {
            Ok(Some(v)) => {
                self.unchecked_delete_at(index);
                Ok(Some(v))
            },
            Ok(None) => Ok(None),
            Err(e) => Err(e),
        }
    }

    pub fn take(&mut self, index: usize) -> (r: Result<Option<T>, Error>)
        requires
            old(self).wf(),
        ensures
            final(self).wf(),
            final(self).same_storage(old(self)),
            final(self).pushed_view() == old(self).pushed_view(),
            r == Ok::<Option<T>, Error>(old(self).value_at(index as int)),
            old(self).value_at(index as int) is Some ==> final(self).holes_view() == old(
                self,
            ).holes_view().insert(index) && final(self).updated_view() == old(
                self,
            ).updated_view().remove(index),
            old(self).value_at(index as int) is None ==> *final(self) == *old(self),
            final(self).value_at(index as int) is None,
            forall|j: int| j != index ==> #[trigger] final(self).value_at(j) == old(self).value_at(j),
    {
        self.take_at(index)
    }

    /// Every value in `[0, len)`, `None` for holes.
    pub fn collect_holed(&self) -> (r: Result<Vec<Option<T>>, Error>)
        requires
            self.wf(),
        ensures
            r matches Ok(v) && v@ == Seq::new(
                self.spec_len(),
                |i: int| self.value_at(i),
            ),
    {
        let len = self.len();
        self.collect_holed_range(0, len)
    }

    /// The values in `[from, to)` clamped to the length, `None` for holes.
    pub fn collect_holed_range(&self, from: usize, to: usize) -> (r: Result<Vec<Option<T>>, Error>)
        requires
            self.wf(),
        ensures
            ({
                let f = if from < self.spec_len() { from as int } else { self.spec_len() as int };
                let t = if to < self.spec_len() { to as int } else { self.spec_len() as int };
                r matches Ok(v) && v@ == if f >= t {
                    Seq::empty()
                } else {
                    Seq::new((t - f) as nat, |i: int| self.value_at(f + i))
                }
            }),
    {
        let len = self.len();
        let from = if from < len { from } else { len };
        let to = if to < len { to } else { len };
        let mut out: Vec<Option<T>> = Vec::new();
        if from >= to {
            assert(out@ =~= Seq::<Option<T>>::empty());
            return Ok(out);
        }
        let mut i = from;
        while i < to
            invariant
                self.wf(),
                from <= i <= to <= self.spec_len(),
                out@ == Seq::new((i - from) as nat, |k: int| self.value_at(from + k)),
            decreases to - i,
        {
            let v = self.get_any_or_read_at(i);
            match v {
                Ok(x) => {
                    out.push(x);
                },
                Err(e) => {
                    return Err(e);
                },
            }
            i = i + 1;
            assert(out@ =~= Seq::new((i - from) as nat, |k: int| self.value_at(from + k)));
        }
        Ok(out)
    }

    /// The stored values in `[from, to)` as they were at the last write:
    /// previously updated values replace the ones in the region.
    pub fn collect_stored_range(&self, from: usize, to: usize) -> (r: Vec<T>)
        requires
            self.wf(),
            from <= to <= self.stored_len_view(),
        ensures
            r@ == Seq::new(
                (to - from) as nat,
                |k: int|
                    if self.prev_updated_view().contains_key((from + k) as usize) {
                        self.prev_updated_view()[(from + k) as usize]
                    } else {
                        self.stored_view()[from + k]
                    },
            ),
    {
        let mut out: Vec<T> = Vec::new();
        let mut i = from;
        while i < to
            invariant
                self.wf(),
                from <= i <= to <= self.stored_len_view(),
                out@ == Seq::new(
                    (i - from) as nat,
                    |k: int|
                        if self.prev_updated_view().contains_key((from + k) as usize) {
                            self.prev_updated_view()[(from + k) as usize]
                        } else {
                            self.stored_view()[from + k]
                        },
                ),
            decreases to - i,
        {
            match self.prev_updated.get(&i) {
                Some(v) => {
                    out.push(*v);
                },
                None => {
                    let v = self.unchecked_read_at(i);
                    out.push(v);
                },
            }
            i = i + 1;
            assert(out@ =~= Seq::new(
                (i - from) as nat,
                |k: int|
                    if self.prev_updated_view().contains_key((from + k) as usize) {
                        self.prev_updated_view()[(from + k) as usize]
                    } else {
                        self.stored_view()[from + k]
                    },
            ));
        }
        out
    }

    /// Whether some stored value was deleted or updated since the last write.
    pub fn has_dirty_stored(&self) -> (r: bool)
        ensures
            r == (self.holes_view() != Set::<usize>::empty() || self.updated_view().dom()
                != Set::<usize>::empty()),
    {
        let r = !self.holes.is_empty() || !self.updated.is_empty();
        proof {
            if !r {
                assert(self.updated@.dom() =~= Set::<usize>::empty());
            }
        }
        r
    }

    /// Drops the holes and updated values at or after `index`.
    pub fn truncate_dirty_at(&mut self, index: usize)
        requires
            old(self).wf(),
        ensures
            final(self).wf(),
            final(self).same_storage(old(self)),
            final(self).pushed_view() == old(self).pushed_view(),
            final(self).holes_view() == old(self).holes_view().filter(|x: usize| x < index),
            final(self).updated_view() == old(self).updated_view().restrict(
                Set::new(|k: usize| k < index),
            ),
    {
        let _ = set_split_off(&mut self.holes, index);
        let _ = map_split_off(&mut self.updated, index);
    }

    /// Appends to `buf` the values present in `[from, to)`, clamped to the
    /// length, holes skipped.
    pub fn read_into_at(&self, from: usize, to: usize, buf: &mut Vec<T>)
        requires
            self.wf(),
        ensures
            ({
                let f = if from < self.spec_len() { from as int } else { self.spec_len() as int };
                let t = if to < self.spec_len() { to as int } else { self.spec_len() as int };
                final(buf)@ == old(buf)@ + self.present_values(f, t)
            }),
    {
        let len = self.len();
        let from = if from < len { from } else { len };
        let to = if to < len { to } else { len };
        if from >= to {
            assert(buf@ =~= old(buf)@ + self.present_values(from as int, to as int));
            return;
        }
        let mut i = from;
        assert(buf@ =~= old(buf)@ + self.present_values(from as int, from as int));
        while i < to
            invariant
                self.wf(),
                from <= i <= to <= self.spec_len(),
                buf@ == old(buf)@ + self.present_values(from as int, i as int),
            decreases to - i,
        {
            let v = self.get_any_or_read_at(i);
            match v {
                Ok(Some(x)) => {
                    buf.push(x);
                },
                _ => {},
            }
            i = i + 1;
            assert(buf@ =~= old(buf)@ + self.present_values(from as int, i as int));
        }
    }

    /// Folds `f` over the values present in `[from, to)`, clamped to the
    /// length, holes skipped.
    pub fn fold_range_at<B, F: Fn(B, T) -> B>(&self, from: usize, to: usize, init: B, f: F) -> (r: B)
        requires
            self.wf(),
            forall|b: B, t: T| #[trigger] f.requires((b, t)),
        ensures
            ({
                let fr = if from < self.spec_len() { from as int } else { self.spec_len() as int };
                let t = if to < self.spec_len() { to as int } else { self.spec_len() as int };
                spec_fold(f, init, self.present_values(fr, t), r)
            }),
    {
        let mut values: Vec<T> = Vec::new();
        self.read_into_at(from, to, &mut values);
        assert(values@ =~= Seq::<T>::empty() + values@);
        fold_values(&values, init, f)
    }

    /// Folds `f` over the values present in `[from, to)`, clamped to the
    /// length, holes skipped, stopping at the first error `f` returns.
    pub fn try_fold_range_at<B, E, F: Fn(B, T) -> Result<B, E>>(&self, from: usize, to: usize, init: B, f: F) -> (r:
        Result<B, E>)
        requires
            self.wf(),
            forall|b: B, t: T| #[trigger] f.requires((b, t)),
        ensures
            ({
                let fr = if from < self.spec_len() { from as int } else { self.spec_len() as int };
                let t = if to < self.spec_len() { to as int } else { self.spec_len() as int };
                spec_try_fold(f, init, self.present_values(fr, t), r)
            }),
    {
        let mut values: Vec<T> = Vec::new();
        self.read_into_at(from, to, &mut values);
        assert(values@ =~= Seq::<T>::empty() + values@);
        try_fold_values(&values, init, f)
    }

    /// Writes value `v` into slot `index` of the region.
    fn write_slot(&mut self, index: usize, v: T)
        requires
            old(self).wf(),
            index < old(self).stored_len_view(),
        ensures
            final(self).wf(),
            final(self).region_view().len() == old(self).region_view().len(),
            final(self).region_view().subrange(0, HEADER_OFFSET as int) == old(
                self,
            ).region_view().subrange(0, HEADER_OFFSET as int),
            final(self).stored_len_view() == old(self).stored_len_view(),
            final(self).stored_view() == old(self).stored_view().update(index as int, v),
            final(self).pushed_view() == old(self).pushed_view(),
            final(self).holes_view() == old(self).holes_view(),
            final(self).updated_view() == old(self).updated_view(),
            final(self).prev_holes_view() == old(self).prev_holes_view(),
            final(self).prev_updated_view() == old(self).prev_updated_view(),
            final(self).name_view() == old(self).name_view(),
            final(self).header_view() == old(self).header_view(),
            final(self).has_stored_holes_view() == old(self).has_stored_holes_view(),
    {
        let sz = T::size_of();
        let rlen = self.region.len();
        proof {
            lemma_slot_bounds(index as int, self.stored_len as int, sz as int);
            T::lemma_roundtrip(v);
        }
        let start = HEADER_OFFSET + index * sz;
        let bytes = v.to_bytes();
        let ghost old_region = self.region@;
        crate::region::write_all_at(&mut self.region, start, bytes.as_slice());
        proof {
            let n = self.stored_len as int;
            let szi = sz as int;
            assert(self.region@.len() == old_region.len());
            assert forall|j: int| 0 <= j < n implies #[trigger] spec_slot(self.region@, j, szi)
                == if j == index {
                bytes@
            } else {
                spec_slot(old_region, j, szi)
            } by {
                lemma_slot_bounds(j, n, szi);
                if j < index {
                    lemma_slot_bounds(j, index as int, szi);
                } else if j > index {
                    lemma_slot_bounds(index as int, j, szi);
                }
                assert(spec_slot(self.region@, j, szi) =~= if j == index {
                    bytes@
                } else {
                    spec_slot(old_region, j, szi)
                });
            }
            assert(self.stored_view() =~= old(self).stored_view().update(index as int, v));
            assert(self.region@.subrange(0, HEADER_OFFSET as int) =~= old_region.subrange(
                0,
                HEADER_OFFSET as int,
            ));
        }
    }

    /// Appends value `v` to the stored values in the region.
    fn append_stored(&mut self, v: T)
        requires
            old(self).wf(),
            old(self).region_view().len() == HEADER_OFFSET + old(self).stored_len_view()
                * T::spec_size(),
            old(self).region_view().len() + T::spec_size() <= usize::MAX,
            old(self).stored_len_view() < usize::MAX,
            old(self).pushed_view().len() == 0,
        ensures
            final(self).wf(),
            final(self).region_view().len() == HEADER_OFFSET + final(self).stored_len_view()
                * T::spec_size(),
            final(self).region_view().subrange(0, HEADER_OFFSET as int) == old(
                self,
            ).region_view().subrange(0, HEADER_OFFSET as int),
            final(self).stored_len_view() == old(self).stored_len_view() + 1,
            final(self).stored_view() == old(self).stored_view().push(v),
            final(self).pushed_view() == old(self).pushed_view(),
            final(self).holes_view() == old(self).holes_view(),
            final(self).updated_view() == old(self).updated_view(),
            final(self).prev_holes_view() == old(self).prev_holes_view(),
            final(self).prev_updated_view() == old(self).prev_updated_view(),
            final(self).name_view() == old(self).name_view(),
            final(self).header_view() == old(self).header_view(),
            final(self).has_stored_holes_view() == old(self).has_stored_holes_view(),
    {
        let sz = T::size_of();
        proof {
            T::lemma_roundtrip(v);
        }
        let mut bytes = v.to_bytes();
        let ghost old_region = self.region@;
        self.region.append(&mut bytes);
        self.stored_len = self.stored_len + 1;
        proof {
            let n = self.stored_len as int;
            let szi = sz as int;
            assert(n * szi == (n - 1) * szi + szi) by (nonlinear_arith);
            assert forall|j: int| 0 <= j < n implies #[trigger] spec_slot(self.region@, j, szi)
                == if j == n - 1 {
                v.spec_to_bytes()
            } else {
                spec_slot(old_region, j, szi)
            } by {
                lemma_slot_bounds(j, n, szi);
                if j < n - 1 {
                    lemma_slot_bounds(j, n - 1, szi);
                }
                assert(spec_slot(self.region@, j, szi) =~= if j == n - 1 {
                    v.spec_to_bytes()
                } else {
                    spec_slot(old_region, j, szi)
                });
            }
            assert(self.stored_view() =~= old(self).stored_view().push(v));
            assert(self.region@.subrange(0, HEADER_OFFSET as int) =~= old_region.subrange(
                0,
                HEADER_OFFSET as int,
            ));
        }
    }

    /// The stored values once the updated ones are applied.
    pub open spec fn merged_stored(&self) -> Seq<T> {
        Seq::new(
            self.stored_len_view(),
            |i: int|
                if self.updated_view().contains_key(i as usize) {
                    self.updated_view()[i as usize]
                } else {
                    self.stored_view()[i]
                },
        )
    }

    /// Writes the pending changes into the region: the region is first cut
    /// after the stored values (dropping what a truncation left behind), then
    /// updated values are written in place, pushed values after the stored
    /// ones, and the header. Holes are kept. Returns whether anything was
    /// pending.
    pub fn write(&mut self) -> (r: bool)
        requires
            old(self).wf(),
            HEADER_OFFSET + old(self).spec_len() * T::spec_size() <= usize::MAX,
        ensures
            final(self).wf(),
            final(self).region_view().len() == HEADER_OFFSET + final(self).stored_len_view()
                * T::spec_size(),
            final(self).stored_len_view() == old(self).spec_len(),
            final(self).stored_view() == old(self).merged_stored() + old(self).pushed_view(),
            final(self).pushed_view() == Seq::<T>::empty(),
            final(self).updated_view() == Map::<usize, T>::empty(),
            final(self).holes_view() == old(self).holes_view(),
            final(self).prev_holes_view() == old(self).holes_view(),
            final(self).prev_updated_view() == old(self).updated_view(),
            final(self).name_view() == old(self).name_view(),
            final(self).header_view().inner == old(self).header_view().inner,
            !final(self).header_view().modified,
            final(self).region_view().subrange(0, HEADER_OFFSET as int)
                == crate::header::spec_header_bytes(old(self).header_view().inner),
            r == (old(self).pushed_view().len() > 0 || old(self).updated_view().dom() != Set::<
                usize,
            >::empty() || old(self).header_view().modified || old(self).region_view().len()
                != HEADER_OFFSET + old(self).stored_len_view() * T::spec_size()),
            forall|i: int| #[trigger] final(self).value_at(i) == old(self).value_at(i),
    {
        let sz = T::size_of();
        let rlen = self.region.len();
        proof {
            T::lemma_size();
            assert(0 <= self.stored_len * sz) by (nonlinear_arith)
                requires
                    0 <= self.stored_len,
                    0 < sz,
            ;
            assert(HEADER_OFFSET + self.stored_len * sz <= rlen);
        }
        let keep = HEADER_OFFSET + self.stored_len * sz;
        let truncated = self.region.len() != keep;
        let ghost old_self = *self;
        if truncated {
            self.region.truncate(keep);
            proof {
                let szi = sz as int;
                assert forall|j: int| 0 <= j < self.stored_len implies #[trigger] spec_slot(
                    self.region@,
                    j,
                    szi,
                ) == spec_slot(old_self.region@, j, szi) by {
                    lemma_slot_bounds(j, self.stored_len as int, szi);
                    assert(spec_slot(self.region@, j, szi) =~= spec_slot(old_self.region@, j, szi));
                }
                assert(self.stored_view() =~= old_self.stored_view());
            }
        }
        assert(self.merged_stored() =~= old_self.merged_stored());
        let changed = self.write_exact();
        changed || truncated
    }

    /// Writes the pending changes into the region: updated values in place,
    /// pushed values after the stored ones, and the header when it changed.
    /// Holes are kept. Returns whether anything was pending.
    fn write_exact(&mut self) -> (r: bool)
        requires
            old(self).wf(),
            old(self).region_view().len() == HEADER_OFFSET + old(self).stored_len_view()
                * T::spec_size(),
            HEADER_OFFSET + old(self).spec_len() * T::spec_size() <= usize::MAX,
        ensures
            final(self).wf(),
            final(self).region_view().len() == HEADER_OFFSET + final(self).stored_len_view()
                * T::spec_size(),
            final(self).stored_len_view() == old(self).spec_len(),
            final(self).stored_view() == old(self).merged_stored() + old(self).pushed_view(),
            final(self).pushed_view() == Seq::<T>::empty(),
            final(self).updated_view() == Map::<usize, T>::empty(),
            final(self).holes_view() == old(self).holes_view(),
            final(self).prev_holes_view() == old(self).holes_view(),
            final(self).prev_updated_view() == old(self).updated_view(),
            final(self).name_view() == old(self).name_view(),
            final(self).header_view().inner == old(self).header_view().inner,
            !final(self).header_view().modified,
            final(self).region_view().subrange(0, HEADER_OFFSET as int)
                == crate::header::spec_header_bytes(old(self).header_view().inner),
            r == (old(self).pushed_view().len() > 0 || old(self).updated_view().dom() != Set::<
                usize,
            >::empty() || old(self).header_view().modified),
            forall|i: int| #[trigger] final(self).value_at(i) == old(self).value_at(i),
    {
        let changed = !self.pushed.is_empty() || !self.updated.is_empty() || self.header.modified;
        proof {
            if !changed {
                assert(self.updated@.dom() =~= Set::<usize>::empty());
            }
        }
        let ghost old_self = *self;
        proof {
            T::lemma_size();
        }
        let mut header = self.header;
        header.write(&mut self.region);
        self.header = header;
        proof {
            let hb = crate::header::spec_header_bytes(old_self.header.inner);
            assert(hb.len() == HEADER_OFFSET) by {
                crate::header::lemma_header_roundtrip(old_self.header.inner);
            }
            assert(self.region@.len() == old_self.region@.len());
            assert(self.region@.subrange(HEADER_OFFSET as int, self.region@.len() as int) =~= old_self.region@.subrange(HEADER_OFFSET as int, self.region@.len() as int));
            let szi = T::spec_size() as int;
            assert forall|j: int| 0 <= j < self.stored_len implies #[trigger] spec_slot(self.region@, j, szi) == spec_slot(old_self.region@, j, szi) by {
                lemma_slot_bounds(j, self.stored_len as int, szi);
                assert(spec_slot(self.region@, j, szi) =~= spec_slot(old_self.region@, j, szi));
            }
            assert(self.stored_view() =~= old_self.stored_view());
            assert(self.region@.subrange(0, HEADER_OFFSET as int) =~= hb);
        }
        let ghost after_header = *self;
        let n = self.stored_len;
        let mut i: usize = 0;
        while i < n
            invariant
                self.wf(),
                n == self.stored_len_view(),
                n == old_self.stored_len_view(),
                i <= n,
                self.region_view().len() == old_self.region_view().len(),
                self.region_view().subrange(0, HEADER_OFFSET as int) == after_header.region_view().subrange(0, HEADER_OFFSET as int),
                self.pushed_view() == old_self.pushed_view(),
                self.holes_view() == old_self.holes_view(),
                self.updated_view() == old_self.updated_view(),
                self.prev_holes_view() == old_self.prev_holes_view(),
                self.prev_updated_view() == old_self.prev_updated_view(),
                self.name_view() == old_self.name_view(),
                self.header_view() == after_header.header_view(),
                forall|k: int| 0 <= k < i ==> #[trigger] self.stored_view()[k] == old_self.merged_stored()[k],
                forall|k: int| i <= k < n ==> #[trigger] self.stored_view()[k] == old_self.stored_view()[k],
            decreases n - i,
        {
            let upd = self.updated.get(&i);
            match upd {
                Some(v) => {
                    let v = *v;
                    self.write_slot(i, v);
                },
                None => {},
            }
            i = i + 1;
        }
        assert(self.stored_view() =~= old_self.merged_stored());
        let mut values: Vec<T> = Vec::new();
        std::mem::swap(&mut values, &mut self.pushed);
        let pn = values.len();
        let mut k: usize = 0;
        let sz = T::size_of();
        while k < pn
            invariant
                self.wf(),
                k <= pn,
                values@ == old_self.pushed_view(),
                pn == old_self.pushed_view().len(),
                sz == T::spec_size(),
                1 <= sz <= 16,
                HEADER_OFFSET + old_self.spec_len() * T::spec_size() <= usize::MAX,
                old_self.spec_len() == n + pn,
                old_self.spec_len() <= usize::MAX,
                self.stored_len_view() == n + k,
                n == old_self.stored_len_view(),
                self.region_view().len() == HEADER_OFFSET + self.stored_len_view() * T::spec_size(),
                self.region_view().subrange(0, HEADER_OFFSET as int) == after_header.region_view().subrange(0, HEADER_OFFSET as int),
                self.stored_view() == old_self.merged_stored() + old_self.pushed_view().subrange(0, k as int),
                self.pushed_view() == Seq::<T>::empty(),
                self.holes_view() == old_self.holes_view(),
                self.updated_view() == old_self.updated_view(),
                self.prev_holes_view() == old_self.prev_holes_view(),
                self.prev_updated_view() == old_self.prev_updated_view(),
                self.name_view() == old_self.name_view(),
                self.header_view() == after_header.header_view(),
            decreases pn - k,
        {
            let v = values[k];
            proof {
                let a = (n + k) as int;
                let b = old_self.spec_len() as int;
                let szi = sz as int;
                assert(a + 1 <= b);
                assert((a + 1) * szi <= b * szi) by (nonlinear_arith)
                    requires
                        a + 1 <= b,
                        0 < szi,
                ;
                assert((a + 1) * szi == a * szi + szi) by (nonlinear_arith);
            }
            self.append_stored(v);
            k = k + 1;
            assert(self.stored_view() =~= old_self.merged_stored() + old_self.pushed_view().subrange(0, k as int));
        }
        assert(old_self.pushed_view().subrange(0, pn as int) =~= old_self.pushed_view());
        self.pushed = Vec::new();
        let mut taken: BTreeMap<usize, T> = BTreeMap::new();
        std::mem::swap(&mut taken, &mut self.updated);
        self.prev_updated = taken;
        self.prev_holes = self.holes.clone();
        proof {
            assert forall|i: int| #[trigger] self.value_at(i) == old_self.value_at(i) by {
                if 0 <= i <= usize::MAX && !self.holes_view().contains(i as usize) {
                    if i < old_self.stored_len_view() {
                    } else if i < old_self.spec_len() {
                    }
                }
            }
        }
        changed
    }

    /// A reader over the stored values.
    pub fn reader(&self) -> (r: VecReader<'_, T>)
        requires
            self.wf(),
        ensures
            r.wf(),
            r.values() == self.stored_view(),
            r.len_view() == self.stored_len_view(),
    {
        VecReader::from_read_write(self)
    }

    /// A read-only copy that sees the stored values only.
    pub fn read_only_clone(&self) -> (r: ReadOnlyRawVec<T>)
        requires
            self.wf(),
        ensures
            r.wf(),
            r.stored_view() == self.stored_view(),
            r.stored_len_view() == self.stored_len_view(),
            r.header_view() == self.header_view(),
    {
        let region = self.region.clone();
        assert(region@ =~= self.region@);
        ReadOnlyRawVec::new(region, self.stored_len, self.header)
    }

    /// A pushed value for indices at or past the reader's length, the value
    /// the reader sees below it; holes and updates are not looked at.
    pub fn get_pushed_or_read_at(&self, index: usize, reader: &VecReader<'_, T>) -> (r: Option<T>)
        requires
            reader.wf(),
        ensures
            r == if index >= reader.len_view() {
                if index - reader.len_view() < self.pushed_view().len() {
                    Some(self.pushed_view()[index - reader.len_view()])
                } else {
                    None
                }
            } else {
                Some(reader.values()[index as int])
            },
    {
        let stored_len = reader.len();
        if index >= stored_len {
            let k = index - stored_len;
            if k < self.pushed.len() {
                return Some(self.pushed[k]);
            }
            return None;
        }
        Some(reader.get(index))
    }

    pub fn get_pushed_or_read(&self, index: usize, reader: &VecReader<'_, T>) -> (r: Option<T>)
        requires
            reader.wf(),
        ensures
            r == if index >= reader.len_view() {
                if index - reader.len_view() < self.pushed_view().len() {
                    Some(self.pushed_view()[index - reader.len_view()])
                } else {
                    None
                }
            } else {
                Some(reader.values()[index as int])
            },
    {
        self.get_pushed_or_read_at(index, reader)
    }

    /// Shortens the vector to `index` values when it is longer: pushed values
    /// past it are dropped, the stored length shrinks, and holes and updates
    /// at or past it are forgotten.
    pub fn truncate_if_needed_at(&mut self, index: usize)
        requires
            old(self).wf(),
        ensures
            final(self).wf(),
            index >= old(self).spec_len() ==> *final(self) == *old(self),
            final(self).header_view() == old(self).header_view(),
            final(self).name_view() == old(self).name_view(),
            index < old(self).spec_len() ==> {
                &&& final(self).spec_len() == index
                &&& final(self).region_view() == old(self).region_view()
                &&& final(self).stored_len_view() == if index < old(self).stored_len_view() {
                    index as nat
                } else {
                    old(self).stored_len_view()
                }
                &&& final(self).holes_view() == old(self).holes_view().filter(|x: usize| x < index)
                &&& final(self).updated_view() == old(self).updated_view().restrict(
                    Set::new(|k: usize| k < index),
                )
                &&& forall|i: int| #[trigger]
                    final(self).value_at(i) == if i < index {
                        old(self).value_at(i)
                    } else {
                        None
                    }
            },
    {
        let len = self.len();
        if index >= len {
            return;
        }
        let ghost old_self = *self;
        if index <= self.stored_len {
            self.pushed.clear();
            proof {
                let sz = T::spec_size() as int;
                T::lemma_size();
                assert(index * sz <= self.stored_len * sz) by (nonlinear_arith)
                    requires
                        index <= self.stored_len,
                        0 < sz,
                ;
                assert forall|i: int| 0 <= i < index implies #[trigger] spec_stored_values::<T>(
                    self.region@,
                    index as nat,
                )[i] == old_self.stored_view()[i] by {}
            }
            self.stored_len = index;
            assert(self.stored_view() =~= old_self.stored_view().subrange(0, index as int));
        } else {
            self.pushed.truncate(index - self.stored_len);
        }
        self.truncate_dirty_at(index);
    }

    /// A written vector (its region holding exactly the header and the stored
    /// values) whose header imports under the raw version of
    /// `options.version` imports back from its region, without a holes
    /// region, without error; the imported vector holds the same stored
    /// values and reads each of them.
    pub proof fn lemma_written_imports(&self, imported: &Self, options: &ImportOptions, format: Format)
        requires
            self.wf(),
            self.region_view().len() == HEADER_OFFSET + self.stored_len_view() * T::spec_size(),
            spec_import_header(self.region_view(), spec_raw_version(options.version), format) is Ok,
            imported.imported(options, format, self.region_view(), None),
        ensures
            Self::spec_import_error(options.version, format, self.region_view(), None) is None,
            imported.stored_len_view() == self.stored_len_view(),
            imported.stored_view() == self.stored_view(),
            forall|i: int|
                0 <= i < self.stored_len_view() ==> #[trigger] imported.value_at(i) == Some(
                    self.stored_view()[i],
                ),
    {
        let sz = T::spec_size() as int;
        let n = self.stored_len_view() as int;
        T::lemma_size();
        vstd::arithmetic::div_mod::lemma_mod_multiples_basic(n, sz);
        vstd::arithmetic::div_mod::lemma_div_multiples_vanish(n, sz);
        assert(n * sz == sz * n) by (nonlinear_arith);
        assert(imported.holes_view() =~= Set::<usize>::empty());
    }

    /// The name of the region that holds the holes of the vector `name`.
    pub fn holes_region_name_with(name: &str) -> (r: String)
        ensures
            r@ == name@ + "_holes"@,
    {
        name.to_owned().concat("_holes")
    }

    /// The name of the region that holds the holes of this vector.
    pub fn holes_region_name(&self) -> (r: String)
        ensures
            r@ == self.name_view() + "_holes"@,
    {
        Self::holes_region_name_with(self.name.as_str())
    }

    /// The regions of the vector: its own region, named after it, and its
    /// holes region when it has one on disk.
    pub fn region_names(&self) -> (r: Vec<String>)
        ensures
            r@.len() == if self.has_stored_holes_view() { 2int } else { 1int },
            r@[0]@ == self.name_view(),
            self.has_stored_holes_view() ==> r@[1]@ == self.name_view() + "_holes"@,
    {
        let mut regions: Vec<String> = Vec::new();
        let holes = self.holes_region_name();
        regions.push(self.name.clone());
        if self.has_stored_holes {
            regions.push(holes);
        }
        regions
    }

    /// The regions to delete to remove the vector (see `region_names`).
    pub fn remove(self) -> (r: Vec<String>)
        ensures
            r@.len() == if self.has_stored_holes_view() { 2int } else { 1int },
            r@[0]@ == self.name_view(),
            self.has_stored_holes_view() ==> r@[1]@ == self.name_view() + "_holes"@,
    {
        self.region_names()
    }

    /// The region's bytes, header included.
    pub fn create_reader(&self) -> (r: &[u8])
        ensures
            r@ == self.region_view(),
    {
        self.region.as_slice()
    }

    /// Folds `f` over the stored values from `from` to `to`, both cut at the
    /// stored length; pushed values, holes and updates are not looked at.
    fn fold_stored<B, F: Fn(B, T) -> B>(&self, from: usize, to: usize, init: B, f: F) -> (r: B)
        requires
            self.wf(),
            forall|b: B, t: T| #[trigger] f.requires((b, t)),
        ensures
            self.stored_folds_to(from, to, init, f, r),
    {
        let stored_len = self.stored_len;
        let from = if from < stored_len {
            from
        } else {
            stored_len
        };
        let to = if to < stored_len {
            to
        } else {
            stored_len
        };
        if from >= to {
            proof {
                let accs = seq![init];
                assert(spec_fold_chain(f, init, Seq::<T>::empty(), accs, init));
            }
            return init;
        }
        let mut values: Vec<T> = Vec::new();
        let mut i = from;
        while i < to
            invariant
                self.wf(),
                from <= i <= to,
                to <= self.stored_len_view(),
                values@ == self.stored_view().subrange(from as int, i as int),
            decreases to - i,
        {
            match self.read_once(i) {
                Ok(v) => values.push(v),
                Err(_) => {},
            }
            i = i + 1;
            assert(values@ =~= self.stored_view().subrange(from as int, i as int));
        }
        fold_values(&values, init, f)
    }

    /// `r` is what folding `f` from `init` over the stored values from `from`
    /// to `to` gives, both cut at the stored length; `init` when that range
    /// is empty. Pushed values, holes and updates are left out.
    pub open spec fn stored_folds_to<B, F: Fn(B, T) -> B>(&self, from: usize, to: usize, init: B, f: F, r: B) -> bool {
        let n = self.stored_len_view() as int;
        let fr = if from < n { from as int } else { n };
        let t = if to < n { to as int } else { n };
        spec_fold(f, init, if fr < t { self.stored_view().subrange(fr, t) } else { Seq::empty() }, r)
    }

    /// Folds `f` over the stored values from `from` to `to` (see
    /// `fold_stored`), reading them the way file I/O does.
    pub fn fold_stored_io<B, F: Fn(B, T) -> B>(&self, from: usize, to: usize, init: B, f: F) -> (r: B)
        requires
            self.wf(),
            forall|b: B, t: T| #[trigger] f.requires((b, t)),
        ensures
            self.stored_folds_to(from, to, init, f, r),
    {
        self.fold_stored(from, to, init, f)
    }

    /// Folds `f` over the stored values from `from` to `to` (see
    /// `fold_stored`), reading them the way a memory map does.
    pub fn fold_stored_mmap<B, F: Fn(B, T) -> B>(&self, from: usize, to: usize, init: B, f: F) -> (r: B)
        requires
            self.wf(),
            forall|b: B, t: T| #[trigger] f.requires((b, t)),
        ensures
            self.stored_folds_to(from, to, init, f, r),
    {
        self.fold_stored(from, to, init, f)
    }

    /// Folding through a memory map and through file reads agree: for an `f`
    /// that gives one result for each pair of arguments, `fold_stored_mmap`
    /// and `fold_stored_io` over the same range from the same start give the
    /// same result.
    pub proof fn lemma_fold_stored_mmap_io<B, F: Fn(B, T) -> B>(
        &self,
        from: usize,
        to: usize,
        init: B,
        f: F,
        r_mmap: B,
        r_io: B,
    )
        requires
            self.wf(),
            fn_deterministic(f),
            self.stored_folds_to(from, to, init, f, r_mmap),
            self.stored_folds_to(from, to, init, f, r_io),
        ensures
            r_mmap == r_io,
    {
        let n = self.stored_len_view() as int;
        let fr = if from < n { from as int } else { n };
        let t = if to < n { to as int } else { n };
        lemma_fold_deterministic(
            f,
            init,
            if fr < t { self.stored_view().subrange(fr, t) } else { Seq::empty() },
            r_mmap,
            r_io,
        );
    }

    /// Records the stamp of the last flush.
    pub fn update_stamp(&mut self, stamp: crate::version::Stamp)
        requires
            old(self).wf(),
        ensures
            final(self).wf(),
            final(self).header_view().inner == (crate::header::HeaderInner {
                stamp,
                ..old(self).header_view().inner
            }),
            final(self).header_view().modified,
            final(self).region_view() == old(self).region_view(),
            final(self).stored_len_view() == old(self).stored_len_view(),
            final(self).pushed_view() == old(self).pushed_view(),
            final(self).holes_view() == old(self).holes_view(),
            final(self).updated_view() == old(self).updated_view(),
            final(self).name_view() == old(self).name_view(),
            forall|i: int| #[trigger] final(self).value_at(i) == old(self).value_at(i),
    {
        self.header.update_stamp(stamp);
    }

    /// Records the version of the computation that fills this vector.
    pub fn update_computed_version(&mut self, computed_version: Version)
        requires
            old(self).wf(),
        ensures
            final(self).wf(),
            final(self).header_view().inner == (crate::header::HeaderInner {
                computed_version,
                ..old(self).header_view().inner
            }),
            final(self).header_view().modified,
            final(self).region_view() == old(self).region_view(),
            final(self).stored_len_view() == old(self).stored_len_view(),
            final(self).pushed_view() == old(self).pushed_view(),
            final(self).holes_view() == old(self).holes_view(),
            final(self).updated_view() == old(self).updated_view(),
            final(self).name_view() == old(self).name_view(),
            forall|i: int| #[trigger] final(self).value_at(i) == old(self).value_at(i),
    {
        self.header.update_computed_version(computed_version);
    }

    /// Drops every value: stored, pushed, holes and updates.
    pub fn reset(&mut self)
        requires
            old(self).wf(),
        ensures
            final(self).wf(),
            final(self).spec_len() == 0,
            final(self).stored_len_view() == 0,
            final(self).region_view() == old(self).region_view(),
            final(self).header_view() == old(self).header_view(),
            final(self).name_view() == old(self).name_view(),
            final(self).holes_view() == Set::<usize>::empty(),
            final(self).updated_view() == Map::<usize, T>::empty(),
            forall|i: int| #[trigger] final(self).value_at(i) is None,
    {
        self.pushed.clear();
        self.stored_len = 0;
        self.holes.clear();
        self.updated.clear();
    }

    /// Whether an import error makes a forced import start the vector over.
    pub open spec fn resets_on(e: Error) -> bool {
        e is WrongEndian || e is WrongLength || e is DifferentCompressionMode
            || e is DifferentVersion
    }

    /// The error importing a raw vector gives, if any.
    pub open spec fn spec_import_error(
        version: Version,
        format: Format,
        region: Seq<u8>,
        holes_region: Option<Seq<u8>>,
    ) -> Option<Error> {
        let v = spec_raw_version(version);
        if region.len() > 0 && spec_import_header(region, v, format) is Err {
            Some(spec_import_header(region, v, format)->Err_0)
        } else if region.len() > HEADER_OFFSET && (region.len() - HEADER_OFFSET) % (
        T::spec_size() as int) != 0 {
            Some(Error::CorruptedRegion { region_len: region.len() as usize })
        } else if holes_region is Some && holes_region->0.len() % 8 != 0 {
            Some(Error::WrongLength)
        } else {
            None
        }
    }

    /// The state of a vector imported without error.
    pub open spec fn imported(
        &self,
        options: &ImportOptions,
        format: Format,
        region: Seq<u8>,
        holes_region: Option<Seq<u8>>,
    ) -> bool {
        let v = spec_raw_version(options.version);
        &&& self.wf()
        &&& self.name_view() == options.name@
        &&& !self.header_view().modified
        &&& self.pushed_view() == Seq::<T>::empty()
        &&& self.updated_view() == Map::<usize, T>::empty()
        &&& self.prev_updated_view() == Map::<usize, T>::empty()
        &&& self.holes_view() == spec_holes_from_region(holes_region)
        &&& self.prev_holes_view() == self.holes_view()
        &&& self.has_stored_holes_view() == (holes_region is Some)
        &&& if region.len() == 0 {
            &&& self.header_view().inner == spec_new_header(v, format)
            &&& self.region_view() == spec_header_bytes(self.header_view().inner)
            &&& self.stored_len_view() == 0
        } else {
            &&& spec_import_header(region, v, format) == Ok::<HeaderInner, Error>(
                self.header_view().inner,
            )
            &&& self.region_view() == region
            &&& self.stored_len_view() == (region.len() - HEADER_OFFSET) / (
            T::spec_size() as int)
        }
    }

    /// Imports a raw vector from its region and, when it has one, its holes
    /// region. An empty region starts a new vector: its header is written.
    pub fn import_with(
        options: &ImportOptions,
        format: Format,
        region: Vec<u8>,
        holes_region: Option<&[u8]>,
    ) -> (r: Result<Self, Error>)
        ensures
            ({
                let holes_seq = match holes_region {
                    Some(h) => Some(h@),
                    None => None,
                };
                match r {
                    Ok(v) => Self::spec_import_error(options.version, format, region@, holes_seq)
                        is None && v.imported(options, format, region@, holes_seq),
                    Err(e) => Self::spec_import_error(options.version, format, region@, holes_seq)
                        == Some(e),
                }
            }),
    {
        let version = options.version.plus(Version(RAW_VERSION));
        let sz = T::size_of();
        let mut region = region;
        let ghost input = region@;
        let header = if region.len() == 0 {
            let h = Header::create_and_write(&mut region, version, format);
            proof {
                crate::header::lemma_header_roundtrip(h.inner);
                assert(region@ =~= spec_header_bytes(h.inner));
            }
            h
        } else {
            match Header::import_and_verify(region.as_slice(), version, format) {
                Ok(h) => h,
                Err(e) => {
                    return Err(e);
                },
            }
        };
        let region_len = region.len();
        if region_len > HEADER_OFFSET && (region_len - HEADER_OFFSET) % sz != 0 {
            return Err(Error::CorruptedRegion { region_len });
        }
        let holes = match holes_region {
            Some(bytes) => {
                if bytes.len() % 8 != 0 {
                    return Err(Error::WrongLength);
                }
                holes_from_bytes(bytes)
            },
            None => BTreeSet::new(),
        };
        let stored_len = if region_len > HEADER_OFFSET {
            (region_len - HEADER_OFFSET) / sz
        } else {
            0
        };
        proof {
            assert(input.len() > 0 ==> region_len >= HEADER_OFFSET);
            let q = stored_len as int;
            let d = (region_len - HEADER_OFFSET) as int;
            if region_len > HEADER_OFFSET {
                assert(q * sz <= d) by (nonlinear_arith)
                    requires
                        q == d / (sz as int),
                        0 < sz,
                        0 <= d,
                ;
            }
        }
        let prev_holes = holes.clone();
        Ok(
            ReadWriteRawVec {
                name: options.name.clone(),
                header,
                region,
                stored_len,
                pushed: Vec::new(),
                holes,
                prev_holes,
                updated: BTreeMap::new(),
                prev_updated: BTreeMap::new(),
                has_stored_holes: holes_region.is_some(),
            },
        )
    }

    /// The options a forced import hands on to `import_with`: the same, with
    /// the raw format version added to the version (`import_with` adds it
    /// once more).
    pub open spec fn forced_options(options: ImportOptions) -> ImportOptions {
        ImportOptions {
            name: options.name,
            version: spec_raw_version(options.version),
            saved_stamped_changes: options.saved_stamped_changes,
        }
    }

    /// Imports a raw vector under its version with the raw format version
    /// added (`import_with` adds it once more), starting it over (as from an
    /// empty region, with no holes) when the stored header has another
    /// version, format or byte order, or the region is too short for a
    /// header.
    pub fn forced_import_with(
        options: &ImportOptions,
        format: Format,
        region: Vec<u8>,
        holes_region: Option<&[u8]>,
    ) -> (r: Result<Self, Error>)
        ensures
            ({
                let holes_seq = match holes_region {
                    Some(h) => Some(h@),
                    None => None,
                };
                let o = Self::forced_options(*options);
                let err = Self::spec_import_error(o.version, format, region@, holes_seq);
                &&& err is None ==> r is Ok && r->Ok_0.imported(&o, format, region@, holes_seq)
                &&& err is Some && Self::resets_on(err->0) ==> r is Ok && r->Ok_0.imported(
                    &o,
                    format,
                    Seq::<u8>::empty(),
                    None,
                )
                &&& err is Some && !Self::resets_on(err->0) ==> r == Err::<Self, Error>(err->0)
            }),
    {
        let bumped = ImportOptions {
            name: options.name.clone(),
            version: options.version.plus(Version(RAW_VERSION)),
            saved_stamped_changes: options.saved_stamped_changes,
        };
        assert(bumped == Self::forced_options(*options));
        let res = Self::import_with(&bumped, format, region, holes_region);
        match res {
            Err(Error::WrongEndian) | Err(Error::WrongLength) | Err(
                Error::DifferentCompressionMode,
            ) | Err(Error::DifferentVersion { .. }) => {
                let empty: Vec<u8> = Vec::new();
                assert(empty@ =~= Seq::<u8>::empty());
                Self::import_with(&bumped, format, empty, None)
            },
            _ => res,
        }
    }
}

/// The smallest element of a non-empty set of indices.
pub open spec fn spec_set_min(s: Set<usize>) -> usize {
    choose|x: usize| s.contains(x) && forall|y: usize| s.contains(y) ==> x <= y
}

/// A finite, non-empty set of indices has a smallest element.
pub proof fn lemma_set_min_exists(s: Set<usize>)
    requires
        s.finite(),
        s.len() > 0,
    ensures
        s.contains(spec_set_min(s)),
        forall|y: usize| #[trigger] s.contains(y) ==> spec_set_min(s) <= y,
    decreases s.len(),
{
    let x = s.choose();
    let t = s.remove(x);
    if t.len() == 0 {
        assert forall|y: usize| s.contains(y) implies y == x by {
            if y != x {
                assert(t.contains(y));
            }
        }
        lemma_set_min(s, x);
    } else {
        lemma_set_min_exists(t);
        let m = spec_set_min(t);
        if x < m {
            assert forall|y: usize| s.contains(y) implies x <= y by {
                if y != x {
                    assert(t.contains(y));
                }
            }
            lemma_set_min(s, x);
        } else {
            assert forall|y: usize| s.contains(y) implies m <= y by {
                if y != x {
                    assert(t.contains(y));
                }
            }
            lemma_set_min(s, m);
        }
    }
}

pub proof fn lemma_set_min(s: Set<usize>, x: usize)
    requires
        s.contains(x),
        forall|y: usize| s.contains(y) ==> x <= y,
    ensures
        spec_set_min(s) == x,
{
    let m = spec_set_min(s);
    assert(s.contains(m) && forall|y: usize| s.contains(y) ==> m <= y);
}

} // verus!

verus! {

/// Version that raw vectors add to the version they are given.
pub const RAW_VERSION: u64 = 1;

/// The version recorded in the header of a raw vector imported with `version`.
pub open spec fn spec_raw_version(version: Version) -> Version {
    Version(((version.0 + RAW_VERSION) % 0x1_0000_0000_0000_0000) as u64)
}

/// The holes listed in a holes region: little-endian `u64` indices, 8 bytes
/// each. No holes region means no holes.
pub open spec fn spec_holes_from_region(holes_region: Option<Seq<u8>>) -> Set<usize> {
    match holes_region {
        Some(b) => Set::new(
            |x: usize|
                exists|i: int|
                    0 <= i < b.len() / 8 && #[trigger] vstd::bytes::spec_u64_from_le_bytes(
                        b.subrange(8 * i, 8 * i + 8),
                    ) as usize == x,
        ),
        None => Set::empty(),
    }
}

/// Decodes a holes region.
pub fn holes_from_bytes(bytes: &[u8]) -> (r: BTreeSet<usize>)
    requires
        bytes@.len() % 8 == 0,
    ensures
        r@ == spec_holes_from_region(Some(bytes@)),
{
    let blen = bytes.len();
    let n = blen / 8;
    let mut set: BTreeSet<usize> = BTreeSet::new();
    let mut i: usize = 0;
    while i < n
        invariant
            n == bytes@.len() / 8,
            blen == bytes@.len(),
            8 * n <= blen,
            i <= n,
            set@ == Set::new(
                |x: usize|
                    exists|k: int|
                        0 <= k < i && #[trigger] vstd::bytes::spec_u64_from_le_bytes(
                            bytes@.subrange(8 * k, 8 * k + 8),
                        ) as usize == x,
            ),
        decreases n - i,
    {
        let start = 8 * i;
        let v = vstd::bytes::u64_from_le_bytes(slice_subrange(bytes, start, start + 8));
        let ghost old_set = set@;
        set.insert(#[verifier::truncate] (v as usize));
        i = i + 1;
        assert(set@ =~= Set::new(
            |x: usize|
                exists|k: int|
                    0 <= k < i && #[trigger] vstd::bytes::spec_u64_from_le_bytes(
                        bytes@.subrange(8 * k, 8 * k + 8),
                    ) as usize == x,
        )) by {
            assert forall|x: usize| set@.contains(x) implies exists|k: int|
                0 <= k < i && #[trigger] vstd::bytes::spec_u64_from_le_bytes(
                    bytes@.subrange(8 * k, 8 * k + 8),
                ) as usize == x by {
                if x == #[verifier::truncate] (v as usize) {
                    assert(vstd::bytes::spec_u64_from_le_bytes(
                        bytes@.subrange(8 * (i - 1), 8 * (i - 1) + 8),
                    ) as usize == x);
                }
            }
            assert forall|x: usize| (exists|k: int|
                0 <= k < i && #[trigger] vstd::bytes::spec_u64_from_le_bytes(
                    bytes@.subrange(8 * k, 8 * k + 8),
                ) as usize == x) implies set@.contains(x) by {
                let k = choose|k: int|
                    0 <= k < i && #[trigger] vstd::bytes::spec_u64_from_le_bytes(
                        bytes@.subrange(8 * k, 8 * k + 8),
                    ) as usize == x;
                if k < i - 1 {
                    assert(old_set.contains(x));
                }
            }
        }
    }
    assert(n == bytes@.len() / 8);
    set
}

/// Appending the bytes of one more index to a holes region adds that index
/// to the set it decodes to.
proof fn lemma_holes_region_push(a: Seq<u8>, x: usize)
    requires
        a.len() % 8 == 0,
    ensures
        spec_holes_from_region(Some(a + vstd::bytes::spec_u64_to_le_bytes(x as u64)))
            == spec_holes_from_region(Some(a)).insert(x),
{
    let b = a + vstd::bytes::spec_u64_to_le_bytes(x as u64);
    let n = (a.len() / 8) as int;
    vstd::bytes::lemma_auto_spec_u64_to_from_le_bytes();
    assert(b.len() == a.len() + 8);
    assert(b.len() / 8 == n + 1);
    assert(b.subrange(8 * n, 8 * n + 8) =~= vstd::bytes::spec_u64_to_le_bytes(x as u64));
    assert(vstd::bytes::spec_u64_from_le_bytes(b.subrange(8 * n, 8 * n + 8)) as usize == x);
    assert forall|k: int| 0 <= k < n implies #[trigger] b.subrange(8 * k, 8 * k + 8) == a.subrange(
        8 * k,
        8 * k + 8,
    ) by {
        assert(b.subrange(8 * k, 8 * k + 8) =~= a.subrange(8 * k, 8 * k + 8));
    }
    assert(spec_holes_from_region(Some(b)) =~= spec_holes_from_region(Some(a)).insert(x)) by {
        assert forall|y: usize| spec_holes_from_region(Some(b)).contains(y) implies spec_holes_from_region(
            Some(a),
        ).insert(x).contains(y) by {
            let k = choose|k: int|
                0 <= k < b.len() / 8 && #[trigger] vstd::bytes::spec_u64_from_le_bytes(
                    b.subrange(8 * k, 8 * k + 8),
                ) as usize == y;
            if k < n {
                assert(b.subrange(8 * k, 8 * k + 8) == a.subrange(8 * k, 8 * k + 8));
            }
        }
        assert forall|y: usize| spec_holes_from_region(Some(a)).insert(x).contains(y) implies spec_holes_from_region(
            Some(b),
        ).contains(y) by {
            if y != x {
                let k = choose|k: int|
                    0 <= k < a.len() / 8 && #[trigger] vstd::bytes::spec_u64_from_le_bytes(
                        a.subrange(8 * k, 8 * k + 8),
                    ) as usize == y;
                assert(b.subrange(8 * k, 8 * k + 8) == a.subrange(8 * k, 8 * k + 8));
            }
        }
    }
}

/// Encodes a set of holes as a holes region: each index as eight
/// little-endian bytes, in ascending order. The region decodes back to the
/// set.
pub fn holes_to_bytes(holes: &BTreeSet<usize>) -> (r: Vec<u8>)
    ensures
        r@.len() % 8 == 0,
        spec_holes_from_region(Some(r@)) == holes@,
{
    let mut rest = holes.clone();
    let mut out: Vec<u8> = Vec::new();
    proof {
        assert(spec_holes_from_region(Some(out@)) =~= Set::<usize>::empty());
        let keys = vstd::std_specs::iter::IteratorSpec::remaining(
            &vstd::std_specs::btree::spec_btree_keys_iter(holes),
        ).unref();
        vstd::std_specs::btree::axiom_spec_btree_keys_iter(holes);
        vstd::seq_lib::seq_to_set_is_finite(keys);
    }
    loop
        invariant
            out@.len() % 8 == 0,
            rest@.subset_of(holes@),
            rest@.finite(),
            spec_holes_from_region(Some(out@)) == holes@.difference(rest@),
        ensures
            out@.len() % 8 == 0,
            spec_holes_from_region(Some(out@)) == holes@,
        decreases rest@.len(),
    {
        let ghost before = rest@;
        match set_pop_first(&mut rest) {
            Some(x) => {
                let mut b = vstd::bytes::u64_to_le_bytes(x as u64);
                proof {
                    vstd::bytes::lemma_auto_spec_u64_to_from_le_bytes();
                    lemma_holes_region_push(out@, x);
                    assert(holes@.difference(before).insert(x) =~= holes@.difference(rest@));
                }
                let ghost prev = out@;
                out.append(&mut b);
                assert(out@ =~= prev + vstd::bytes::spec_u64_to_le_bytes(x as u64));
            },
            None => {
                assert(holes@.difference(rest@) =~= holes@);
                break;
            },
        }
    }
    out
}

impl<T: Bytes> ReadWriteRawVec<T> {
    /// The holes region of the vector: its holes encoded by `holes_to_bytes`.
    pub fn holes_bytes(&self) -> (r: Vec<u8>)
        ensures
            r@.len() % 8 == 0,
            spec_holes_from_region(Some(r@)) == self.holes_view(),
    {
        holes_to_bytes(&self.holes)
    }
}

} // verus!
