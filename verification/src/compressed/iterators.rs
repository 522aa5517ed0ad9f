//! Forward iterators over a compressed vector. The clean one reads the stored
//! values, decompressing one page at a time and keeping the last page it
//! decompressed; the dirty one goes on with the pushed values.

use vstd::prelude::*;

use crate::compressed::vec::{CompressedVec, PER_PAGE};
use crate::fold::{
    fold_values, spec_call_chain, spec_called_on_each, spec_fold, spec_try_fold, try_fold_values,
};

verus! {

fn min_usize(a: usize, b: usize) -> (r: usize)
    ensures
        r == if a <= b { a } else { b },
{
    if a <= b {
        a
    } else {
        b
    }
}

impl CompressedVec {
    /// What reading stored value `i` page by page gives: the value when its
    /// page decompresses as the page table says, nothing otherwise.
    pub open spec fn read_value(&self, i: int) -> Option<u64> {
        if self.page_decodes(i / PER_PAGE as int) {
            self.stored_value(i)
        } else {
            None
        }
    }

    /// The values read from index `from` on, up to `to` or to the first one
    /// whose page does not decompress.
    pub open spec fn read_values(&self, from: int, to: int) -> Seq<u64>
        decreases to - from,
    {
        if to <= from {
            Seq::empty()
        } else {
            match self.read_value(from) {
                Some(v) => seq![v] + self.read_values(from + 1, to),
                None => Seq::empty(),
            }
        }
    }

    /// What the dirty iterator reads at index `i`: a stored value read page by
    /// page below the stored length, a pushed value past it.
    pub open spec fn read_any(&self, i: int) -> Option<u64> {
        if i < self.stored_len_view() {
            self.read_value(i)
        } else {
            self.value_at(i)
        }
    }

    /// The values the dirty iterator reads from `from` on, up to `to` or to the
    /// first stored one whose page does not decompress.
    pub open spec fn read_any_values(&self, from: int, to: int) -> Seq<u64>
        decreases to - from,
    {
        if to <= from {
            Seq::empty()
        } else {
            match self.read_any(from) {
                Some(v) => seq![v] + self.read_any_values(from + 1, to),
                None => Seq::empty(),
            }
        }
    }

    /// Values were pushed since the last flush.
    pub open spec fn spec_is_dirty(&self) -> bool {
        self.pushed_view().len() > 0
    }

    /// Appends to `buf` the values in `[from, to)`, clamped to the length,
    /// read as the dirty iterator reads them: it stops at the first stored
    /// value whose page does not decompress.
    pub fn read_into_at(&self, from: usize, to: usize, buf: &mut Vec<u64>)
        requires
            self.wf(),
        ensures
            ({
                let f = if from < self.spec_len() { from as int } else { self.spec_len() as int };
                let t = if to < self.spec_len() { to as int } else { self.spec_len() as int };
                final(buf)@ == old(buf)@ + self.read_any_values(f, t)
            }),
    {
        let mut it = DirtyCompressedVecIterator::new(self);
        it.set_end_to(to);
        it.set_position_to(from);
        let mut values = it.collect();
        buf.append(&mut values);
    }

    /// Folds `f` over the values in `[from, to)`, clamped to the length, read
    /// as `read_into_at` reads them.
    pub fn fold_range_at<B, F: Fn(B, u64) -> B>(&self, from: usize, to: usize, init: B, f: F) -> (r: B)
        requires
            self.wf(),
            forall|b: B, t: u64| #[trigger] f.requires((b, t)),
        ensures
            ({
                let fr = if from < self.spec_len() { from as int } else { self.spec_len() as int };
                let t = if to < self.spec_len() { to as int } else { self.spec_len() as int };
                spec_fold(f, init, self.read_any_values(fr, t), r)
            }),
    {
        let mut values: Vec<u64> = Vec::new();
        self.read_into_at(from, to, &mut values);
        assert(values@ =~= Seq::<u64>::empty() + values@);
        fold_values(&values, init, f)
    }

    /// Folds `f` over the values in `[from, to)`, clamped to the length, read
    /// as `read_into_at` reads them, stopping at the first error `f` returns.
    pub fn try_fold_range_at<B, E, F: Fn(B, u64) -> Result<B, E>>(&self, from: usize, to: usize, init: B, f: F) -> (r:
        Result<B, E>)
        requires
            self.wf(),
            forall|b: B, t: u64| #[trigger] f.requires((b, t)),
        ensures
            ({
                let fr = if from < self.spec_len() { from as int } else { self.spec_len() as int };
                let t = if to < self.spec_len() { to as int } else { self.spec_len() as int };
                spec_try_fold(f, init, self.read_any_values(fr, t), r)
            }),
    {
        let mut values: Vec<u64> = Vec::new();
        self.read_into_at(from, to, &mut values);
        assert(values@ =~= Seq::<u64>::empty() + values@);
        try_fold_values(&values, init, f)
    }

    /// An iterator over the stored values.
    pub fn clean_iter(&self) -> (r: CleanCompressedVecIterator<'_>)
        requires
            self.wf(),
        ensures
            r.wf(),
            r.remaining_values() == self.read_values(0, self.stored_len_view() as int),
    {
        CleanCompressedVecIterator::new(self)
    }

    /// An iterator over the stored values, then the pushed ones.
    pub fn dirty_iter(&self) -> (r: DirtyCompressedVecIterator<'_>)
        requires
            self.wf(),
        ensures
            r.wf(),
            r.remaining_values() == self.read_any_values(0, self.spec_len() as int),
    {
        DirtyCompressedVecIterator::new(self)
    }

    /// The clean iterator when nothing was pushed, the dirty one otherwise;
    /// either reads the same values.
    pub fn iter(&self) -> (r: CompressedVecIterator<'_>)
        requires
            self.wf(),
        ensures
            r.wf(),
            r.is_clean_view() == !self.spec_is_dirty(),
            r.remaining_values() == self.read_any_values(0, self.spec_len() as int),
    {
        CompressedVecIterator::new(self)
    }
}

/// When the pages of the stored values in `[a, b)` decompress as the page
/// table says, the dirty iterator reads every value there, in order.
pub proof fn lemma_read_any_values_complete(vec: CompressedVec, a: int, b: int)
    requires
        vec.wf(),
        0 <= a <= b <= vec.spec_len(),
        forall|i: int| a <= i < b && i < vec.stored_len_view() ==> #[trigger] vec.page_decodes(
            i / PER_PAGE as int,
        ),
    ensures
        forall|i: int| a <= i < b ==> #[trigger] vec.value_at(i) is Some,
        vec.read_any_values(a, b) == Seq::new((b - a) as nat, |k: int| vec.value_at(a + k)->0),
    decreases b - a,
{
    if a == b {
        assert(vec.read_any_values(a, b) =~= Seq::new((b - a) as nat, |k: int| vec.value_at(a + k)->0));
    } else {
        lemma_read_any_values_complete(vec, a + 1, b);
        if a < vec.stored_len_view() {
            vec.lemma_page_values(a);
            assert(vec.page_decodes(a / PER_PAGE as int));
        }
        assert(vec.read_any(a) == vec.value_at(a));
        assert(vec.value_at(a) is Some);
        assert(vec.read_any_values(a, b) =~= Seq::new((b - a) as nat, |k: int| vec.value_at(a + k)->0));
    }
}

/// Without pushed values, the dirty iterator reads what the clean one does.
pub proof fn lemma_read_any_values_clean(vec: CompressedVec, a: int, b: int)
    requires
        vec.pushed_view().len() == 0,
        b <= vec.stored_len_view(),
    ensures
        vec.read_any_values(a, b) == vec.read_values(a, b),
    decreases b - a,
{
    if a < b {
        lemma_read_any_values_clean(vec, a + 1, b);
    }
}

/// Iterator over the stored values of a compressed vector, from an index up
/// to an end, with the last page it decompressed kept in memory.
pub struct CleanCompressedVecIterator<'a> {
    vec: &'a CompressedVec,
    decoded: Vec<u64>,
    decoded_page: Option<usize>,
    index: usize,
    end: usize,
}

impl<'a> CleanCompressedVecIterator<'a> {
    /// The vector the iterator reads.
    pub closed spec fn vec_view(&self) -> CompressedVec {
        *self.vec
    }

    pub closed spec fn index_view(&self) -> nat {
        self.index as nat
    }

    pub closed spec fn end_view(&self) -> nat {
        self.end as nat
    }

    /// The kept page, when there is one, is what its compressed bytes
    /// decompress to.
    pub closed spec fn wf(&self) -> bool {
        &&& self.vec.wf()
        &&& self.index <= self.end <= self.vec.stored_len_view()
        &&& self.decoded_page matches Some(p) ==> self.vec.page_decodes(p as int)
            && pco_decompressed_is(self.vec, p as int, self.decoded@)
    }

    /// The values still to come, up to the end or to the first page that
    /// does not decompress.
    pub open spec fn remaining_values(&self) -> Seq<u64> {
        self.vec_view().read_values(self.index_view() as int, self.end_view() as int)
    }

    /// An iterator over every stored value of `vec`, with no page kept yet.
    pub fn new(vec: &'a CompressedVec) -> (r: Self)
        requires
            vec.wf(),
        ensures
            r.wf(),
            r.vec_view() == *vec,
            r.index_view() == 0,
            r.end_view() == vec.stored_len_view(),
    {
        CleanCompressedVecIterator {
            vec,
            decoded: Vec::new(),
            decoded_page: None,
            index: 0,
            end: vec.stored_len(),
        }
    }

    /// The value at the index, which then moves forward by one: taken from
    /// the kept page when it is the page of the index, else from its page,
    /// decompressed and kept.
    pub fn next(&mut self) -> (r: Option<u64>)
        requires
            old(self).wf(),
        ensures
            final(self).wf(),
            final(self).vec_view() == old(self).vec_view(),
            final(self).end_view() == old(self).end_view(),
            old(self).index_view() < old(self).end_view() ==> r == old(self).vec_view().read_value(
                old(self).index_view() as int,
            ) && final(self).index_view() == old(self).index_view() + 1,
            old(self).index_view() >= old(self).end_view() ==> r is None && final(self).index_view()
                == old(self).index_view(),
            old(self).remaining_values().len() > 0 ==> r == Some(old(self).remaining_values()[0])
                && final(self).remaining_values() == old(self).remaining_values().drop_first(),
            old(self).remaining_values().len() == 0 ==> r is None,
    {
        if self.index >= self.end {
            return None;
        }
        let i = self.index;
        proof {
            let v = *self.vec;
            if v.read_value(i as int) is Some {
                assert(v.read_values(i as int, self.end as int) == seq![v.read_value(i as int)->0]
                    + v.read_values(i + 1, self.end as int));
                assert(v.read_values(i as int, self.end as int).drop_first() =~= v.read_values(
                    i + 1,
                    self.end as int,
                ));
            }
        }
        self.index = i + 1;
        let p = i / PER_PAGE;
        let j = i % PER_PAGE;
        proof {
            assert(p * PER_PAGE <= i) by (nonlinear_arith)
                requires
                    p == i / 2048,
            ;
            self.vec.lemma_page_values(i as int);
        }
        let cached = match self.decoded_page {
            Some(q) => q == p,
            None => false,
        };
        if !cached {
            match self.vec.decode_page(p) {
                Ok(v) => {
                    self.decoded = v;
                    self.decoded_page = Some(p);
                },
                Err(_) => {
                    self.decoded_page = None;
                    return None;
                },
            }
        }
        if j < self.decoded.len() {
            Some(self.decoded[j])
        } else {
            None
        }
    }

    /// Skips `n` values and returns the next one; past the end, stops there.
    pub fn nth(&mut self, n: usize) -> (r: Option<u64>)
        requires
            old(self).wf(),
        ensures
            final(self).wf(),
            final(self).vec_view() == old(self).vec_view(),
            final(self).end_view() == old(self).end_view(),
            old(self).index_view() + n < old(self).end_view() ==> r == old(self).vec_view().read_value(
                old(self).index_view() + n,
            ) && final(self).index_view() == old(self).index_view() + n + 1,
            old(self).index_view() + n >= old(self).end_view() ==> r is None && final(self).index_view()
                == old(self).end_view(),
    {
        if n >= self.end - self.index {
            self.index = self.end;
            return None;
        }
        self.index = self.index + n;
        self.next()
    }

    /// The iterator without its first `n` values.
    pub fn skip(self, n: usize) -> (r: Self)
        requires
            self.wf(),
        ensures
            r.wf(),
            r.vec_view() == self.vec_view(),
            r.end_view() == self.end_view(),
            r.index_view() == if self.index_view() + n < self.end_view() {
                self.index_view() + n
            } else {
                self.end_view() as int
            },
    {
        let mut this = self;
        let left = this.end - this.index;
        this.index = if n < left {
            this.index + n
        } else {
            this.end
        };
        this
    }

    /// The iterator cut after its first `n` values.
    pub fn take(self, n: usize) -> (r: Self)
        requires
            self.wf(),
        ensures
            r.wf(),
            r.vec_view() == self.vec_view(),
            r.index_view() == self.index_view(),
            r.end_view() == if self.index_view() + n < self.end_view() {
                self.index_view() + n
            } else {
                self.end_view() as int
            },
    {
        let mut this = self;
        let left = this.end - this.index;
        if n < left {
            this.end = this.index + n;
        }
        this
    }

    /// The value before the end, unless nothing is left.
    pub fn last(self) -> (r: Option<u64>)
        requires
            self.wf(),
        ensures
            r == if self.index_view() < self.end_view() {
                self.vec_view().read_value(self.end_view() - 1)
            } else {
                None
            },
    {
        if self.index >= self.end {
            return None;
        }
        let mut this = self;
        this.index = this.end - 1;
        this.next()
    }

    /// How many values are left.
    pub fn len(&self) -> (r: usize)
        requires
            self.wf(),
        ensures
            r == self.end_view() - self.index_view(),
    {
        self.end - self.index
    }

    /// The exact number of values left, as both bounds.
    pub fn size_hint(&self) -> (r: (usize, Option<usize>))
        requires
            self.wf(),
        ensures
            r.0 == self.end_view() - self.index_view(),
            r.1 == Some(r.0),
    {
        let n = self.end - self.index;
        (n, Some(n))
    }

    /// Moves to index `i`, but not past the end; the kept page stays.
    pub fn set_position_to(&mut self, i: usize)
        requires
            old(self).wf(),
        ensures
            final(self).wf(),
            final(self).vec_view() == old(self).vec_view(),
            final(self).end_view() == old(self).end_view(),
            final(self).index_view() == if i <= old(self).end_view() {
                i as int
            } else {
                old(self).end_view() as int
            },
    {
        self.index = min_usize(i, self.end);
    }

    /// Moves the end to index `i` when that shortens the iteration; the index
    /// follows it when it was past it.
    pub fn set_end_to(&mut self, i: usize)
        requires
            old(self).wf(),
        ensures
            final(self).wf(),
            final(self).vec_view() == old(self).vec_view(),
            final(self).end_view() == if i <= old(self).end_view() {
                i as int
            } else {
                old(self).end_view() as int
            },
            final(self).index_view() == if old(self).index_view() <= final(self).end_view() {
                old(self).index_view() as int
            } else {
                final(self).end_view() as int
            },
    {
        self.end = min_usize(i, self.end);
        self.index = min_usize(self.index, self.end);
    }

    /// The length of the vector, pushed values included.
    pub fn vec_len(&self) -> (r: usize)
        requires
            self.wf(),
        ensures
            r == self.vec_view().spec_len(),
    {
        self.vec.len()
    }

    /// Every value left, up to the end or to the first page that does not
    /// decompress.
    pub fn collect(self) -> (r: Vec<u64>)
        requires
            self.wf(),
        ensures
            r@ == self.remaining_values(),
    {
        let mut out: Vec<u64> = Vec::new();
        let mut it = self;
        let ghost start = self.index_view() as int;
        let ghost end = self.end_view() as int;
        let ghost v = self.vec_view();
        while it.index < it.end
            invariant
                it.wf(),
                it.vec_view() == v,
                it.end_view() == end,
                v == self.vec_view(),
                start == self.index_view(),
                end == self.end_view(),
                start <= it.index_view() <= end,
                v.read_values(start, end) == out@ + v.read_values(it.index_view() as int, end),
            decreases end - it.index_view(),
        {
            let ghost i = it.index_view() as int;
            let x = it.next();
            match x {
                Some(val) => {
                    assert(v.read_values(i, end) == seq![val] + v.read_values(i + 1, end));
                    out.push(val);
                    assert(out@ + v.read_values(i + 1, end) =~= (out@.drop_last() + seq![val]) + v.read_values(
                        i + 1,
                        end,
                    ));
                    assert(v.read_values(start, end) =~= out@ + v.read_values(i + 1, end));
                },
                None => {
                    assert(v.read_values(i, end) =~= Seq::<u64>::empty());
                    assert(v.read_values(start, end) =~= out@);
                    return out;
                },
            }
        }
        assert(v.read_values(end, end) =~= Seq::<u64>::empty());
        assert(v.read_values(start, end) =~= out@);
        out
    }
}

/// Iterator over the values of a compressed vector, stored ones first, read
/// page by page, then pushed ones, from an index up to an end.
pub struct DirtyCompressedVecIterator<'a> {
    inner: CleanCompressedVecIterator<'a>,
    index: usize,
    end: usize,
}

impl<'a> DirtyCompressedVecIterator<'a> {
    pub closed spec fn vec_view(&self) -> CompressedVec {
        self.inner.vec_view()
    }

    pub closed spec fn index_view(&self) -> nat {
        self.index as nat
    }

    pub closed spec fn end_view(&self) -> nat {
        self.end as nat
    }

    pub closed spec fn wf(&self) -> bool {
        &&& self.inner.wf()
        &&& self.inner.end_view() == self.inner.vec_view().stored_len_view()
        &&& self.index <= self.end <= self.inner.vec_view().spec_len()
    }

    /// The values still to come.
    pub open spec fn remaining_values(&self) -> Seq<u64> {
        self.vec_view().read_any_values(self.index_view() as int, self.end_view() as int)
    }

    /// An iterator over every value of `vec`.
    pub fn new(vec: &'a CompressedVec) -> (r: Self)
        requires
            vec.wf(),
        ensures
            r.wf(),
            r.vec_view() == *vec,
            r.index_view() == 0,
            r.end_view() == vec.spec_len(),
    {
        DirtyCompressedVecIterator { inner: CleanCompressedVecIterator::new(vec), index: 0, end: vec.len() }
    }

    fn read(&mut self, i: usize) -> (r: Option<u64>)
        requires
            old(self).wf(),
            i < old(self).vec_view().spec_len(),
        ensures
            final(self).wf(),
            final(self).vec_view() == old(self).vec_view(),
            final(self).index_view() == old(self).index_view(),
            final(self).end_view() == old(self).end_view(),
            r == old(self).vec_view().read_any(i as int),
    {
        let stored = self.inner.vec.stored_len();
        if i < stored {
            self.inner.set_position_to(i);
            self.inner.next()
        } else {
            let pushed = self.inner.vec.pushed();
            Some(pushed[i - stored])
        }
    }

    /// The value at the index, which then moves forward by one.
    pub fn next(&mut self) -> (r: Option<u64>)
        requires
            old(self).wf(),
        ensures
            final(self).wf(),
            final(self).vec_view() == old(self).vec_view(),
            final(self).end_view() == old(self).end_view(),
            old(self).index_view() < old(self).end_view() ==> r == old(self).vec_view().read_any(
                old(self).index_view() as int,
            ) && final(self).index_view() == old(self).index_view() + 1,
            old(self).index_view() >= old(self).end_view() ==> r is None && final(self).index_view()
                == old(self).index_view(),
            old(self).remaining_values().len() > 0 ==> r == Some(old(self).remaining_values()[0])
                && final(self).remaining_values() == old(self).remaining_values().drop_first(),
            old(self).remaining_values().len() == 0 ==> r is None,
    {
        if self.index >= self.end {
            return None;
        }
        let i = self.index;
        proof {
            let v = self.inner.vec_view();
            if v.read_any(i as int) is Some {
                assert(v.read_any_values(i as int, self.end as int) == seq![v.read_any(i as int)->0]
                    + v.read_any_values(i + 1, self.end as int));
                assert(v.read_any_values(i as int, self.end as int).drop_first() =~= v.read_any_values(
                    i + 1,
                    self.end as int,
                ));
            }
        }
        let r = self.read(i);
        self.index = i + 1;
        r
    }

    /// Skips `n` values and returns the next one; past the end, stops there.
    pub fn nth(&mut self, n: usize) -> (r: Option<u64>)
        requires
            old(self).wf(),
        ensures
            final(self).wf(),
            final(self).vec_view() == old(self).vec_view(),
            final(self).end_view() == old(self).end_view(),
            old(self).index_view() + n < old(self).end_view() ==> r == old(self).vec_view().read_any(
                old(self).index_view() + n,
            ) && final(self).index_view() == old(self).index_view() + n + 1,
            old(self).index_view() + n >= old(self).end_view() ==> r is None && final(self).index_view()
                == old(self).end_view(),
    {
        if n >= self.end - self.index {
            self.index = self.end;
            return None;
        }
        self.index = self.index + n;
        self.next()
    }

    /// The iterator without its first `n` values.
    pub fn skip(self, n: usize) -> (r: Self)
        requires
            self.wf(),
        ensures
            r.wf(),
            r.vec_view() == self.vec_view(),
            r.end_view() == self.end_view(),
            r.index_view() == if self.index_view() + n < self.end_view() {
                self.index_view() + n
            } else {
                self.end_view() as int
            },
    {
        let mut this = self;
        let left = this.end - this.index;
        this.index = if n < left {
            this.index + n
        } else {
            this.end
        };
        this
    }

    /// The iterator cut after its first `n` values.
    pub fn take(self, n: usize) -> (r: Self)
        requires
            self.wf(),
        ensures
            r.wf(),
            r.vec_view() == self.vec_view(),
            r.index_view() == self.index_view(),
            r.end_view() == if self.index_view() + n < self.end_view() {
                self.index_view() + n
            } else {
                self.end_view() as int
            },
    {
        let mut this = self;
        let left = this.end - this.index;
        if n < left {
            this.end = this.index + n;
        }
        this
    }

    /// The value before the end, unless nothing is left.
    pub fn last(self) -> (r: Option<u64>)
        requires
            self.wf(),
        ensures
            r == if self.index_view() < self.end_view() {
                self.vec_view().read_any(self.end_view() - 1)
            } else {
                None
            },
    {
        if self.index >= self.end {
            return None;
        }
        let mut this = self;
        let last = this.end - 1;
        this.read(last)
    }

    /// How many values are left.
    pub fn len(&self) -> (r: usize)
        requires
            self.wf(),
        ensures
            r == self.end_view() - self.index_view(),
    {
        self.end - self.index
    }

    /// The exact number of values left, as both bounds.
    pub fn size_hint(&self) -> (r: (usize, Option<usize>))
        requires
            self.wf(),
        ensures
            r.0 == self.end_view() - self.index_view(),
            r.1 == Some(r.0),
    {
        let n = self.end - self.index;
        (n, Some(n))
    }

    /// Moves to index `i`, but not past the end.
    pub fn set_position_to(&mut self, i: usize)
        requires
            old(self).wf(),
        ensures
            final(self).wf(),
            final(self).vec_view() == old(self).vec_view(),
            final(self).end_view() == old(self).end_view(),
            final(self).index_view() == if i <= old(self).end_view() {
                i as int
            } else {
                old(self).end_view() as int
            },
    {
        self.index = min_usize(i, self.end);
    }

    /// Moves the end to index `i` when that shortens the iteration; the index
    /// follows it when it was past it.
    pub fn set_end_to(&mut self, i: usize)
        requires
            old(self).wf(),
        ensures
            final(self).wf(),
            final(self).vec_view() == old(self).vec_view(),
            final(self).end_view() == if i <= old(self).end_view() {
                i as int
            } else {
                old(self).end_view() as int
            },
            final(self).index_view() == if old(self).index_view() <= final(self).end_view() {
                old(self).index_view() as int
            } else {
                final(self).end_view() as int
            },
    {
        self.end = min_usize(i, self.end);
        self.index = min_usize(self.index, self.end);
    }

    /// Every value left, up to the end or to the first stored one whose page
    /// does not decompress.
    pub fn collect(self) -> (r: Vec<u64>)
        requires
            self.wf(),
        ensures
            r@ == self.remaining_values(),
    {
        let mut out: Vec<u64> = Vec::new();
        let mut it = self;
        let ghost start = self.index_view() as int;
        let ghost end = self.end_view() as int;
        let ghost v = self.vec_view();
        while it.index < it.end
            invariant
                it.wf(),
                it.vec_view() == v,
                it.end_view() == end,
                v == self.vec_view(),
                start == self.index_view(),
                end == self.end_view(),
                start <= it.index_view() <= end,
                v.read_any_values(start, end) == out@ + v.read_any_values(it.index_view() as int, end),
            decreases end - it.index_view(),
        {
            let ghost i = it.index_view() as int;
            let x = it.next();
            match x {
                Some(val) => {
                    assert(v.read_any_values(i, end) == seq![val] + v.read_any_values(i + 1, end));
                    out.push(val);
                    assert(out@ + v.read_any_values(i + 1, end) =~= (out@.drop_last() + seq![val])
                        + v.read_any_values(i + 1, end));
                    assert(v.read_any_values(start, end) =~= out@ + v.read_any_values(i + 1, end));
                },
                None => {
                    assert(v.read_any_values(i, end) =~= Seq::<u64>::empty());
                    assert(v.read_any_values(start, end) =~= out@);
                    return out;
                },
            }
        }
        assert(v.read_any_values(end, end) =~= Seq::<u64>::empty());
        assert(v.read_any_values(start, end) =~= out@);
        out
    }
}

/// An iterator over a compressed vector: the clean one when nothing was
/// pushed, the dirty one otherwise.
pub enum CompressedVecIterator<'a> {
    Clean(CleanCompressedVecIterator<'a>),
    Dirty(DirtyCompressedVecIterator<'a>),
}

impl<'a> CompressedVecIterator<'a> {
    pub open spec fn wf(&self) -> bool {
        match self {
            CompressedVecIterator::Clean(it) => it.wf(),
            CompressedVecIterator::Dirty(it) => it.wf(),
        }
    }

    pub open spec fn is_clean_view(&self) -> bool {
        self is Clean
    }

    /// The values still to come.
    pub open spec fn remaining_values(&self) -> Seq<u64> {
        match self {
            CompressedVecIterator::Clean(it) => it.remaining_values(),
            CompressedVecIterator::Dirty(it) => it.remaining_values(),
        }
    }

    pub fn new(vec: &'a CompressedVec) -> (r: Self)
        requires
            vec.wf(),
        ensures
            r.wf(),
            r.is_clean_view() == !vec.spec_is_dirty(),
            r.remaining_values() == vec.read_any_values(0, vec.spec_len() as int),
    {
        if vec.is_dirty() {
            CompressedVecIterator::Dirty(vec.dirty_iter())
        } else {
            proof {
                lemma_read_any_values_clean(*vec, 0, vec.stored_len_view() as int);
            }
            CompressedVecIterator::Clean(vec.clean_iter())
        }
    }

    pub fn is_clean(&self) -> (r: bool)
        ensures
            r == self.is_clean_view(),
    {
        match self {
            CompressedVecIterator::Clean(_) => true,
            CompressedVecIterator::Dirty(_) => false,
        }
    }

    pub fn is_dirty(&self) -> (r: bool)
        ensures
            r == !self.is_clean_view(),
    {
        match self {
            CompressedVecIterator::Clean(_) => false,
            CompressedVecIterator::Dirty(_) => true,
        }
    }

    /// The next value: the first of those left, when any is left.
    pub fn next(&mut self) -> (r: Option<u64>)
        requires
            old(self).wf(),
        ensures
            final(self).wf(),
            final(self).is_clean_view() == old(self).is_clean_view(),
            old(self).remaining_values().len() > 0 ==> r == Some(old(self).remaining_values()[0])
                && final(self).remaining_values() == old(self).remaining_values().drop_first(),
            old(self).remaining_values().len() == 0 ==> r is None,
    {
        match self {
            CompressedVecIterator::Clean(it) => it.next(),
            CompressedVecIterator::Dirty(it) => it.next(),
        }
    }

    /// Every value left.
    pub fn collect(self) -> (r: Vec<u64>)
        requires
            self.wf(),
        ensures
            r@ == self.remaining_values(),
    {
        match self {
            CompressedVecIterator::Clean(it) => it.collect(),
            CompressedVecIterator::Dirty(it) => it.collect(),
        }
    }
}

/// Forward cursor over the values of a compressed vector, stored then
/// pushed, read page by page.
pub struct CompressedVecCursor<'a> {
    iter: DirtyCompressedVecIterator<'a>,
}

impl CompressedVec {
    /// A cursor at position 0.
    pub fn cursor(&self) -> (r: CompressedVecCursor<'_>)
        requires
            self.wf(),
        ensures
            r.wf(),
            r.vec_view() == *self,
            r.pos_view() == 0,
    {
        CompressedVecCursor { iter: DirtyCompressedVecIterator::new(self) }
    }
}

impl<'a> CompressedVecCursor<'a> {
    pub closed spec fn vec_view(&self) -> CompressedVec {
        self.iter.vec_view()
    }

    pub closed spec fn pos_view(&self) -> nat {
        self.iter.index_view()
    }

    pub closed spec fn wf(&self) -> bool {
        &&& self.iter.wf()
        &&& self.iter.end_view() == self.iter.vec_view().spec_len()
    }

    pub fn position(&self) -> (r: usize)
        requires
            self.wf(),
        ensures
            r == self.pos_view(),
    {
        self.iter.index
    }

    /// How many values are left past the position.
    pub fn remaining(&self) -> (r: usize)
        requires
            self.wf(),
        ensures
            r == self.vec_view().spec_len() - self.pos_view(),
    {
        self.iter.len()
    }

    /// Moves the position forward by `n`, stopping at the length.
    pub fn advance(&mut self, n: usize)
        requires
            old(self).wf(),
        ensures
            final(self).wf(),
            final(self).vec_view() == old(self).vec_view(),
            final(self).pos_view() == if old(self).pos_view() + n < old(self).vec_view().spec_len() {
                old(self).pos_view() + n
            } else {
                old(self).vec_view().spec_len() as int
            },
    {
        let left = self.iter.end - self.iter.index;
        let target = if n < left {
            self.iter.index + n
        } else {
            self.iter.end
        };
        self.iter.set_position_to(target);
    }

    /// The value at absolute `index`, without moving.
    pub fn get(&mut self, index: usize) -> (r: Option<u64>)
        requires
            old(self).wf(),
        ensures
            final(self).wf(),
            final(self).vec_view() == old(self).vec_view(),
            final(self).pos_view() == old(self).pos_view(),
            r == if index < old(self).vec_view().spec_len() {
                old(self).vec_view().read_any(index as int)
            } else {
                None
            },
    {
        if index < self.iter.end {
            self.iter.read(index)
        } else {
            None
        }
    }

    /// The value at the position, which then moves forward by one.
    pub fn next(&mut self) -> (r: Option<u64>)
        requires
            old(self).wf(),
        ensures
            final(self).wf(),
            final(self).vec_view() == old(self).vec_view(),
            old(self).pos_view() < old(self).vec_view().spec_len() ==> r == old(self).vec_view().read_any(
                old(self).pos_view() as int,
            ) && final(self).pos_view() == old(self).pos_view() + 1,
            old(self).pos_view() >= old(self).vec_view().spec_len() ==> r is None && final(self).pos_view()
                == old(self).pos_view(),
    {
        self.iter.next()
    }

    /// The values read from the position up to `target`, or up to the first
    /// stored one whose page does not decompress; the position moves to
    /// `target`.
    fn take_values(&mut self, target: usize) -> (r: Vec<u64>)
        requires
            old(self).wf(),
            old(self).pos_view() <= target <= old(self).vec_view().spec_len(),
        ensures
            final(self).wf(),
            final(self).vec_view() == old(self).vec_view(),
            final(self).pos_view() == target,
            r@ == old(self).vec_view().read_any_values(old(self).pos_view() as int, target as int),
    {
        let mut out: Vec<u64> = Vec::new();
        let ghost start = self.pos_view() as int;
        let ghost v = self.vec_view();
        while self.iter.index < target
            invariant
                self.wf(),
                self.vec_view() == v,
                v == old(self).vec_view(),
                start == old(self).pos_view(),
                start <= self.pos_view() <= target <= v.spec_len(),
                v.read_any_values(start, target as int) == out@ + v.read_any_values(
                    self.pos_view() as int,
                    target as int,
                ),
            decreases target - self.pos_view(),
        {
            let ghost i = self.pos_view() as int;
            let x = self.iter.next();
            match x {
                Some(val) => {
                    assert(v.read_any_values(i, target as int) == seq![val] + v.read_any_values(
                        i + 1,
                        target as int,
                    ));
                    out.push(val);
                    assert(out@ + v.read_any_values(i + 1, target as int) =~= (out@.drop_last()
                        + seq![val]) + v.read_any_values(i + 1, target as int));
                },
                None => {
                    assert(v.read_any_values(i, target as int) =~= Seq::<u64>::empty());
                    assert(v.read_any_values(start, target as int) =~= out@);
                    self.iter.set_position_to(target);
                    return out;
                },
            }
        }
        assert(v.read_any_values(target as int, target as int) =~= Seq::<u64>::empty());
        assert(v.read_any_values(start, target as int) =~= out@);
        out
    }

    /// Folds `f` over the values read from the position over the next `n`
    /// indices (fewer at the end), stopping at the first stored one whose page
    /// does not decompress, and moves past those `n` indices.
    pub fn fold<B, F: Fn(B, u64) -> B>(&mut self, n: usize, init: B, f: F) -> (r: B)
        requires
            old(self).wf(),
            forall|b: B, t: u64| #[trigger] f.requires((b, t)),
        ensures
            final(self).wf(),
            final(self).vec_view() == old(self).vec_view(),
            final(self).pos_view() == if old(self).pos_view() + n < old(self).vec_view().spec_len() {
                old(self).pos_view() + n
            } else {
                old(self).vec_view().spec_len() as int
            },
            spec_fold(
                f,
                init,
                old(self).vec_view().read_any_values(
                    old(self).pos_view() as int,
                    final(self).pos_view() as int,
                ),
                r,
            ),
    {
        let left = self.iter.end - self.iter.index;
        let target = if n < left {
            self.iter.index + n
        } else {
            self.iter.end
        };
        let values = self.take_values(target);
        fold_values(&values, init, f)
    }

    /// Calls `f` on each value read from the position over the next `n`
    /// indices (fewer at the end), stopping at the first stored one whose page
    /// does not decompress, and moves past those `n` indices.
    pub fn for_each<F: FnMut(u64)>(&mut self, n: usize, f: F)
        requires
            old(self).wf(),
            forall|t: u64| #[trigger] f.requires((t,)),
        ensures
            final(self).wf(),
            final(self).vec_view() == old(self).vec_view(),
            final(self).pos_view() == if old(self).pos_view() + n < old(self).vec_view().spec_len() {
                old(self).pos_view() + n
            } else {
                old(self).vec_view().spec_len() as int
            },
            spec_called_on_each(
                f,
                old(self).vec_view().read_any_values(
                    old(self).pos_view() as int,
                    final(self).pos_view() as int,
                ),
            ),
    {
        let ghost f0 = f;
        let mut f = f;
        let left = self.iter.end - self.iter.index;
        let target = if n < left {
            self.iter.index + n
        } else {
            self.iter.end
        };
        let values = self.take_values(target);
        let mut i: usize = 0;
        let ghost mut calls: Seq<F> = seq![f];
        while i < values.len()
            invariant
                i <= values@.len(),
                forall|t: u64| #[trigger] f.requires((t,)),
                calls.last() == f,
                spec_call_chain(f0, values@.subrange(0, i as int), calls),
            decreases values@.len() - i,
        {
            let v = values[i];
            let ghost before = f;
            let ghost prev = calls;
            f(v);
            proof {
                calls = calls.push(f);
                let s = values@.subrange(0, i + 1);
                assert forall|j: int| 0 <= j < s.len() implies call_ensures(#[trigger] calls[j], (s[j],), ()) by {
                    if j < s.len() - 1 {
                        assert(calls[j] == prev[j]);
                        assert(s[j] == values@.subrange(0, i as int)[j]);
                    } else {
                        assert(calls[j] == before);
                    }
                }
                assert(spec_call_chain(f0, s, calls));
            }
            i = i + 1;
        }
        assert(values@.subrange(0, values@.len() as int) =~= values@);
        assert(spec_call_chain(f0, values@, calls));
    }
}

/// `s` is what page `p` of `vec` decompresses to.
pub open spec fn pco_decompressed_is(vec: &CompressedVec, p: int, s: Seq<u64>) -> bool {
    crate::compressed::pco::pco_decompressed(vec.page_data(p)) == Some(s)
}

} // verus!
