//! Forward iterators over a raw vector: the clean one reads the values as of
//! the last write, the dirty one sees holes, updates and pushed values too.

use vstd::prelude::*;

use crate::codec::Bytes;
use crate::raw::read_write::ReadWriteRawVec;
use crate::raw::reader::VecReader;

verus! {

fn min_usize(a: usize, b: usize) -> (r: usize)
    ensures
        r == if a <= b { a } else { b },
{
    if a <= b {
        a
    } else {
        b
    }
}

/// Iterator over the stored values of a raw vector, from a position up to an
/// end.
pub struct CleanRawVecIterator<'a, T> {
    reader: VecReader<'a, T>,
    pos: usize,
    end: usize,
}

impl<'a, T: Bytes> CleanRawVecIterator<'a, T> {
    /// The stored values the iterator walks.
    pub closed spec fn values(&self) -> Seq<T> {
        self.reader.values()
    }

    pub closed spec fn pos_view(&self) -> nat {
        self.pos as nat
    }

    pub closed spec fn end_view(&self) -> nat {
        self.end as nat
    }

    pub closed spec fn wf(&self) -> bool {
        &&& self.reader.wf()
        &&& self.pos <= self.end <= self.reader.len_view()
        &&& self.reader.values().len() == self.reader.len_view()
    }

    /// The values still to come, in order.
    pub open spec fn remaining_values(&self) -> Seq<T> {
        self.values().subrange(self.pos_view() as int, self.end_view() as int)
    }

    /// An iterator over every stored value of `vec`.
    pub fn new(vec: &'a ReadWriteRawVec<T>) -> (r: Self)
        requires
            vec.wf(),
        ensures
            r.wf(),
            r.values() == vec.stored_view(),
            r.pos_view() == 0,
            r.end_view() == vec.stored_len_view(),
            r.values().len() == vec.stored_len_view(),
    {
        let reader = VecReader::from_read_write(vec);
        let end = reader.len();
        CleanRawVecIterator { reader, pos: 0, end }
    }

    /// The value at the position, which then moves forward by one.
    pub fn next(&mut self) -> (r: Option<T>)
        requires
            old(self).wf(),
        ensures
            final(self).wf(),
            final(self).values() == old(self).values(),
            final(self).end_view() == old(self).end_view(),
            old(self).pos_view() < old(self).end_view() ==> r == Some(
                old(self).values()[old(self).pos_view() as int],
            ) && final(self).pos_view() == old(self).pos_view() + 1,
            old(self).pos_view() >= old(self).end_view() ==> r is None && final(self).pos_view()
                == old(self).pos_view(),
            old(self).remaining_values().len() > 0 ==> r == Some(old(self).remaining_values()[0])
                && final(self).remaining_values() == old(self).remaining_values().drop_first(),
            old(self).remaining_values().len() == 0 ==> r is None && final(self).remaining_values()
                == old(self).remaining_values(),
    {
        if self.pos < self.end {
            assert(self.remaining_values().drop_first() =~= self.values().subrange(
                self.pos + 1,
                self.end as int,
            ));
            let v = self.reader.get(self.pos);
            self.pos = self.pos + 1;
            Some(v)
        } else {
            None
        }
    }

    /// Skips `n` values and returns the next one; past the end, stops there.
    pub fn nth(&mut self, n: usize) -> (r: Option<T>)
        requires
            old(self).wf(),
        ensures
            final(self).wf(),
            final(self).values() == old(self).values(),
            final(self).end_view() == old(self).end_view(),
            old(self).pos_view() + n < old(self).end_view() ==> r == Some(
                old(self).values()[old(self).pos_view() + n],
            ) && final(self).pos_view() == old(self).pos_view() + n + 1,
            old(self).pos_view() + n >= old(self).end_view() ==> r is None && final(self).pos_view()
                == old(self).end_view(),
    {
        if n >= self.end - self.pos {
            self.pos = self.end;
            return None;
        }
        self.pos = self.pos + n;
        self.next()
    }

    /// The iterator without its first `n` values.
    pub fn skip(self, n: usize) -> (r: Self)
        requires
            self.wf(),
        ensures
            r.wf(),
            r.values() == self.values(),
            r.end_view() == self.end_view(),
            r.pos_view() == if self.pos_view() + n < self.end_view() {
                self.pos_view() + n
            } else {
                self.end_view() as int
            },
    {
        let mut this = self;
        let left = this.end - this.pos;
        this.pos = if n < left {
            this.pos + n
        } else {
            this.end
        };
        this
    }

    /// The iterator cut after its first `n` values.
    pub fn take(self, n: usize) -> (r: Self)
        requires
            self.wf(),
        ensures
            r.wf(),
            r.values() == self.values(),
            r.pos_view() == self.pos_view(),
            r.end_view() == if self.pos_view() + n < self.end_view() {
                self.pos_view() + n
            } else {
                self.end_view() as int
            },
    {
        let mut this = self;
        let left = this.end - this.pos;
        if n < left {
            this.end = this.pos + n;
        }
        this
    }

    /// The value before the end, unless nothing is left.
    pub fn last(self) -> (r: Option<T>)
        requires
            self.wf(),
        ensures
            r == if self.pos_view() < self.end_view() {
                Some(self.values()[self.end_view() - 1])
            } else {
                None
            },
    {
        if self.pos < self.end {
            Some(self.reader.get(self.end - 1))
        } else {
            None
        }
    }

    /// How many values are left.
    pub fn len(&self) -> (r: usize)
        requires
            self.wf(),
        ensures
            r == self.end_view() - self.pos_view(),
    {
        self.end - self.pos
    }

    /// The exact number of values left, as both bounds.
    pub fn size_hint(&self) -> (r: (usize, Option<usize>))
        requires
            self.wf(),
        ensures
            r.0 == self.end_view() - self.pos_view(),
            r.1 == Some(r.0),
    {
        let n = self.end - self.pos;
        (n, Some(n))
    }

    /// Moves to index `i`, but not past the end.
    pub fn set_position_to(&mut self, i: usize)
        requires
            old(self).wf(),
        ensures
            final(self).wf(),
            final(self).values() == old(self).values(),
            final(self).end_view() == old(self).end_view(),
            final(self).pos_view() == if i <= old(self).end_view() {
                i as int
            } else {
                old(self).end_view() as int
            },
    {
        self.pos = min_usize(i, self.end);
    }

    /// Moves the end to index `i` when that shortens the iteration; the
    /// position follows it when it was past it.
    pub fn set_end_to(&mut self, i: usize)
        requires
            old(self).wf(),
        ensures
            final(self).wf(),
            final(self).values() == old(self).values(),
            final(self).end_view() == if i <= old(self).end_view() {
                i as int
            } else {
                old(self).end_view() as int
            },
            final(self).pos_view() == if old(self).pos_view() <= final(self).end_view() {
                old(self).pos_view() as int
            } else {
                final(self).end_view() as int
            },
    {
        self.end = min_usize(i, self.end);
        self.pos = min_usize(self.pos, self.end);
    }

    /// Every value left, in order.
    pub fn collect(self) -> (r: Vec<T>)
        requires
            self.wf(),
        ensures
            r@ == self.remaining_values(),
    {
        let mut out: Vec<T> = Vec::new();
        let mut it = self;
        let ghost start = self.pos_view();
        while it.pos < it.end
            invariant
                it.wf(),
                it.values() == self.values(),
                it.end_view() == self.end_view(),
                start <= it.pos_view() <= it.end_view(),
                out@ == self.values().subrange(start as int, it.pos_view() as int),
            decreases it.end_view() - it.pos_view(),
        {
            let v = it.next();
            match v {
                Some(x) => {
                    out.push(x);
                },
                None => {},
            }
            assert(out@ =~= self.values().subrange(start as int, it.pos_view() as int));
        }
        out
    }
}

/// The first index from `from` on, below `end`, where `vec` has a value; `end`
/// when there is none.
pub open spec fn spec_next_present<T: Bytes>(vec: ReadWriteRawVec<T>, from: int, end: int) -> int
    decreases end - from,
{
    if from >= end {
        end
    } else if vec.value_at(from) is Some {
        from
    } else {
        spec_next_present(vec, from + 1, end)
    }
}

/// The values present in `[a, b)` are the one at `a`, if any, then those in
/// `[a + 1, b)`.
pub proof fn lemma_present_front<T: Bytes>(vec: ReadWriteRawVec<T>, a: int, b: int)
    requires
        a < b,
    ensures
        vec.present_values(a, b) == match vec.value_at(a) {
            Some(v) => seq![v] + vec.present_values(a + 1, b),
            None => vec.present_values(a + 1, b),
        },
    decreases b - a,
{
    if a + 1 == b {
        assert(vec.present_values(a, a) =~= Seq::<T>::empty());
        assert(vec.present_values(b, b) =~= Seq::<T>::empty());
        match vec.value_at(a) {
            Some(v) => {
                assert(vec.present_values(a, b) =~= seq![v] + vec.present_values(a + 1, b));
            },
            None => {},
        }
    } else {
        lemma_present_front(vec, a, b - 1);
        match vec.value_at(a) {
            Some(v) => {
                assert(vec.present_values(a, b) =~= seq![v] + vec.present_values(a + 1, b));
            },
            None => {
                assert(vec.present_values(a, b) =~= vec.present_values(a + 1, b));
            },
        }
    }
}

/// The values present in `[a, b)` start with the one at the first index that
/// holds one, and continue with those after it.
pub proof fn lemma_next_present<T: Bytes>(vec: ReadWriteRawVec<T>, a: int, b: int)
    requires
        a <= b,
    ensures
        a <= spec_next_present(vec, a, b) <= b,
        spec_next_present(vec, a, b) < b ==> vec.value_at(spec_next_present(vec, a, b)) is Some
            && vec.present_values(a, b) == seq![vec.value_at(spec_next_present(vec, a, b))->0]
            + vec.present_values(spec_next_present(vec, a, b) + 1, b),
        spec_next_present(vec, a, b) >= b ==> vec.present_values(a, b) == Seq::<T>::empty(),
    decreases b - a,
{
    if a == b {
        assert(vec.present_values(a, b) =~= Seq::<T>::empty());
    } else {
        lemma_present_front(vec, a, b);
        if vec.value_at(a) is None {
            lemma_next_present(vec, a + 1, b);
        }
    }
}

/// Iterator over the values of a raw vector with holes skipped, updates
/// applied and pushed values after the stored ones, from an index up to an
/// end.
pub struct DirtyRawVecIterator<'a, T> {
    vec: &'a ReadWriteRawVec<T>,
    index: usize,
    end: usize,
}

impl<'a, T: Bytes> DirtyRawVecIterator<'a, T> {
    /// The vector the iterator walks.
    pub closed spec fn vec_view(&self) -> ReadWriteRawVec<T> {
        *self.vec
    }

    pub closed spec fn index_view(&self) -> nat {
        self.index as nat
    }

    pub closed spec fn end_view(&self) -> nat {
        self.end as nat
    }

    pub closed spec fn wf(&self) -> bool {
        &&& self.vec.wf()
        &&& self.index <= self.end <= self.vec.spec_len()
    }

    /// The values still to come, in order, holes left out.
    pub open spec fn remaining_values(&self) -> Seq<T> {
        self.vec_view().present_values(self.index_view() as int, self.end_view() as int)
    }

    /// An iterator over every index of `vec`.
    pub fn new(vec: &'a ReadWriteRawVec<T>) -> (r: Self)
        requires
            vec.wf(),
        ensures
            r.wf(),
            r.vec_view() == *vec,
            r.index_view() == 0,
            r.end_view() == vec.spec_len(),
    {
        DirtyRawVecIterator { vec, index: 0, end: vec.len() }
    }

    fn value(&self, i: usize) -> (r: Option<T>)
        requires
            self.wf(),
        ensures
            r == self.vec_view().value_at(i as int),
    {
        match self.vec.get_any_or_read_at(i) {
            Ok(v) => v,
            Err(_) => None,
        }
    }

    /// The value at the first index from the current one that holds one; the
    /// index moves past it, or to the end when there is none.
    pub fn next(&mut self) -> (r: Option<T>)
        requires
            old(self).wf(),
        ensures
            final(self).wf(),
            final(self).vec_view() == old(self).vec_view(),
            final(self).end_view() == old(self).end_view(),
            ({
                let k = spec_next_present(
                    old(self).vec_view(),
                    old(self).index_view() as int,
                    old(self).end_view() as int,
                );
                &&& k < old(self).end_view() ==> r == old(self).vec_view().value_at(k) && r is Some
                    && final(self).index_view() == k + 1
                &&& k >= old(self).end_view() ==> r is None && final(self).index_view()
                    == old(self).end_view()
            }),
            old(self).remaining_values().len() > 0 ==> r == Some(old(self).remaining_values()[0])
                && final(self).remaining_values() == old(self).remaining_values().drop_first(),
            old(self).remaining_values().len() == 0 ==> r is None && final(self).remaining_values()
                == old(self).remaining_values(),
    {
        let ghost k = spec_next_present(*self.vec, self.index as int, self.end as int);
        while self.index < self.end
            invariant
                self.wf(),
                self.vec == old(self).vec,
                self.end == old(self).end,
                old(self).index <= self.index,
                spec_next_present(*self.vec, self.index as int, self.end as int) == k,
                k == spec_next_present(*old(self).vec, old(self).index as int, old(self).end as int),
            decreases self.end - self.index,
        {
            let v = self.value(self.index);
            if v.is_some() {
                proof {
                    lemma_next_present(*old(self).vec, old(self).index as int, old(self).end as int);
                }
                self.index = self.index + 1;
                return v;
            }
            self.index = self.index + 1;
        }
        proof {
            lemma_next_present(*old(self).vec, old(self).index as int, old(self).end as int);
        }
        None
    }

    /// Skips `n` indices and returns what `next` then gives; past the end,
    /// stops there.
    pub fn nth(&mut self, n: usize) -> (r: Option<T>)
        requires
            old(self).wf(),
        ensures
            final(self).wf(),
            final(self).vec_view() == old(self).vec_view(),
            final(self).end_view() == old(self).end_view(),
            ({
                let t = old(self).index_view() + n;
                let k = spec_next_present(old(self).vec_view(), t, old(self).end_view() as int);
                &&& t >= old(self).end_view() ==> r is None && final(self).index_view()
                    == old(self).end_view()
                &&& t < old(self).end_view() && k < old(self).end_view() ==> r == old(self).vec_view().value_at(k)
                    && r is Some && final(self).index_view() == k + 1
                &&& t < old(self).end_view() && k >= old(self).end_view() ==> r is None
                    && final(self).index_view() == old(self).end_view()
            }),
    {
        if n >= self.end - self.index {
            self.index = self.end;
            return None;
        }
        self.index = self.index + n;
        self.next()
    }

    /// The iterator without its first `n` indices.
    pub fn skip(self, n: usize) -> (r: Self)
        requires
            self.wf(),
        ensures
            r.wf(),
            r.vec_view() == self.vec_view(),
            r.end_view() == self.end_view(),
            r.index_view() == if self.index_view() + n < self.end_view() {
                self.index_view() + n
            } else {
                self.end_view() as int
            },
    {
        let mut this = self;
        let left = this.end - this.index;
        this.index = if n < left {
            this.index + n
        } else {
            this.end
        };
        this
    }

    /// The iterator cut after its first `n` indices.
    pub fn take(self, n: usize) -> (r: Self)
        requires
            self.wf(),
        ensures
            r.wf(),
            r.vec_view() == self.vec_view(),
            r.index_view() == self.index_view(),
            r.end_view() == if self.index_view() + n < self.end_view() {
                self.index_view() + n
            } else {
                self.end_view() as int
            },
    {
        let mut this = self;
        let left = this.end - this.index;
        if n < left {
            this.end = this.index + n;
        }
        this
    }

    /// The value at the index before the end (`None` for a hole), unless
    /// nothing is left.
    pub fn last(self) -> (r: Option<T>)
        requires
            self.wf(),
        ensures
            r == if self.index_view() < self.end_view() {
                self.vec_view().value_at(self.end_view() - 1)
            } else {
                None
            },
    {
        if self.index < self.end {
            self.value(self.end - 1)
        } else {
            None
        }
    }

    /// How many indices are left.
    pub fn len(&self) -> (r: usize)
        requires
            self.wf(),
        ensures
            r == self.end_view() - self.index_view(),
    {
        self.end - self.index
    }

    /// The number of indices left, as both bounds.
    pub fn size_hint(&self) -> (r: (usize, Option<usize>))
        requires
            self.wf(),
        ensures
            r.0 == self.end_view() - self.index_view(),
            r.1 == Some(r.0),
    {
        let n = self.end - self.index;
        (n, Some(n))
    }

    /// Moves to index `i`, but not past the end.
    pub fn set_position_to(&mut self, i: usize)
        requires
            old(self).wf(),
        ensures
            final(self).wf(),
            final(self).vec_view() == old(self).vec_view(),
            final(self).end_view() == old(self).end_view(),
            final(self).index_view() == if i <= old(self).end_view() {
                i as int
            } else {
                old(self).end_view() as int
            },
    {
        self.index = min_usize(i, self.end);
    }

    /// Moves the end to index `i` when that shortens the iteration; the index
    /// follows it when it was past it.
    pub fn set_end_to(&mut self, i: usize)
        requires
            old(self).wf(),
        ensures
            final(self).wf(),
            final(self).vec_view() == old(self).vec_view(),
            final(self).end_view() == if i <= old(self).end_view() {
                i as int
            } else {
                old(self).end_view() as int
            },
            final(self).index_view() == if old(self).index_view() <= final(self).end_view() {
                old(self).index_view() as int
            } else {
                final(self).end_view() as int
            },
    {
        self.end = min_usize(i, self.end);
        self.index = min_usize(self.index, self.end);
    }

    /// Every value left, in order, holes left out.
    pub fn collect(self) -> (r: Vec<T>)
        requires
            self.wf(),
        ensures
            r@ == self.remaining_values(),
    {
        let mut out: Vec<T> = Vec::new();
        let mut i = self.index;
        while i < self.end
            invariant
                self.wf(),
                self.index <= i <= self.end,
                out@ == self.vec_view().present_values(self.index as int, i as int),
            decreases self.end - i,
        {
            let v = self.value(i);
            match v {
                Some(x) => {
                    out.push(x);
                },
                None => {},
            }
            i = i + 1;
        }
        out
    }
}


/// Without holes, updates or pushed values, the values present in `[a, b)`
/// are the stored ones there.
pub proof fn lemma_clean_present_values<T: Bytes>(vec: ReadWriteRawVec<T>, a: int, b: int)
    requires
        0 <= a <= b <= vec.stored_len_view(),
        vec.stored_len_view() <= usize::MAX,
        vec.holes_view() == Set::<usize>::empty(),
        vec.updated_view().dom() == Set::<usize>::empty(),
    ensures
        vec.present_values(a, b) == vec.stored_view().subrange(a, b),
    decreases b - a,
{
    if a == b {
        assert(vec.present_values(a, b) =~= Seq::<T>::empty());
    } else {
        lemma_clean_present_values(vec, a, b - 1);
        assert(!vec.holes_view().contains((b - 1) as usize));
        assert(!vec.updated_view().contains_key((b - 1) as usize));
        assert(vec.present_values(a, b) =~= vec.stored_view().subrange(a, b));
    }
}

impl<T: Bytes> ReadWriteRawVec<T> {
    /// Values were pushed, deleted or updated since the last write.
    pub open spec fn spec_is_dirty(&self) -> bool {
        ||| self.pushed_view().len() > 0
        ||| self.holes_view() != Set::<usize>::empty()
        ||| self.updated_view().dom() != Set::<usize>::empty()
    }

    pub fn is_dirty(&self) -> (r: bool)
        requires
            self.wf(),
        ensures
            r == self.spec_is_dirty(),
    {
        self.pushed_len() > 0 || self.has_dirty_stored()
    }

    /// An iterator over the stored values as of the last write.
    pub fn clean_iter(&self) -> (r: CleanRawVecIterator<'_, T>)
        requires
            self.wf(),
        ensures
            r.wf(),
            r.remaining_values() == self.stored_view(),
    {
        let r = CleanRawVecIterator::new(self);
        assert(r.remaining_values() =~= self.stored_view());
        r
    }

    /// An iterator over every value, holes skipped, updates applied, pushed
    /// values last.
    pub fn dirty_iter(&self) -> (r: DirtyRawVecIterator<'_, T>)
        requires
            self.wf(),
        ensures
            r.wf(),
            r.vec_view() == *self,
            r.remaining_values() == self.present_values(0, self.spec_len() as int),
    {
        DirtyRawVecIterator::new(self)
    }

    /// The clean iterator when nothing changed since the last write, the
    /// dirty one otherwise; either gives the values present.
    pub fn iter(&self) -> (r: RawVecIterator<'_, T>)
        requires
            self.wf(),
        ensures
            r.wf(),
            r.is_clean_view() == !self.spec_is_dirty(),
            r.remaining_values() == self.present_values(0, self.spec_len() as int),
    {
        RawVecIterator::new(self)
    }
}

/// An iterator over a raw vector: the clean one when nothing changed since
/// the last write, the dirty one otherwise.
pub enum RawVecIterator<'a, T> {
    Clean(CleanRawVecIterator<'a, T>),
    Dirty(DirtyRawVecIterator<'a, T>),
}

impl<'a, T: Bytes> RawVecIterator<'a, T> {
    pub open spec fn wf(&self) -> bool {
        match self {
            RawVecIterator::Clean(it) => it.wf(),
            RawVecIterator::Dirty(it) => it.wf(),
        }
    }

    pub open spec fn is_clean_view(&self) -> bool {
        self is Clean
    }

    /// The values still to come, in order.
    pub open spec fn remaining_values(&self) -> Seq<T> {
        match self {
            RawVecIterator::Clean(it) => it.remaining_values(),
            RawVecIterator::Dirty(it) => it.remaining_values(),
        }
    }

    /// How many positions are left.
    pub open spec fn len_view(&self) -> int {
        match self {
            RawVecIterator::Clean(it) => it.end_view() - it.pos_view(),
            RawVecIterator::Dirty(it) => it.end_view() - it.index_view(),
        }
    }

    pub fn new(vec: &'a ReadWriteRawVec<T>) -> (r: Self)
        requires
            vec.wf(),
        ensures
            r.wf(),
            r.is_clean_view() == !vec.spec_is_dirty(),
            r.remaining_values() == vec.present_values(0, vec.spec_len() as int),
    {
        if vec.is_dirty() {
            RawVecIterator::Dirty(vec.dirty_iter())
        } else {
            proof {
                lemma_clean_present_values(*vec, 0, vec.stored_len_view() as int);
            }
            RawVecIterator::Clean(vec.clean_iter())
        }
    }

    pub fn is_clean(&self) -> (r: bool)
        ensures
            r == self.is_clean_view(),
    {
        match self {
            RawVecIterator::Clean(_) => true,
            RawVecIterator::Dirty(_) => false,
        }
    }

    pub fn is_dirty(&self) -> (r: bool)
        ensures
            r == !self.is_clean_view(),
    {
        match self {
            RawVecIterator::Clean(_) => false,
            RawVecIterator::Dirty(_) => true,
        }
    }

    /// The next value, if any is left.
    pub fn next(&mut self) -> (r: Option<T>)
        requires
            old(self).wf(),
        ensures
            final(self).wf(),
            final(self).is_clean_view() == old(self).is_clean_view(),
            old(self).remaining_values().len() > 0 ==> r == Some(old(self).remaining_values()[0])
                && final(self).remaining_values() == old(self).remaining_values().drop_first(),
            old(self).remaining_values().len() == 0 ==> r is None && final(self).remaining_values()
                == old(self).remaining_values(),
    {
        match self {
            RawVecIterator::Clean(it) => it.next(),
            RawVecIterator::Dirty(it) => it.next(),
        }
    }

    /// How many positions are left.
    pub fn len(&self) -> (r: usize)
        requires
            self.wf(),
        ensures
            r == self.len_view(),
    {
        match self {
            RawVecIterator::Clean(it) => it.len(),
            RawVecIterator::Dirty(it) => it.len(),
        }
    }

    /// Every value left, in order.
    pub fn collect(self) -> (r: Vec<T>)
        requires
            self.wf(),
        ensures
            r@ == self.remaining_values(),
    {
        match self {
            RawVecIterator::Clean(it) => it.collect(),
            RawVecIterator::Dirty(it) => it.collect(),
        }
    }
}

} // verus!
