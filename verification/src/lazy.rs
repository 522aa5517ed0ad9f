use vstd::prelude::*;

use crate::version::Version;

verus! {

/// A vector a computation reads from: its values, its version, and the name
/// of its index type.
pub struct SourceVec {
    pub values: Vec<u64>,
    pub version: Version,
    pub index: String,
}

impl SourceVec {
    pub fn new(values: Vec<u64>, version: Version, index: &str) -> (r: SourceVec)
        ensures
            r.values@ == values@,
            r.version == version,
            r.index@ == index@,
    {
        SourceVec { values, version, index: index.to_owned() }
    }

    pub fn len(&self) -> (r: usize)
        ensures
            r == self.values@.len(),
    {
        self.values.len()
    }
}

/// The length of a source as a lazy vector of index type `index` sees it:
/// its own length when it has that index type, no bound otherwise.
pub open spec fn spec_source_len(src: SourceVec, index: Seq<char>) -> int {
    if src.index@ == index {
        src.values@.len() as int
    } else {
        usize::MAX as int
    }
}

fn source_len(src: &SourceVec, index: &String) -> (r: usize)
    ensures
        r == spec_source_len(*src, index@),
{
    if src.index == *index {
        src.values.len()
    } else {
        usize::MAX
    }
}

fn min_usize(a: usize, b: usize) -> (r: usize)
    ensures
        r == if a <= b { a } else { b },
{
    if a <= b {
        a
    } else {
        b
    }
}

/// A vector whose values are computed from one source when read: value `i`
/// is `compute(i, source)`, and nothing is stored.
pub struct LazyVecFrom1<F: Fn(usize, &Vec<u64>) -> Option<u64>> {
    pub name: String,
    pub version: Version,
    pub index: String,
    pub source: SourceVec,
    pub compute: F,
}

impl<F: Fn(usize, &Vec<u64>) -> Option<u64>> LazyVecFrom1<F> {
    /// A lazy vector of index type `index` over `source`, which must have
    /// the same index type.
    pub fn init(name: &str, version: Version, index: &str, source: SourceVec, compute: F) -> (r: Self)
        requires
            index@ == source.index@,
        ensures
            r.name@ == name@,
            r.version == version,
            r.index@ == index@,
            r.source == source,
            r.compute == compute,
    {
        LazyVecFrom1 { name: name.to_owned(), version, index: index.to_owned(), source, compute }
    }

    pub fn version(&self) -> (r: Version)
        ensures
            r == self.version,
    {
        self.version
    }

    pub fn name(&self) -> (r: &str)
        ensures
            r@ == self.name@,
    {
        self.name.as_str()
    }

    /// A lazy vector stores nothing: it has no region.
    pub fn region_names(&self) -> (r: Vec<String>)
        ensures
            r@.len() == 0,
    {
        Vec::new()
    }

    /// As many values as the source has.
    pub fn len(&self) -> (r: usize)
        ensures
            r == self.source.values@.len(),
    {
        self.source.values.len()
    }

    pub fn iter(&self) -> (r: LazyVecFrom1Iterator<'_, F>)
        ensures
            r.lazy == self,
            r.index == 0,
            r.end_index == self.source.values@.len(),
    {
        LazyVecFrom1Iterator::new(self)
    }
}

/// Iterator over the values of a `LazyVecFrom1`, from `index` up to
/// `end_index`.
pub struct LazyVecFrom1Iterator<'a, F: Fn(usize, &Vec<u64>) -> Option<u64>> {
    pub lazy: &'a LazyVecFrom1<F>,
    pub index: usize,
    pub end_index: usize,
}

impl<'a, F: Fn(usize, &Vec<u64>) -> Option<u64>> LazyVecFrom1Iterator<'a, F> {
    pub fn new(lazy: &'a LazyVecFrom1<F>) -> (r: Self)
        ensures
            r.lazy == lazy,
            r.index == 0,
            r.end_index == lazy.source.values@.len(),
    {
        let len = lazy.source.values.len();
        LazyVecFrom1Iterator { lazy, index: 0, end_index: len }
    }

    /// The value at the current index, if it is before the end and the
    /// computation gives one; the index moves on only then.
    pub fn next(&mut self) -> (r: Option<u64>)
        requires
            old(self).index < old(self).end_index ==> call_requires(
                old(self).lazy.compute,
                (old(self).index, &old(self).lazy.source.values),
            ),
        ensures
            final(self).lazy == old(self).lazy,
            final(self).end_index == old(self).end_index,
            old(self).index >= old(self).end_index ==> r is None && final(self).index == old(self).index,
            old(self).index < old(self).end_index ==> call_ensures(
                old(self).lazy.compute,
                (old(self).index, &old(self).lazy.source.values),
                r,
            ) && final(self).index == if r is Some {
                old(self).index + 1
            } else {
                old(self).index as int
            },
    {
        if self.index >= self.end_index {
            return None;
        }
        let opt = (self.lazy.compute)(self.index, &self.lazy.source.values);
        if opt.is_some() {
            self.index = self.index + 1;
        }
        opt
    }

    /// Skips `n` values and returns the next one; past the end, stops there.
    pub fn nth(&mut self, n: usize) -> (r: Option<u64>)
        requires
            forall|i: usize| old(self).index <= i < old(self).end_index ==> call_requires(
                old(self).lazy.compute,
                (i, &old(self).lazy.source.values),
            ),
        ensures
            final(self).lazy == old(self).lazy,
            final(self).end_index == old(self).end_index,
            ({
                let target = old(self).index + n;
                &&& target >= old(self).end_index ==> r is None && final(self).index == if n == 0 {
                    old(self).index
                } else {
                    old(self).end_index
                }
                &&& target < old(self).end_index ==> call_ensures(
                    old(self).lazy.compute,
                    (target as usize, &old(self).lazy.source.values),
                    r,
                ) && final(self).index == if r is Some {
                    target + 1
                } else {
                    target
                }
            }),
    {
        if n == 0 {
            return self.next();
        }
        let new_index = self.index.saturating_add(n);
        if new_index >= self.end_index {
            self.index = self.end_index;
            return None;
        }
        self.index = new_index;
        self.next()
    }

    /// The value at the last index, unless the iterator is past it.
    pub fn last(self) -> (r: Option<u64>)
        requires
            self.end_index > 0 && self.index < self.end_index ==> call_requires(
                self.lazy.compute,
                ((self.end_index - 1) as usize, &&self.lazy.source.values),
            ),
        ensures
            self.end_index == 0 || self.index > self.end_index - 1 ==> r is None,
            self.end_index > 0 && self.index <= self.end_index - 1 ==> call_ensures(
                self.lazy.compute,
                ((self.end_index - 1) as usize, &&self.lazy.source.values),
                r,
            ),
    {
        if self.end_index == 0 {
            return None;
        }
        let last_index = self.end_index - 1;
        if self.index > last_index {
            return None;
        }
        let mut this = self;
        this.index = last_index;
        this.next()
    }

    /// How many values are left.
    pub fn len(&self) -> (r: usize)
        ensures
            r == if self.end_index >= self.index { self.end_index - self.index } else { 0 },
    {
        if self.end_index >= self.index {
            self.end_index - self.index
        } else {
            0
        }
    }

    /// Moves to index `i`, but not past the end.
    pub fn set_position_to(&mut self, i: usize)
        ensures
            final(self).lazy == old(self).lazy,
            final(self).end_index == old(self).end_index,
            final(self).index == if i <= old(self).end_index { i } else { old(self).end_index },
    {
        self.index = min_usize(i, self.end_index);
    }

    /// Moves the end to index `i`, when that shortens the iteration.
    pub fn set_end_to(&mut self, i: usize)
        ensures
            final(self).lazy == old(self).lazy,
            final(self).index == old(self).index,
            final(self).end_index == if i <= old(self).end_index { i } else { old(self).end_index },
    {
        self.end_index = min_usize(i, self.end_index);
    }

    /// The length of the source.
    pub fn vec_len(&self) -> (r: usize)
        ensures
            r == self.lazy.source.values@.len(),
    {
        self.lazy.source.values.len()
    }
}

/// A vector whose values are computed from two sources when read: value `i`
/// is `compute(i, source1, source2)`, and nothing is stored. At least one
/// source has the index type of the vector, and the vector is as long as the
/// shortest of those.
pub struct LazyVecFrom2<F: Fn(usize, &Vec<u64>, &Vec<u64>) -> Option<u64>> {
    pub name: String,
    pub version: Version,
    pub index: String,
    pub source1: SourceVec,
    pub source2: SourceVec,
    pub compute: F,
}

impl<F: Fn(usize, &Vec<u64>, &Vec<u64>) -> Option<u64>> LazyVecFrom2<F> {
    /// The length: the smallest length of the sources with the vector's
    /// index type.
    pub open spec fn spec_len(&self) -> int {
        let a = spec_source_len(self.source1, self.index@);
        let b = spec_source_len(self.source2, self.index@);
        if a <= b {
            a
        } else {
            b
        }
    }

    /// The length is the shorter of the sources with the vector's index type:
    /// no longer than either, and as long as one of them (without a bound
    /// only when neither source has that index type). A source holds at most
    /// `usize::MAX` values.
    pub proof fn lemma_len_is_shortest_source(&self)
        requires
            self.source1.values@.len() <= usize::MAX,
            self.source2.values@.len() <= usize::MAX,
        ensures
            self.source1.index@ == self.index@ ==> self.spec_len() <= self.source1.values@.len(),
            self.source2.index@ == self.index@ ==> self.spec_len() <= self.source2.values@.len(),
            (self.source1.index@ == self.index@ && self.spec_len() == self.source1.values@.len())
                || (self.source2.index@ == self.index@ && self.spec_len()
                == self.source2.values@.len()) || (self.source1.index@ != self.index@
                && self.source2.index@ != self.index@ && self.spec_len() == usize::MAX),
    {
    }

    /// A lazy vector of index type `index`; at least one source must have
    /// that index type.
    pub fn init(
        name: &str,
        version: Version,
        index: &str,
        source1: SourceVec,
        source2: SourceVec,
        compute: F,
    ) -> (r: Self)
        requires
            source1.index@ == index@ || source2.index@ == index@,
        ensures
            r.name@ == name@,
            r.version == version,
            r.index@ == index@,
            r.source1 == source1,
            r.source2 == source2,
            r.compute == compute,
    {
        LazyVecFrom2 { name: name.to_owned(), version, index: index.to_owned(), source1, source2, compute }
    }

    pub fn version(&self) -> (r: Version)
        ensures
            r == self.version,
    {
        self.version
    }

    pub fn name(&self) -> (r: &str)
        ensures
            r@ == self.name@,
    {
        self.name.as_str()
    }

    /// A lazy vector stores nothing: it has no region.
    pub fn region_names(&self) -> (r: Vec<String>)
        ensures
            r@.len() == 0,
    {
        Vec::new()
    }

    pub fn len(&self) -> (r: usize)
        ensures
            r == self.spec_len(),
    {
        let a = source_len(&self.source1, &self.index);
        let b = source_len(&self.source2, &self.index);
        min_usize(a, b)
    }

    pub fn iter(&self) -> (r: LazyVecFrom2Iterator<'_, F>)
        ensures
            r.lazy == self,
            r.index == 0,
            r.end_index == self.spec_len(),
    {
        LazyVecFrom2Iterator::new(self)
    }
}

/// Iterator over the values of a `LazyVecFrom2`, from `index` up to
/// `end_index`.
pub struct LazyVecFrom2Iterator<'a, F: Fn(usize, &Vec<u64>, &Vec<u64>) -> Option<u64>> {
    pub lazy: &'a LazyVecFrom2<F>,
    pub index: usize,
    pub end_index: usize,
}

impl<'a, F: Fn(usize, &Vec<u64>, &Vec<u64>) -> Option<u64>> LazyVecFrom2Iterator<'a, F> {
    pub fn new(lazy: &'a LazyVecFrom2<F>) -> (r: Self)
        ensures
            r.lazy == lazy,
            r.index == 0,
            r.end_index == lazy.spec_len(),
    {
        let end_index = lazy.len();
        LazyVecFrom2Iterator { lazy, index: 0, end_index }
    }

    /// The value at the current index, if it is before the end and the
    /// computation gives one; the index moves on only then.
    pub fn next(&mut self) -> (r: Option<u64>)
        requires
            old(self).index < old(self).end_index ==> call_requires(
                old(self).lazy.compute,
                (old(self).index, &old(self).lazy.source1.values, &old(self).lazy.source2.values),
            ),
        ensures
            final(self).lazy == old(self).lazy,
            final(self).end_index == old(self).end_index,
            old(self).index >= old(self).end_index ==> r is None && final(self).index == old(self).index,
            old(self).index < old(self).end_index ==> call_ensures(
                old(self).lazy.compute,
                (old(self).index, &old(self).lazy.source1.values, &old(self).lazy.source2.values),
                r,
            ) && final(self).index == if r is Some {
                old(self).index + 1
            } else {
                old(self).index as int
            },
    {
        if self.index >= self.end_index {
            return None;
        }
        let opt = (self.lazy.compute)(
            self.index,
            &self.lazy.source1.values,
            &self.lazy.source2.values,
        );
        if opt.is_some() {
            self.index = self.index + 1;
        }
        opt
    }

    /// Skips `n` values and returns the next one; past the end, stops there.
    pub fn nth(&mut self, n: usize) -> (r: Option<u64>)
        requires
            forall|i: usize| old(self).index <= i < old(self).end_index ==> call_requires(
                old(self).lazy.compute,
                (i, &old(self).lazy.source1.values, &old(self).lazy.source2.values),
            ),
        ensures
            final(self).lazy == old(self).lazy,
            final(self).end_index == old(self).end_index,
            ({
                let target = old(self).index + n;
                &&& target >= old(self).end_index ==> r is None && final(self).index == if n == 0 {
                    old(self).index
                } else {
                    old(self).end_index
                }
                &&& target < old(self).end_index ==> call_ensures(
                    old(self).lazy.compute,
                    (target as usize, &old(self).lazy.source1.values, &old(self).lazy.source2.values),
                    r,
                ) && final(self).index == if r is Some {
                    target + 1
                } else {
                    target
                }
            }),
    {
        if n == 0 {
            return self.next();
        }
        let new_index = self.index.saturating_add(n);
        if new_index >= self.end_index {
            self.index = self.end_index;
            return None;
        }
        self.index = new_index;
        self.next()
    }

    /// The value at the last index, unless the iterator is past it.
    pub fn last(self) -> (r: Option<u64>)
        requires
            self.end_index > 0 && self.index < self.end_index ==> call_requires(
                self.lazy.compute,
                ((self.end_index - 1) as usize, &self.lazy.source1.values, &self.lazy.source2.values),
            ),
        ensures
            self.end_index == 0 || self.index > self.end_index - 1 ==> r is None,
            self.end_index > 0 && self.index <= self.end_index - 1 ==> call_ensures(
                self.lazy.compute,
                ((self.end_index - 1) as usize, &self.lazy.source1.values, &self.lazy.source2.values),
                r,
            ),
    {
        if self.end_index == 0 {
            return None;
        }
        let last_index = self.end_index - 1;
        if self.index > last_index {
            return None;
        }
        let mut this = self;
        this.index = last_index;
        this.next()
    }

    /// How many values are left.
    pub fn len(&self) -> (r: usize)
        ensures
            r == if self.end_index >= self.index { self.end_index - self.index } else { 0 },
    {
        if self.end_index >= self.index {
            self.end_index - self.index
        } else {
            0
        }
    }

    /// Moves to index `i`, but not past the end.
    pub fn set_position_to(&mut self, i: usize)
        ensures
            final(self).lazy == old(self).lazy,
            final(self).end_index == old(self).end_index,
            final(self).index == if i <= old(self).end_index { i } else { old(self).end_index },
    {
        self.index = min_usize(i, self.end_index);
    }

    /// Moves the end to index `i`, when that shortens the iteration.
    pub fn set_end_to(&mut self, i: usize)
        ensures
            final(self).lazy == old(self).lazy,
            final(self).index == old(self).index,
            final(self).end_index == if i <= old(self).end_index { i } else { old(self).end_index },
    {
        self.end_index = min_usize(i, self.end_index);
    }
}

/// A vector whose values are computed from three sources when read: value
/// `i` is `compute(i, source1, source2, source3)`, and nothing is stored. At
/// least one source has the index type of the vector, and the vector is as
/// long as the shortest of those.
pub struct LazyVecFrom3<F: Fn(usize, &Vec<u64>, &Vec<u64>, &Vec<u64>) -> Option<u64>> {
    pub name: String,
    pub version: Version,
    pub index: String,
    pub source1: SourceVec,
    pub source2: SourceVec,
    pub source3: SourceVec,
    pub compute: F,
}

impl<F: Fn(usize, &Vec<u64>, &Vec<u64>, &Vec<u64>) -> Option<u64>> LazyVecFrom3<F> {
    /// The length: the smallest length of the sources with the vector's
    /// index type.
    pub open spec fn spec_len(&self) -> int {
        let a = spec_source_len(self.source1, self.index@);
        let b = spec_source_len(self.source2, self.index@);
        let c = spec_source_len(self.source3, self.index@);
        let ab = if a <= b {
            a
        } else {
            b
        };
        if ab <= c {
            ab
        } else {
            c
        }
    }

    /// The length is the shortest of the sources with the vector's index
    /// type: no longer than any of them, and as long as one of them (without
    /// a bound only when no source has that index type). A source holds at
    /// most `usize::MAX` values.
    pub proof fn lemma_len_is_shortest_source(&self)
        requires
            self.source1.values@.len() <= usize::MAX,
            self.source2.values@.len() <= usize::MAX,
            self.source3.values@.len() <= usize::MAX,
        ensures
            self.source1.index@ == self.index@ ==> self.spec_len() <= self.source1.values@.len(),
            self.source2.index@ == self.index@ ==> self.spec_len() <= self.source2.values@.len(),
            self.source3.index@ == self.index@ ==> self.spec_len() <= self.source3.values@.len(),
            (self.source1.index@ == self.index@ && self.spec_len() == self.source1.values@.len())
                || (self.source2.index@ == self.index@ && self.spec_len()
                == self.source2.values@.len()) || (self.source3.index@ == self.index@
                && self.spec_len() == self.source3.values@.len()) || (self.source1.index@
                != self.index@ && self.source2.index@ != self.index@ && self.source3.index@
                != self.index@ && self.spec_len() == usize::MAX),
    {
    }

    /// A lazy vector of index type `index`; at least one source must have
    /// that index type.
    pub fn init(
        name: &str,
        version: Version,
        index: &str,
        source1: SourceVec,
        source2: SourceVec,
        source3: SourceVec,
        compute: F,
    ) -> (r: Self)
        requires
            source1.index@ == index@ || source2.index@ == index@ || source3.index@ == index@,
        ensures
            r.name@ == name@,
            r.version == version,
            r.index@ == index@,
            r.source1 == source1,
            r.source2 == source2,
            r.source3 == source3,
            r.compute == compute,
    {
        LazyVecFrom3 {
            name: name.to_owned(),
            version,
            index: index.to_owned(),
            source1,
            source2,
            source3,
            compute,
        }
    }

    pub fn version(&self) -> (r: Version)
        ensures
            r == self.version,
    {
        self.version
    }

    pub fn name(&self) -> (r: &str)
        ensures
            r@ == self.name@,
    {
        self.name.as_str()
    }

    /// A lazy vector stores nothing: it has no region.
    pub fn region_names(&self) -> (r: Vec<String>)
        ensures
            r@.len() == 0,
    {
        Vec::new()
    }

    pub fn len(&self) -> (r: usize)
        ensures
            r == self.spec_len(),
    {
        let a = source_len(&self.source1, &self.index);
        let b = source_len(&self.source2, &self.index);
        let c = source_len(&self.source3, &self.index);
        min_usize(min_usize(a, b), c)
    }

    pub fn iter(&self) -> (r: LazyVecFrom3Iterator<'_, F>)
        ensures
            r.lazy == self,
            r.index == 0,
            r.end_index == self.spec_len(),
    {
        LazyVecFrom3Iterator::new(self)
    }
}

/// Iterator over the values of a `LazyVecFrom3`, from `index` up to
/// `end_index`.
pub struct LazyVecFrom3Iterator<'a, F: Fn(usize, &Vec<u64>, &Vec<u64>, &Vec<u64>) -> Option<u64>> {
    pub lazy: &'a LazyVecFrom3<F>,
    pub index: usize,
    pub end_index: usize,
}

impl<'a, F: Fn(usize, &Vec<u64>, &Vec<u64>, &Vec<u64>) -> Option<u64>> LazyVecFrom3Iterator<'a, F> {
    pub fn new(lazy: &'a LazyVecFrom3<F>) -> (r: Self)
        ensures
            r.lazy == lazy,
            r.index == 0,
            r.end_index == lazy.spec_len(),
    {
        let end_index = lazy.len();
        LazyVecFrom3Iterator { lazy, index: 0, end_index }
    }

    /// The value at the current index, if it is before the end and the
    /// computation gives one; the index moves on only then.
    pub fn next(&mut self) -> (r: Option<u64>)
        requires
            old(self).index < old(self).end_index ==> call_requires(
                old(self).lazy.compute,
                (
                    old(self).index,
                    &old(self).lazy.source1.values,
                    &old(self).lazy.source2.values,
                    &old(self).lazy.source3.values,
                ),
            ),
        ensures
            final(self).lazy == old(self).lazy,
            final(self).end_index == old(self).end_index,
            old(self).index >= old(self).end_index ==> r is None && final(self).index == old(self).index,
            old(self).index < old(self).end_index ==> call_ensures(
                old(self).lazy.compute,
                (
                    old(self).index,
                    &old(self).lazy.source1.values,
                    &old(self).lazy.source2.values,
                    &old(self).lazy.source3.values,
                ),
                r,
            ) && final(self).index == if r is Some {
                old(self).index + 1
            } else {
                old(self).index as int
            },
    {
        if self.index >= self.end_index {
            return None;
        }
        let opt = (self.lazy.compute)(
            self.index,
            &self.lazy.source1.values,
            &self.lazy.source2.values,
            &self.lazy.source3.values,
        );
        if opt.is_some() {
            self.index = self.index + 1;
        }
        opt
    }

    /// Skips `n` values and returns the next one; past the end, stops there.
    pub fn nth(&mut self, n: usize) -> (r: Option<u64>)
        requires
            forall|i: usize| old(self).index <= i < old(self).end_index ==> call_requires(
                old(self).lazy.compute,
                (
                    i,
                    &old(self).lazy.source1.values,
                    &old(self).lazy.source2.values,
                    &old(self).lazy.source3.values,
                ),
            ),
        ensures
            final(self).lazy == old(self).lazy,
            final(self).end_index == old(self).end_index,
            ({
                let target = old(self).index + n;
                &&& target >= old(self).end_index ==> r is None && final(self).index == if n == 0 {
                    old(self).index
                } else {
                    old(self).end_index
                }
                &&& target < old(self).end_index ==> call_ensures(
                    old(self).lazy.compute,
                    (
                        target as usize,
                        &old(self).lazy.source1.values,
                        &old(self).lazy.source2.values,
                        &old(self).lazy.source3.values,
                    ),
                    r,
                ) && final(self).index == if r is Some {
                    target + 1
                } else {
                    target
                }
            }),
    {
        if n == 0 {
            return self.next();
        }
        let new_index = self.index.saturating_add(n);
        if new_index >= self.end_index {
            self.index = self.end_index;
            return None;
        }
        self.index = new_index;
        self.next()
    }

    /// The value at the last index, unless the iterator is past it.
    pub fn last(self) -> (r: Option<u64>)
        requires
            self.end_index > 0 && self.index < self.end_index ==> call_requires(
                self.lazy.compute,
                (
                    (self.end_index - 1) as usize,
                    &self.lazy.source1.values,
                    &self.lazy.source2.values,
                    &self.lazy.source3.values,
                ),
            ),
        ensures
            self.end_index == 0 || self.index > self.end_index - 1 ==> r is None,
            self.end_index > 0 && self.index <= self.end_index - 1 ==> call_ensures(
                self.lazy.compute,
                (
                    (self.end_index - 1) as usize,
                    &self.lazy.source1.values,
                    &self.lazy.source2.values,
                    &self.lazy.source3.values,
                ),
                r,
            ),
    {
        if self.end_index == 0 {
            return None;
        }
        let last_index = self.end_index - 1;
        if self.index > last_index {
            return None;
        }
        let mut this = self;
        this.index = last_index;
        this.next()
    }

    /// How many values are left.
    pub fn len(&self) -> (r: usize)
        ensures
            r == if self.end_index >= self.index { self.end_index - self.index } else { 0 },
    {
        if self.end_index >= self.index {
            self.end_index - self.index
        } else {
            0
        }
    }

    /// Moves to index `i`, but not past the end.
    pub fn set_position_to(&mut self, i: usize)
        ensures
            final(self).lazy == old(self).lazy,
            final(self).end_index == old(self).end_index,
            final(self).index == if i <= old(self).end_index { i } else { old(self).end_index },
    {
        self.index = min_usize(i, self.end_index);
    }

    /// Moves the end to index `i`, when that shortens the iteration.
    pub fn set_end_to(&mut self, i: usize)
        ensures
            final(self).lazy == old(self).lazy,
            final(self).index == old(self).index,
            final(self).end_index == if i <= old(self).end_index { i } else { old(self).end_index },
    {
        self.end_index = min_usize(i, self.end_index);
    }

    /// The length of the first source with the vector's index type.
    pub fn vec_len(&self) -> (r: usize)
        requires
            self.lazy.source1.index@ == self.lazy.index@ || self.lazy.source2.index@ == self.lazy.index@
                || self.lazy.source3.index@ == self.lazy.index@,
        ensures
            r == if self.lazy.source1.index@ == self.lazy.index@ {
                self.lazy.source1.values@.len()
            } else if self.lazy.source2.index@ == self.lazy.index@ {
                self.lazy.source2.values@.len()
            } else {
                self.lazy.source3.values@.len()
            },
    {
        if self.lazy.source1.index == self.lazy.index {
            self.lazy.source1.values.len()
        } else if self.lazy.source2.index == self.lazy.index {
            self.lazy.source2.values.len()
        } else {
            self.lazy.source3.values.len()
        }
    }
}

} // verus!
