use vstd::prelude::*;

use crate::eager::window::spec_seq_sum;
use crate::eager::{EagerVec, spec_range_values, spec_replaced};
use crate::error::Error;
use crate::version::Version;

verus! {

/// Where reading `c` values from position `p` of a source of `n` values
/// stops: `p + c`, or the end of the source.
pub open spec fn spec_take_end(p: int, c: u64, n: int) -> int {
    if p >= n {
        p
    } else if p + c >= n {
        n
    } else {
        p + c
    }
}

/// The position in the source before index `i` is summed: `p0` before
/// `from`, and each index then reads its count of values.
pub open spec fn spec_sum_pos(p0: int, counts: Seq<u64>, n: int, from: int, i: int) -> int
    decreases i - from,
{
    if i <= from {
        p0
    } else {
        spec_take_end(spec_sum_pos(p0, counts, n, from, i - 1), counts[i - 1], n)
    }
}

/// The sum written at index `i`: the `counts[i]` source values read from
/// where the previous index stopped.
pub open spec fn spec_sum_from(p0: int, counts: Seq<u64>, src: Seq<u64>, from: int, i: int) -> int {
    let p = spec_sum_pos(p0, counts, src.len() as int, from, i);
    spec_seq_sum(src, p, spec_take_end(p, counts[i], src.len() as int))
}

/// Where a sum from indexes starts reading the source: at the first index
/// of `max_from`, or at the start when there is none.
pub open spec fn spec_sum_start(first_indexes: Seq<u64>, max_from: usize) -> int {
    if max_from < first_indexes.len() {
        first_indexes[max_from as int] as int
    } else {
        0
    }
}

/// Every sum from indexes written from `from` on fits a `u64`.
pub open spec fn sums_from_fit(p0: int, counts: Seq<u64>, src: Seq<u64>, from: int) -> bool {
    forall|i: int| from <= i < counts.len() ==> #[trigger] spec_sum_from(p0, counts, src, from, i) <= u64::MAX
}

/// The end of the range of index `i`: the first index of the next one, or
/// the length of the other vector for the last.
pub open spec fn spec_range_end(first_indexes: Seq<u64>, other_len: int, i: int) -> int {
    if i + 1 < first_indexes.len() {
        first_indexes[i + 1] as int
    } else {
        other_len
    }
}

/// The number of indices in the range of index `i`.
pub open spec fn spec_range_count(first_indexes: Seq<u64>, other_len: int, i: int) -> int {
    let end = spec_range_end(first_indexes, other_len, i);
    if end > first_indexes[i] {
        end - first_indexes[i]
    } else {
        0
    }
}

/// The number of `true` values.
pub open spec fn spec_count_true(bs: Seq<bool>) -> int
    decreases bs.len(),
{
    if bs.len() == 0 {
        0
    } else {
        spec_count_true(bs.drop_last()) + if bs.last() {
            1int
        } else {
            0
        }
    }
}

/// `c` counts the indices in `[from, to)` that `filter` may accept.
pub open spec fn filter_counted<F: Fn(u64) -> bool>(filter: F, from: int, to: int, c: u64) -> bool {
    exists|bs: Seq<bool>|
        bs.len() == (if to > from { to - from } else { 0 }) && (forall|k: int|
            0 <= k < bs.len() ==> call_ensures(filter, ((from + k) as u64,), #[trigger] bs[k]))
            && c == spec_count_true(bs)
}

/// The sum of the range counts of the first `k` indexes.
pub open spec fn spec_counts_total(first_indexes: Seq<u64>, other_len: int, k: int) -> int
    decreases k,
{
    if k <= 0 {
        0
    } else {
        spec_counts_total(first_indexes, other_len, k - 1) + spec_range_count(
            first_indexes,
            other_len,
            k - 1,
        )
    }
}

/// When the first indexes do not decrease and the last is within the other
/// vector, the ranges cover the other vector from the first first index to
/// its end: the counts of all indexes add up to `other_len - first_indexes[0]`,
/// and the counts of the first `k` add up to the distance to `first_indexes[k]`.
pub proof fn lemma_range_counts_cover(first_indexes: Seq<u64>, other_len: int, k: int)
    requires
        0 < k <= first_indexes.len(),
        forall|a: int, b: int| 0 <= a <= b < first_indexes.len() ==> first_indexes[a] <= first_indexes[b],
        first_indexes[first_indexes.len() - 1] <= other_len,
    ensures
        k < first_indexes.len() ==> spec_counts_total(first_indexes, other_len, k) == first_indexes[k]
            - first_indexes[0],
        k == first_indexes.len() ==> spec_counts_total(first_indexes, other_len, k) == other_len
            - first_indexes[0],
    decreases k,
{
    let j = k - 1;
    if k > 1 {
        lemma_range_counts_cover(first_indexes, other_len, j);
        assert(spec_counts_total(first_indexes, other_len, j) == first_indexes[j] - first_indexes[0]);
    } else {
        assert(spec_counts_total(first_indexes, other_len, 0) == 0);
    }
    let end = spec_range_end(first_indexes, other_len, j);
    if k == first_indexes.len() {
        assert(first_indexes[j] <= other_len);
        assert(end == other_len);
    } else {
        assert(first_indexes[j] <= first_indexes[j + 1]);
        assert(end == first_indexes[k]);
    }
    assert(spec_range_count(first_indexes, other_len, j) == end - first_indexes[j]);
    assert(spec_counts_total(first_indexes, other_len, k) == spec_counts_total(first_indexes, other_len, j)
        + spec_range_count(first_indexes, other_len, j));
}

/// The number of indices `j` in `[from, to)` for which `p(j)` holds.
pub open spec fn spec_count_where(p: spec_fn(u64) -> bool, from: int, to: int) -> int
    decreases to - from,
{
    if to <= from {
        0
    } else {
        spec_count_where(p, from, to - 1) + if p((to - 1) as u64) {
            1int
        } else {
            0
        }
    }
}

/// Answers of `p` for the indices `from`, `from + 1`, ... are counted as
/// the indices `p` holds for.
proof fn lemma_count_true_of_answers(bs: Seq<bool>, p: spec_fn(u64) -> bool, from: int)
    requires
        forall|k: int| 0 <= k < bs.len() ==> #[trigger] bs[k] == p((from + k) as u64),
    ensures
        spec_count_true(bs) == spec_count_where(p, from, from + bs.len()),
    decreases bs.len(),
{
    if bs.len() > 0 {
        let d = bs.drop_last();
        assert forall|k: int| 0 <= k < d.len() implies #[trigger] d[k] == p((from + k) as u64) by {
            assert(d[k] == bs[k]);
        }
        lemma_count_true_of_answers(d, p, from);
        assert(bs.last() == p((from + bs.len() - 1) as u64));
    }
}

/// A filtered count counts the indices themselves: for a filter that
/// answers whether `p` holds of the index it is given, a count of the range
/// `[from, to)` is the number of indices `j` in that range with `p(j)`.
pub proof fn lemma_filter_counted_counts_indices<F: Fn(u64) -> bool>(
    filter: F,
    p: spec_fn(u64) -> bool,
    from: int,
    to: int,
    c: u64,
)
    requires
        forall|j: u64, b: bool| call_ensures(filter, (j,), b) ==> b == p(j),
        filter_counted(filter, from, to, c),
    ensures
        c == spec_count_where(p, from, to),
{
    let lo = from;
    let bs = choose|bs: Seq<bool>|
        bs.len() == (if to > lo { to - lo } else { 0 }) && (forall|k: int|
            0 <= k < bs.len() ==> call_ensures(filter, ((lo + k) as u64,), #[trigger] bs[k]))
            && c == spec_count_true(bs);
    assert forall|k: int| 0 <= k < bs.len() implies #[trigger] bs[k] == p((from + k) as u64) by {
        assert(call_ensures(filter, ((lo + k) as u64,), bs[k]));
    }
    lemma_count_true_of_answers(bs, p, from);
    if to <= from {
        assert(spec_count_where(p, from, to) == 0);
        assert(spec_count_where(p, from, from + 0) == 0);
    }
}

/// The values after writing `value` at indices `first`, ..., `first + count
/// - 1` one after the other, each write dropping what followed; writing past
/// the end fails.
pub open spec fn spec_fill(vals: Seq<Option<u64>>, first: int, count: int, value: u64) -> Result<Seq<Option<u64>>, Error> {
    if count <= 0 {
        Ok(vals)
    } else if first > vals.len() {
        Err(Error::IndexTooHigh { index: first as usize, len: vals.len() as usize })
    } else {
        Ok(vals.take(first) + Seq::new(count as nat, |k: int| Some(value)))
    }
}

/// The values after filling, for each index from `from` to `k`, the range of
/// fine indices it covers with that index.
pub open spec fn spec_less_to_more(
    vals: Seq<Option<u64>>,
    first_indexes: Seq<u64>,
    counts: Seq<u64>,
    from: int,
    k: int,
) -> Result<Seq<Option<u64>>, Error>
    decreases k - from,
{
    if k <= from {
        Ok(vals)
    } else {
        match spec_less_to_more(vals, first_indexes, counts, from, k - 1) {
            Ok(v) => spec_fill(v, first_indexes[k - 1] as int, counts[k - 1] as int, (k - 1) as u64),
            Err(e) => Err(e),
        }
    }
}

/// The state of a more-to-less inversion after the fine indices before `k`:
/// the values, the last coarse index met, and the error that stopped it, if
/// any. Fine index `f` maps to coarse index `other[f]`; a coarse index met
/// again right after itself is skipped; otherwise `f` is written at it when
/// it holds nothing or a larger fine index, which drops what followed it.
pub open spec fn spec_more_to_less(vals: Seq<Option<u64>>, other: Seq<u64>, from: int, k: int) -> (
    Seq<Option<u64>>,
    Option<u64>,
    Option<Error>,
)
    decreases k - from,
{
    if k <= from {
        (vals, None, None)
    } else {
        let (v, prev, err) = spec_more_to_less(vals, other, from, k - 1);
        if err is Some {
            (v, prev, err)
        } else {
            let i = other[k - 1];
            let fine = (k - 1) as u64;
            if prev == Some(i) {
                (v, prev, None)
            } else {
                let cur = if i < v.len() {
                    v[i as int]
                } else {
                    None
                };
                if cur is None || cur->0 > fine {
                    if i > v.len() {
                        (v, prev, Some(Error::IndexTooHigh { index: i as usize, len: v.len() as usize }))
                    } else {
                        (v.take(i as int).push(Some(fine)), Some(i), None)
                    }
                } else {
                    (v, Some(i), None)
                }
            }
        }
    }
}

/// Once stopped by an error, an inversion stays stopped.
proof fn lemma_more_to_less_err(vals: Seq<Option<u64>>, other: Seq<u64>, from: int, k: int, n: int)
    requires
        from <= k <= n,
        spec_more_to_less(vals, other, from, k).2 is Some,
    ensures
        spec_more_to_less(vals, other, from, n) == spec_more_to_less(vals, other, from, k),
    decreases n - k,
{
    if k < n {
        lemma_more_to_less_err(vals, other, from, k + 1, n);
    }
}

/// A sum from indexes asked to start at `max_from` and writing from index
/// `from` starts reading at the first index of `from`: `from` is `max_from`
/// itself, or, when `max_from` is past the first indexes, the first index
/// and its range starts the source.
pub open spec fn starts_at_range(first_indexes: Seq<u64>, max_from: usize, from: int) -> bool {
    ||| max_from < first_indexes.len() && from == max_from
    ||| max_from >= first_indexes.len() && from == 0 && first_indexes.len() > 0 && first_indexes[0] == 0
}

/// Where a sum from indexes reads before index `i`: the first index of `i`,
/// when the ranges from `from` on follow each other and lie in the source.
proof fn lemma_sum_pos_is_first_index(
    first_indexes: Seq<u64>,
    counts: Seq<u64>,
    src: Seq<u64>,
    max_from: usize,
    from: int,
    i: int,
)
    requires
        counts.len() <= first_indexes.len(),
        starts_at_range(first_indexes, max_from, from),
        from <= i < counts.len(),
        forall|j: int| from <= j < counts.len() - 1 ==> #[trigger] first_indexes[j + 1]
            == first_indexes[j] + counts[j],
        forall|j: int| from <= j < counts.len() ==> first_indexes[j] + counts[j] <= src.len(),
    ensures
        spec_sum_pos(spec_sum_start(first_indexes, max_from), counts, src.len() as int, from, i)
            == first_indexes[i],
    decreases i - from,
{
    if i > from {
        lemma_sum_pos_is_first_index(first_indexes, counts, src, max_from, from, i - 1);
        let j = i - 1;
        assert(first_indexes[j + 1] == first_indexes[j] + counts[j]);
        assert(first_indexes[j] + counts[j] <= src.len());
    }
}

/// A sum from indexes recomputed from `from` writes at each index `i` the
/// sum of the source values in the range of `i`, from `first_indexes[i]` for
/// `indexes_count[i]` values, whatever index it resumes from: the read starts
/// at the first index of `max_from` (or at the start of the source when
/// `max_from` is past the first indexes). This holds when the ranges from
/// `from` on follow each other and lie in the source.
pub proof fn lemma_sum_from_indexes_reads_each_range(
    first_indexes: Seq<u64>,
    counts: Seq<u64>,
    src: Seq<u64>,
    max_from: usize,
    from: int,
    i: int,
)
    requires
        counts.len() <= first_indexes.len(),
        starts_at_range(first_indexes, max_from, from),
        from <= i < counts.len(),
        forall|j: int| from <= j < counts.len() - 1 ==> #[trigger] first_indexes[j + 1]
            == first_indexes[j] + counts[j],
        forall|j: int| from <= j < counts.len() ==> first_indexes[j] + counts[j] <= src.len(),
    ensures
        spec_sum_from(spec_sum_start(first_indexes, max_from), counts, src, from, i) == spec_seq_sum(
            src,
            first_indexes[i] as int,
            first_indexes[i] + counts[i],
        ),
{
    lemma_sum_pos_is_first_index(first_indexes, counts, src, max_from, from, i);
    assert(first_indexes[i] + counts[i] <= src.len());
}

impl EagerVec {
    /// Value `i` becomes the sum of `indexes_count[i]` values of `source`,
    /// read one index after the other from the first index of `max_from`
    /// (or from the start); reading stops at the end of the source.
    pub fn compute_sum_from_indexes(
        &mut self,
        max_from: usize,
        first_indexes: &[u64],
        first_indexes_version: Version,
        indexes_count: &[u64],
        indexes_count_version: Version,
        source: &[u64],
    ) -> (r: Result<(), Error>)
        requires
            old(self).wf(),
            indexes_count@.len() <= old(self).capacity(),
            ({
                let kept = old(self).kept(old(self).version2(0, first_indexes_version, indexes_count_version), max_from);
                sums_from_fit(spec_sum_start(first_indexes@, max_from), indexes_count@, source@, kept)
            }),
        ensures
            ({
                let v = old(self).version2(0, first_indexes_version, indexes_count_version);
                let kept = old(self).kept(v, max_from);
                let p0 = spec_sum_start(first_indexes@, max_from);
                &&& final(self).wf()
                &&& final(self).computed_version_view() == v
                &&& final(self).values() == spec_replaced(
                    old(self).base_values(v),
                    kept,
                    spec_range_values(
                        kept,
                        indexes_count@.len() as int,
                        |i: int| spec_sum_from(p0, indexes_count@, source@, kept, i) as u64,
                    ),
                )
            }),
            old(self).format_view() is Raw ==> r is Ok,
    {
        let version = Version::zero().plus(self.inner_version()).plus(first_indexes_version).plus(indexes_count_version);
        assert(version == self.version2(0, first_indexes_version, indexes_count_version));
        let kept = self.begin(version, max_from);
        let n = indexes_count.len();
        let ns = source.len();
        let mut pos: u64 = if max_from < first_indexes.len() {
            first_indexes[max_from]
        } else {
            0
        };
        let ghost p0 = pos as int;
        let mut new: Vec<u64> = Vec::new();
        let mut i = kept;
        while i < n
            invariant
                kept <= i,
                kept < n ==> i <= n,
                kept >= n ==> i == kept,
                n == indexes_count@.len(),
                ns == source@.len(),
                pos == spec_sum_pos(p0, indexes_count@, ns as int, kept as int, i as int),
                sums_from_fit(p0, indexes_count@, source@, kept as int),
                new@ =~= spec_range_values(
                    kept as int,
                    i as int,
                    |j: int| spec_sum_from(p0, indexes_count@, source@, kept as int, j) as u64,
                ),
            decreases n - i,
        {
            let count = indexes_count[i];
            let end: u64 = if pos >= ns as u64 {
                pos
            } else if count >= ns as u64 - pos {
                ns as u64
            } else {
                pos + count
            };
            assert(end == spec_take_end(pos as int, count, ns as int));
            assert(spec_sum_from(p0, indexes_count@, source@, kept as int, i as int) <= u64::MAX);
            let mut sum: u64 = 0;
            let mut j = pos;
            while j < end
                invariant
                    pos <= j <= end,
                    end <= ns || end == pos,
                    ns == source@.len(),
                    sum == spec_seq_sum(source@, pos as int, j as int),
                    spec_seq_sum(source@, pos as int, end as int) <= u64::MAX,
                decreases end - j,
            {
                proof {
                    lemma_seq_sum_grows(source@, pos as int, (j + 1) as int, end as int);
                }
                sum = sum + source[j as usize];
                j = j + 1;
            }
            new.push(sum);
            pos = end;
            i = i + 1;
        }
        assert(new@ =~= spec_range_values(
            kept as int,
            n as int,
            |j: int| spec_sum_from(p0, indexes_count@, source@, kept as int, j) as u64,
        ));
        self.finish(kept, new)
    }

    /// Value `i` becomes the number of indices from `first_indexes[i]` up to
    /// the next first index (or the length of the other vector, for the
    /// last), counting only those that `filter` accepts when `filtered`.
    pub fn compute_filtered_count_from_indexes_<F: Fn(u64) -> bool>(
        &mut self,
        max_from: usize,
        first_indexes: &[u64],
        first_indexes_version: Version,
        other_len: usize,
        other_version: Version,
        filter: F,
        filtered: bool,
    ) -> (r: Result<(), Error>)
        requires
            old(self).wf(),
            first_indexes@.len() <= old(self).capacity(),
            filtered ==> forall|j: u64| call_requires(filter, (j,)),
        ensures
            ({
                let v = old(self).version2(0, first_indexes_version, other_version);
                let kept = old(self).kept(v, max_from);
                let base = old(self).base_values(v);
                let n = first_indexes@.len() as int;
                &&& final(self).wf()
                &&& final(self).computed_version_view() == v
                &&& kept >= n ==> final(self).values() == base
                &&& kept < n ==> final(self).spec_len() == n && final(self).values().take(kept)
                    == base.take(kept) && forall|i: int|
                    kept <= i < n ==> (#[trigger] final(self).value_at(i) matches Some(c) && if filtered {
                        filter_counted(filter, first_indexes@[i] as int, spec_range_end(first_indexes@, other_len as int, i), c)
                    } else {
                        c == spec_range_count(first_indexes@, other_len as int, i)
                    })
            }),
            old(self).format_view() is Raw ==> r is Ok,
    {
        let version = Version::zero().plus(self.inner_version()).plus(first_indexes_version).plus(other_version);
        let ghost kept = self.kept(version, max_from);
        let n = first_indexes.len();
        let fr = &filter;
        let f = |i: usize| -> (c: u64)
            requires
                i < n,
                n == first_indexes@.len(),
                filtered ==> forall|j: u64| call_requires(fr, (j,)),
            ensures
                if filtered {
                    filter_counted(*fr, first_indexes@[i as int] as int, spec_range_end(first_indexes@, other_len as int, i as int), c)
                } else {
                    c == spec_range_count(first_indexes@, other_len as int, i as int)
                },
            {
                let start = first_indexes[i];
                let end: u64 = if i + 1 < n {
                    first_indexes[i + 1]
                } else {
                    other_len as u64
                };
                if !filtered {
                    if end > start {
                        end - start
                    } else {
                        0
                    }
                } else {
                    let mut c: u64 = 0;
                    let mut j = start;
                    let ghost mut bs: Seq<bool> = Seq::empty();
                    while j < end
                        invariant
                            start <= j <= end || (j == start && end <= start),
                            bs.len() == j - start,
                            forall|k: int| 0 <= k < bs.len() ==> call_ensures(*fr, ((start + k) as u64,), #[trigger] bs[k]),
                            c == spec_count_true(bs),
                            c <= j - start,
                            forall|x: u64| call_requires(fr, (x,)),
                        decreases end - j,
                    {
                        let keep = fr(j);
                        proof {
                            assert(bs.push(keep).drop_last() =~= bs);
                            bs = bs.push(keep);
                        }
                        if keep {
                            c = c + 1;
                        }
                        j = j + 1;
                    }
                    assert(bs.len() == if end > start { end - start } else { 0 });
                    c
                }
            };
        self.compute_indexed(version, max_from, n, f)
    }

    /// Value `i` becomes the number of indices from `first_indexes[i]` up to
    /// the next first index, or the length of the other vector for the last.
    pub fn compute_count_from_indexes(
        &mut self,
        max_from: usize,
        first_indexes: &[u64],
        first_indexes_version: Version,
        other_len: usize,
        other_version: Version,
    ) -> (r: Result<(), Error>)
        requires
            old(self).wf(),
            first_indexes@.len() <= old(self).capacity(),
        ensures
            ({
                let v = old(self).version2(0, first_indexes_version, other_version);
                let kept = old(self).kept(v, max_from);
                let base = old(self).base_values(v);
                let n = first_indexes@.len() as int;
                &&& final(self).wf()
                &&& final(self).computed_version_view() == v
                &&& kept >= n ==> final(self).values() == base
                &&& kept < n ==> final(self).spec_len() == n && final(self).values().take(kept)
                    == base.take(kept) && forall|i: int|
                    kept <= i < n ==> #[trigger] final(self).value_at(i) == Some(
                        spec_range_count(first_indexes@, other_len as int, i) as u64,
                    )
            }),
            old(self).format_view() is Raw ==> r is Ok,
    {
        let accept = |_j: u64| -> (b: bool)
            ensures
                b,
            { true };
        self.compute_filtered_count_from_indexes_(max_from, first_indexes, first_indexes_version, other_len, other_version, accept, false)
    }

    /// Value `i` becomes the number of indices from `first_indexes[i]` up to
    /// the next first index (or the length of the other vector, for the
    /// last) that `filter` accepts.
    pub fn compute_filtered_count_from_indexes<F: Fn(u64) -> bool>(
        &mut self,
        max_from: usize,
        first_indexes: &[u64],
        first_indexes_version: Version,
        other_len: usize,
        other_version: Version,
        filter: F,
    ) -> (r: Result<(), Error>)
        requires
            old(self).wf(),
            first_indexes@.len() <= old(self).capacity(),
            forall|j: u64| call_requires(filter, (j,)),
        ensures
            ({
                let v = old(self).version2(0, first_indexes_version, other_version);
                let kept = old(self).kept(v, max_from);
                let base = old(self).base_values(v);
                let n = first_indexes@.len() as int;
                &&& final(self).wf()
                &&& final(self).computed_version_view() == v
                &&& kept >= n ==> final(self).values() == base
                &&& kept < n ==> final(self).spec_len() == n && final(self).values().take(kept)
                    == base.take(kept) && forall|i: int|
                    kept <= i < n ==> (#[trigger] final(self).value_at(i) matches Some(c)
                        && filter_counted(filter, first_indexes@[i] as int, spec_range_end(first_indexes@, other_len as int, i), c))
            }),
            old(self).format_view() is Raw ==> r is Ok,
    {
        self.compute_filtered_count_from_indexes_(max_from, first_indexes, first_indexes_version, other_len, other_version, filter, true)
    }

    /// For each index `k` from where the stored values end (or `max_from`,
    /// when smaller) up to the length of `first_indexes`, writes `k` at the
    /// `indexes_count[k]` fine indices from `first_indexes[k]` on; writing
    /// past the end fails with `IndexTooHigh` and stops there. Flushes when
    /// every index was written.
    pub fn compute_inverse_less_to_more(
        &mut self,
        max_from: usize,
        first_indexes: &[u64],
        first_indexes_version: Version,
        indexes_count: &[u64],
        indexes_count_version: Version,
    ) -> (r: Result<(), Error>)
        requires
            old(self).wf(),
            ({
                let kept = old(self).kept(old(self).version2(0, first_indexes_version, indexes_count_version), max_from);
                &&& kept < first_indexes@.len() ==> indexes_count@.len() >= first_indexes@.len()
                &&& forall|k: int| kept <= k < first_indexes@.len() ==> #[trigger] first_indexes@[k] + indexes_count@[k] <= old(self).capacity()
            }),
        ensures
            ({
                let v = old(self).version2(0, first_indexes_version, indexes_count_version);
                let kept = old(self).kept(v, max_from);
                let res = spec_less_to_more(old(self).base_values(v), first_indexes@, indexes_count@, kept, first_indexes@.len() as int);
                &&& final(self).wf()
                &&& final(self).computed_version_view() == v
                &&& match res {
                    Ok(vals) => final(self).values() == vals && (old(self).format_view() is Raw ==> r is Ok),
                    Err(e) => r == Err::<(), Error>(e),
                }
            }),
    {
        let version = Version::zero().plus(self.inner_version()).plus(first_indexes_version).plus(indexes_count_version);
        assert(version == self.version2(0, first_indexes_version, indexes_count_version));
        let ghost v = version;
        let ghost base = self.base_values(version);
        let ghost old_self = *self;
        let kept = self.begin(version, max_from);
        let n = first_indexes.len();
        let mut k = kept;
        while k < n
            invariant
                self.wf(),
                kept <= k,
                kept < n ==> k <= n,
                kept >= n ==> k == kept,
                n == first_indexes@.len(),
                kept < n ==> indexes_count@.len() >= n,
                self.capacity() == old_self.capacity(),
                forall|j: int| kept <= j < n ==> #[trigger] first_indexes@[j] + indexes_count@[j] <= self.capacity(),
                spec_less_to_more(base, first_indexes@, indexes_count@, kept as int, k as int) == Ok::<Seq<Option<u64>>, Error>(self.values()),
                self.computed_version_view() == v,
                self.format_view() == old_self.format_view(),
                v == old(self).version2(0, first_indexes_version, indexes_count_version),
                kept == old(self).kept(v, max_from),
                base == old(self).base_values(v),
            decreases n - k,
        {
            let first = first_indexes[k];
            let count = indexes_count[k];
            assert(first_indexes@[k as int] + indexes_count@[k as int] <= self.capacity());
            let ghost before = self.values();
            proof {
                lemma_less_to_more_step(base, first_indexes@, indexes_count@, kept as int, k as int);
            }
            let mut idx = first;
            let end = first + count;
            while idx < end
                invariant
                    self.wf(),
                    first <= idx <= end,
                    end == first + count,
                    end <= self.capacity(),
                    self.capacity() == old_self.capacity(),
                    idx > first ==> first <= before.len() && self.values() == before.take(first as int) + Seq::new((idx - first) as nat, |j: int| Some(k as u64)),
                    idx == first ==> self.values() == before,
                    self.computed_version_view() == v,
                    self.format_view() == old_self.format_view(),
                    kept <= k < n,
                    n == first_indexes@.len(),
                    first == first_indexes@[k as int],
                    count == indexes_count@[k as int],
                    spec_less_to_more(base, first_indexes@, indexes_count@, kept as int, (k + 1) as int)
                        == spec_fill(before, first as int, count as int, k as u64),
                    v == old(self).version2(0, first_indexes_version, indexes_count_version),
                    kept == old(self).kept(v, max_from),
                    base == old(self).base_values(v),
                decreases end - idx,
            {
                let ghost cur = self.values();
                match self.forced_push_at(idx as usize, k as u64) {
                    Ok(()) => {},
                    Err(e) => {
                        proof {
                            assert(idx == first);
                            assert(self.values() == before);
                            assert(e == Error::IndexTooHigh { index: first as usize, len: before.len() as usize });
                            lemma_less_to_more_err(base, first_indexes@, indexes_count@, kept as int, (k + 1) as int, n as int);
                        }
                        return Err(e);
                    },
                }
                proof {
                    if idx > first {
                        assert(cur.len() == idx);
                        assert(self.values() =~= before.take(first as int) + Seq::new((idx + 1 - first) as nat, |j: int| Some(k as u64)));
                    } else {
                        assert(self.values() =~= before.take(first as int) + Seq::new(1, |j: int| Some(k as u64)));
                    }
                }
                idx = idx + 1;
            }
            proof {
                if count > 0 {
                    assert(first <= before.len());
                }
            }
            k = k + 1;
        }
        let ghost done = self.values();
        let new: Vec<u64> = Vec::new();
        let len = self.inner.len();
        let r = self.finish(len, new);
        assert(self.values() == done);
        r
    }
}

impl EagerVec {
    /// Every value reads without failing.
    pub open spec fn all_readable(&self) -> bool {
        forall|j: int| 0 <= j < self.spec_len() ==> #[trigger] self.readable(j)
    }

    /// Where a more-to-less inversion starts: `max_from`, or the fine index
    /// the last kept value holds when smaller (zero when nothing is kept).
    pub open spec fn inversion_start(&self, version: Version, max_from: usize) -> int {
        let base = self.base_values(version);
        let last = if base.len() > 0 {
            base.last()->0 as int
        } else {
            0
        };
        if (max_from as int) < last {
            max_from as int
        } else {
            last
        }
    }

    /// The last kept value cannot be read.
    pub open spec fn last_unreadable(&self, version: Version) -> bool {
        self.base_values(version).len() > 0 && !self.readable(self.base_values(version).len() - 1)
    }

    /// For each fine index `f` of `other` from where the kept values point
    /// (see `inversion_start`), writes `f` at coarse index `other[f]` as
    /// `spec_more_to_less` says, then flushes. When the values read along
    /// the way cannot be decoded, fails with `Decompression`.
    pub fn compute_inverse_more_to_less(&mut self, max_from: usize, other: &[u64], other_version: Version) -> (r: Result<(), Error>)
        requires
            old(self).wf(),
            forall|f: int| 0 <= f < other@.len() ==> #[trigger] other@[f] < old(self).capacity(),
        ensures
            ({
                let v = old(self).version1(0, other_version);
                let start = old(self).inversion_start(v, max_from);
                let res = spec_more_to_less(old(self).base_values(v), other@, start, other@.len() as int);
                &&& final(self).wf()
                &&& final(self).computed_version_view() == v
                &&& (old(self).computed_version_view() == v ==> old(self).all_readable()) ==> match res.2 {
                    None => final(self).values() == res.0 && (old(self).format_view() is Raw ==> r is Ok),
                    Some(e) => r == Err::<(), Error>(e),
                }
                &&& r matches Err(e) ==> e is Decompression || e is Compression || res.2 == Some(e)
            }),
    {
        let version = Version::zero().plus(self.inner_version()).plus(other_version);
        let ghost v = version;
        let ghost base = self.base_values(version);
        let ghost readable_before = self.computed_version_view() == v ==> self.all_readable();
        assert(version == self.version1(0, other_version));
        let len0 = self.begin(version, usize::MAX);
        assert(readable_before ==> self.all_readable());
        let last: u64 = if len0 > 0 {
            match self.value(len0 - 1) {
                Ok(x) => x,
                Err(e) => {
                    return Err(e);
                },
            }
        } else {
            0
        };
        let start: usize = if (max_from as u64) < last {
            max_from
        } else {
            last as usize
        };
        assert(start == old(self).inversion_start(v, max_from));
        let n = other.len();
        let mut prev: Option<u64> = None;
        let mut f = start;
        while f < n
            invariant
                self.wf(),
                start <= f,
                start < n ==> f <= n,
                start >= n ==> f == start,
                n == other@.len(),
                self.capacity() == old(self).capacity(),
                forall|g: int| 0 <= g < other@.len() ==> #[trigger] other@[g] < self.capacity(),
                spec_more_to_less(base, other@, start as int, f as int) == (self.values(), prev, None::<Error>),
                readable_before ==> self.all_readable(),
                self.computed_version_view() == v,
                self.format_view() == old(self).format_view(),
                v == old(self).version1(0, other_version),
                base == old(self).base_values(v),
                start == old(self).inversion_start(v, max_from),
                readable_before == (old(self).computed_version_view() == v ==> old(self).all_readable()),
            decreases n - f,
        {
            let i = other[f];
            let ghost cur_vals = self.values();
            let same = match prev {
                Some(p) => p == i,
                None => false,
            };
            if !same {
                let len = self.len();
                let cur: Option<u64> = if (i as usize) < len && i < len as u64 {
                    match self.value(i as usize) {
                        Ok(x) => Some(x),
                        Err(e) => {
                            return Err(e);
                        },
                    }
                } else {
                    None
                };
                let write = match cur {
                    None => true,
                    Some(old_v) => old_v > f as u64,
                };
                if write {
                    let ghost pre = *self;
                    let pushed = self.forced_push_at(i as usize, f as u64);
                    match pushed {
                        Ok(()) => {},
                        Err(e) => {
                            proof {
                                lemma_more_to_less_err(base, other@, start as int, (f + 1) as int, n as int);
                            }
                            return Err(e);
                        },
                    }
                    proof {
                        if readable_before {
                            assert(pre.all_readable());
                            assert((i as usize) as int == i as int);
                            assert(pushed is Ok);
                            assert(i <= pre.spec_len());
                            assert(pre.values().take(i as int).len() == i);
                            assert(self.values().len() == i + 1);
                            assert(self.spec_len() == i + 1);
                            assert(self.readable(i as int));
                            assert forall|j: int| 0 <= j < self.spec_len() implies #[trigger] self.readable(j) by {
                                if j < (i as usize) as int {
                                    assert(pre.readable(j));
                                }
                            }
                        }
                    }
                }
                prev = Some(i);
            }
            f = f + 1;
        }
        let ghost done = self.values();
        let new: Vec<u64> = Vec::new();
        let len = self.inner.len();
        let r = self.finish(len, new);
        assert(self.values() == done);
        r
    }

    /// Same as `compute_inverse_more_to_less`: value `i` becomes the first
    /// fine index that maps to coarse index `i`.
    pub fn compute_coarser(&mut self, max_from: usize, other: &[u64], other_version: Version) -> (r: Result<(), Error>)
        requires
            old(self).wf(),
            forall|f: int| 0 <= f < other@.len() ==> #[trigger] other@[f] < old(self).capacity(),
        ensures
            ({
                let v = old(self).version1(0, other_version);
                let start = old(self).inversion_start(v, max_from);
                let res = spec_more_to_less(old(self).base_values(v), other@, start, other@.len() as int);
                &&& final(self).wf()
                &&& final(self).computed_version_view() == v
                &&& (old(self).computed_version_view() == v ==> old(self).all_readable()) ==> match res.2 {
                    None => final(self).values() == res.0 && (old(self).format_view() is Raw ==> r is Ok),
                    Some(e) => r == Err::<(), Error>(e),
                }
                &&& r matches Err(e) ==> e is Decompression || e is Compression || res.2 == Some(e)
            }),
    {
        self.compute_inverse_more_to_less(max_from, other, other_version)
    }
}

/// Partial sums grow with the range summed.
pub proof fn lemma_seq_sum_grows(s: Seq<u64>, a: int, b: int, c: int)
    requires
        a <= b <= c,
    ensures
        spec_seq_sum(s, a, b) <= spec_seq_sum(s, a, c),
    decreases c - b,
{
    if b < c {
        lemma_seq_sum_grows(s, a, b, c - 1);
    }
}

/// One more index fills its range after the earlier ones.
proof fn lemma_less_to_more_step(
    vals: Seq<Option<u64>>,
    first_indexes: Seq<u64>,
    counts: Seq<u64>,
    from: int,
    k: int,
)
    requires
        from <= k,
    ensures
        spec_less_to_more(vals, first_indexes, counts, from, k + 1) == match spec_less_to_more(
            vals,
            first_indexes,
            counts,
            from,
            k,
        ) {
            Ok(v) => spec_fill(v, first_indexes[k] as int, counts[k] as int, k as u64),
            Err(e) => Err(e),
        },
{
}

/// Once filling fails, the later indices keep the error.
proof fn lemma_less_to_more_err(
    vals: Seq<Option<u64>>,
    first_indexes: Seq<u64>,
    counts: Seq<u64>,
    from: int,
    k: int,
    n: int,
)
    requires
        from <= k <= n,
        spec_less_to_more(vals, first_indexes, counts, from, k) is Err,
    ensures
        spec_less_to_more(vals, first_indexes, counts, from, n) == spec_less_to_more(vals, first_indexes, counts, from, k),
    decreases n - k,
{
    if k < n {
        lemma_less_to_more_err(vals, first_indexes, counts, from, k + 1, n);
    }
}

} // verus!
