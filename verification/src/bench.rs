use vstd::prelude::*;

verus! {

/// The stores the benchmark compares.
#[derive(Debug, Clone, Copy, PartialEq, Eq, Structural)]
pub enum Database {
    VecDb,
    VecDbOld,
    Fjall2,
    Fjall3,
    Redb,
    Lmdb,
    RocksDb,
}

impl Database {
    /// Every store, in the order the benchmark runs them.
    pub fn all() -> (r: Vec<Database>)
        ensures
            r@ == seq![
                Database::VecDb,
                Database::VecDbOld,
                Database::Fjall3,
                Database::Fjall2,
                Database::Redb,
                Database::Lmdb,
                Database::RocksDb,
            ],
    {
        let r = vec![
            Database::VecDb,
            Database::VecDbOld,
            Database::Fjall3,
            Database::Fjall2,
            Database::Redb,
            Database::Lmdb,
            Database::RocksDb,
        ];
        assert(r@ =~= seq![
            Database::VecDb,
            Database::VecDbOld,
            Database::Fjall3,
            Database::Fjall2,
            Database::Redb,
            Database::Lmdb,
            Database::RocksDb,
        ]);
        r
    }
}

/// The sum of some durations, in nanoseconds.
pub open spec fn spec_total(durations: Seq<u128>) -> int
    decreases durations.len(),
{
    if durations.len() == 0 {
        0
    } else {
        spec_total(durations.drop_last()) + durations.last()
    }
}

/// The mean of some durations in nanoseconds, rounded down; zero when there
/// are none.
pub fn avg(durations: &[u128]) -> (r: u128)
    requires
        spec_total(durations@) <= u128::MAX,
        durations@.len() <= u32::MAX,
    ensures
        durations@.len() == 0 ==> r == 0,
        durations@.len() > 0 ==> r == spec_total(durations@) / durations@.len() as int,
{
    if durations.len() == 0 {
        return 0;
    }
    let mut total: u128 = 0;
    let mut i: usize = 0;
    while i < durations.len()
        invariant
            i <= durations@.len(),
            spec_total(durations@) <= u128::MAX,
            total == spec_total(durations@.take(i as int)),
        decreases durations@.len() - i,
    {
        proof {
            lemma_total_grows(durations@, (i + 1) as int);
            assert(durations@.take(i + 1).drop_last() =~= durations@.take(i as int));
        }
        total = total + durations[i];
        i = i + 1;
    }
    assert(durations@.take(durations@.len() as int) =~= durations@);
    total / (durations.len() as u128)
}

/// A prefix never sums to more than the whole.
proof fn lemma_total_grows(s: Seq<u128>, k: int)
    requires
        0 <= k <= s.len(),
    ensures
        spec_total(s.take(k)) <= spec_total(s),
    decreases s.len() - k,
{
    if k < s.len() {
        lemma_total_grows(s, k + 1);
        assert(s.take(k + 1).drop_last() =~= s.take(k));
    } else {
        assert(s.take(k) =~= s);
    }
}

/// The durations measured for one store over the runs, in nanoseconds.
pub struct AccumulatedTimes {
    pub open: Vec<u128>,
    pub linear: Vec<u128>,
    pub random: Vec<u128>,
    pub random_rayon: Vec<u128>,
}

impl AccumulatedTimes {
    pub fn new() -> (r: AccumulatedTimes)
        ensures
            r.open@.len() == 0,
            r.linear@.len() == 0,
            r.random@.len() == 0,
            r.random_rayon@.len() == 0,
    {
        AccumulatedTimes { open: Vec::new(), linear: Vec::new(), random: Vec::new(), random_rayon: Vec::new() }
    }
}

/// How many indices each part gets when `len` indices are cut in `parts`
/// parts (one part when `parts` is zero): `len / parts` rounded up.
pub open spec fn spec_part_len(len: int, parts: int) -> int {
    let p = if parts == 0 { 1 } else { parts };
    len / p + if len % p != 0 { 1int } else { 0int }
}

/// Cuts the indices `[0, len)` into contiguous, non-empty ranges `[a, b)`
/// of `spec_part_len(len, parts)` indices each, the last one shorter when
/// the length does not divide evenly, one range per thread or batch.
pub fn partitions(len: usize, parts: usize) -> (r: Vec<(usize, usize)>)
    ensures
        (r@.len() == 0) == (len == 0),
        r@.len() > 0 ==> r@[0].0 == 0 && r@.last().1 == len,
        forall|k: int| 0 < k < r@.len() ==> #[trigger] r@[k].0 == r@[k - 1].1,
        forall|k: int| 0 <= k < r@.len() ==> #[trigger] r@[k].0 < r@[k].1,
        forall|k: int|
            0 <= k < r@.len() - 1 ==> #[trigger] r@[k].1 - r@[k].0 == spec_part_len(
                len as int,
                parts as int,
            ),
        r@.len() > 0 ==> r@.last().1 - r@.last().0 <= spec_part_len(len as int, parts as int),
{
    let p = if parts == 0 {
        1
    } else {
        parts
    };
    let q = len / p;
    let chunk = if len % p != 0 {
        assert(q < usize::MAX) by (nonlinear_arith)
            requires
                p > 0,
                len % p != 0,
                q == len / p,
        {
            assert(p >= 2);
        }
        q + 1
    } else {
        q
    };
    assert(chunk == spec_part_len(len as int, parts as int));
    proof {
        if len > 0 {
            assert(chunk >= 1) by (nonlinear_arith)
                requires
                    len > 0,
                    p > 0,
                    chunk == len / p + if len % p != 0 { 1int } else { 0int },
            ;
        }
    }
    let mut r: Vec<(usize, usize)> = Vec::new();
    let mut start: usize = 0;
    while start < len
        invariant
            start <= len,
            len > 0 ==> chunk >= 1,
            chunk == spec_part_len(len as int, parts as int),
            (r@.len() == 0) == (start == 0),
            r@.len() > 0 ==> r@[0].0 == 0 && r@.last().1 == start,
            forall|k: int| 0 < k < r@.len() ==> #[trigger] r@[k].0 == r@[k - 1].1,
            forall|k: int| 0 <= k < r@.len() ==> #[trigger] r@[k].0 < r@[k].1,
            forall|k: int| 0 <= k < r@.len() - 1 ==> #[trigger] r@[k].1 - r@[k].0 == chunk,
            r@.len() > 0 ==> r@.last().1 - r@.last().0 <= chunk,
            r@.len() > 0 && start < len ==> r@.last().1 - r@.last().0 == chunk,
        decreases len - start,
    {
        let end = if len - start > chunk {
            start + chunk
        } else {
            len
        };
        let ghost old_r = r@;
        r.push((start, end));
        proof {
            assert forall|k: int| 0 <= k < r@.len() - 1 implies #[trigger] r@[k].1 - r@[k].0 == chunk by {
                if k < old_r.len() - 1 {
                    assert(r@[k] == old_r[k]);
                } else {
                    assert(r@[k] == old_r.last());
                }
            }
            assert forall|k: int| 0 < k < r@.len() implies #[trigger] r@[k].0 == r@[k - 1].1 by {
                if k < old_r.len() {
                    assert(r@[k] == old_r[k]);
                    assert(r@[k - 1] == old_r[k - 1]);
                }
            }
        }
        start = end;
    }
    r
}

} // verus!
