use vstd::prelude::*;

verus! {

/// `accs` lists the accumulators of a fold of `f` over `s` from `init` to `r`:
/// each one is what `f` gives from the previous one and the next value.
pub open spec fn spec_fold_chain<B, T, F: Fn(B, T) -> B>(
    f: F,
    init: B,
    s: Seq<T>,
    accs: Seq<B>,
    r: B,
) -> bool {
    &&& accs.len() == s.len() + 1
    &&& accs[0] == init
    &&& accs[s.len() as int] == r
    &&& forall|i: int| 0 <= i < s.len() ==> call_ensures(f, (accs[i], s[i]), #[trigger] accs[i + 1])
}

/// `r` is a result of folding `f` over `s` from `init`, one value after the
/// other from the first.
pub open spec fn spec_fold<B, T, F: Fn(B, T) -> B>(f: F, init: B, s: Seq<T>, r: B) -> bool {
    exists|accs: Seq<B>| #[trigger] spec_fold_chain(f, init, s, accs, r)
}

/// `calls` lists the states of `f` before each call on `s`: the first is `f`
/// and the call on `s[i]` starts from state `calls[i]`.
pub open spec fn spec_call_chain<T, F: FnMut(T)>(f: F, s: Seq<T>, calls: Seq<F>) -> bool {
    &&& calls.len() == s.len() + 1
    &&& calls[0] == f
    &&& forall|i: int| 0 <= i < s.len() ==> call_ensures(#[trigger] calls[i], (s[i],), ())
}

/// `f` was called once on each value of `s`, in order.
pub open spec fn spec_called_on_each<T, F: FnMut(T)>(f: F, s: Seq<T>) -> bool {
    exists|calls: Seq<F>| #[trigger] spec_call_chain(f, s, calls)
}

/// `f` gives one result for each pair of arguments.
pub open spec fn fn_deterministic<B, T, F: Fn(B, T) -> B>(f: F) -> bool {
    forall|b: B, t: T, x: B, y: B|
        #![trigger call_ensures(f, (b, t), x), call_ensures(f, (b, t), y)]
        call_ensures(f, (b, t), x) && call_ensures(f, (b, t), y) ==> x == y
}

/// Two fold chains of a deterministic `f` over the same values from the same
/// start agree on their first `k + 1` accumulators.
proof fn lemma_chains_agree<B, T, F: Fn(B, T) -> B>(
    f: F,
    init: B,
    s: Seq<T>,
    a1: Seq<B>,
    r1: B,
    a2: Seq<B>,
    r2: B,
    k: int,
)
    requires
        fn_deterministic(f),
        spec_fold_chain(f, init, s, a1, r1),
        spec_fold_chain(f, init, s, a2, r2),
        0 <= k <= s.len(),
    ensures
        a1[k] == a2[k],
    decreases k,
{
    if k > 0 {
        lemma_chains_agree(f, init, s, a1, r1, a2, r2, k - 1);
        let j = k - 1;
        assert(call_ensures(f, (a1[j], s[j]), a1[j + 1]));
        assert(call_ensures(f, (a2[j], s[j]), a2[j + 1]));
    }
}

/// Folding a deterministic `f` over the same values from the same start
/// gives one result.
pub proof fn lemma_fold_deterministic<B, T, F: Fn(B, T) -> B>(f: F, init: B, s: Seq<T>, r1: B, r2: B)
    requires
        fn_deterministic(f),
        spec_fold(f, init, s, r1),
        spec_fold(f, init, s, r2),
    ensures
        r1 == r2,
{
    let a1 = choose|a: Seq<B>| spec_fold_chain(f, init, s, a, r1);
    let a2 = choose|a: Seq<B>| spec_fold_chain(f, init, s, a, r2);
    lemma_chains_agree(f, init, s, a1, r1, a2, r2, s.len() as int);
}

/// Folds `f` over `values` from `init`.
pub fn fold_values<B, T: Copy, F: Fn(B, T) -> B>(values: &Vec<T>, init: B, f: F) -> (r: B)
    requires
        forall|b: B, t: T| #[trigger] f.requires((b, t)),
    ensures
        spec_fold(f, init, values@, r),
{
    let mut acc = init;
    let mut i: usize = 0;
    let ghost mut accs: Seq<B> = seq![init];
    while i < values.len()
        invariant
            i <= values@.len(),
            forall|b: B, t: T| #[trigger] f.requires((b, t)),
            spec_fold_chain(f, init, values@.subrange(0, i as int), accs, acc),
        decreases values@.len() - i,
    {
        let v = values[i];
        let ghost prev = accs;
        acc = f(acc, v);
        proof {
            accs = accs.push(acc);
            assert forall|k: int| 0 <= k < i + 1 implies call_ensures(
                f,
                (accs[k], values@.subrange(0, i + 1)[k]),
                #[trigger] accs[k + 1],
            ) by {
                if k < i {
                    assert(values@.subrange(0, i as int)[k] == values@.subrange(0, i + 1)[k]);
                    assert(prev[k + 1] == accs[k + 1]);
                }
            }
        }
        i = i + 1;
    }
    assert(values@.subrange(0, values@.len() as int) =~= values@);
    acc
}

/// `accs` lists the accumulators of the first `k` steps of a fold of `f`
/// over `s` from `init` in which every step succeeded.
pub open spec fn spec_try_fold_chain<B, T, E, F: Fn(B, T) -> Result<B, E>>(
    f: F,
    init: B,
    s: Seq<T>,
    accs: Seq<B>,
    k: int,
) -> bool {
    &&& 0 <= k <= s.len()
    &&& accs.len() == k + 1
    &&& accs[0] == init
    &&& forall|i: int| 0 <= i < k ==> call_ensures(f, (accs[i], s[i]), Ok::<B, E>(#[trigger] accs[i + 1]))
}

/// `r` is a result of folding `f` over `s` from `init`, one value after the
/// other, stopping at the first step that fails: `Ok` with the last
/// accumulator when every step succeeded, the error of the failing step
/// otherwise.
pub open spec fn spec_try_fold<B, T, E, F: Fn(B, T) -> Result<B, E>>(
    f: F,
    init: B,
    s: Seq<T>,
    r: Result<B, E>,
) -> bool {
    exists|accs: Seq<B>, k: int|
        #[trigger] spec_try_fold_chain(f, init, s, accs, k) && match r {
            Ok(b) => k == s.len() && accs[k] == b,
            Err(e) => k < s.len() && call_ensures(f, (accs[k], s[k]), Err::<B, E>(e)),
        }
}

/// Folds `f` over `values` from `init`, stopping at the first error.
pub fn try_fold_values<B, T: Copy, E, F: Fn(B, T) -> Result<B, E>>(values: &Vec<T>, init: B, f: F) -> (r:
    Result<B, E>)
    requires
        forall|b: B, t: T| #[trigger] f.requires((b, t)),
    ensures
        spec_try_fold(f, init, values@, r),
{
    let mut acc = init;
    let mut i: usize = 0;
    let ghost mut accs: Seq<B> = seq![init];
    while i < values.len()
        invariant
            i <= values@.len(),
            forall|b: B, t: T| #[trigger] f.requires((b, t)),
            spec_try_fold_chain(f, init, values@, accs, i as int),
            accs[i as int] == acc,
        decreases values@.len() - i,
    {
        let v = values[i];
        let ghost prev = accs;
        match f(acc, v) {
            Ok(b) => {
                acc = b;
                proof {
                    accs = accs.push(acc);
                    assert forall|k: int| 0 <= k < i + 1 implies call_ensures(
                        f,
                        (accs[k], values@[k]),
                        Ok::<B, E>(#[trigger] accs[k + 1]),
                    ) by {
                        if k < i {
                            assert(prev[k + 1] == accs[k + 1]);
                            assert(prev[k] == accs[k]);
                        }
                    }
                }
            },
            Err(e) => {
                assert(spec_try_fold_chain(f, init, values@, accs, i as int));
                return Err(e);
            },
        }
        i = i + 1;
    }
    assert(spec_try_fold_chain(f, init, values@, accs, values@.len() as int));
    Ok(acc)
}

} // verus!
