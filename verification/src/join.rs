//! Sequences of outcomes: the first that fails, the values of those that succeed,
//! and the concatenation of what the tasks of a fan-out hand back.

use vstd::prelude::*;

verus! {

/// The index of the first element of `s` that `p` holds of, or the length of `s`
/// if there is none.
pub open spec fn first_index<A>(s: Seq<A>, p: spec_fn(A) -> bool) -> int
    decreases s.len(),
{
    if s.len() == 0 {
        0
    } else if first_index(s.drop_last(), p) < s.len() - 1 {
        first_index(s.drop_last(), p)
    } else if p(s.last()) {
        s.len() - 1
    } else {
        s.len() as int
    }
}

/// `first_index` is the least index at which `p` holds.
pub proof fn lemma_first_index<A>(s: Seq<A>, p: spec_fn(A) -> bool)
    ensures
        0 <= first_index(s, p) <= s.len(),
        forall|i: int| 0 <= i < first_index(s, p) ==> !p(#[trigger] s[i]),
        first_index(s, p) < s.len() ==> p(s[first_index(s, p)]),
    decreases s.len(),
{
    if s.len() > 0 {
        lemma_first_index(s.drop_last(), p);
        assert forall|i: int| 0 <= i < first_index(s, p) implies !p(#[trigger] s[i]) by {
            if i < s.len() - 1 {
                assert(s[i] == s.drop_last()[i]);
            }
        }
    }
}

/// An index at which `p` holds and below which it does not is the first.
pub proof fn lemma_first_index_is<A>(s: Seq<A>, p: spec_fn(A) -> bool, k: int)
    requires
        0 <= k <= s.len(),
        forall|i: int| 0 <= i < k ==> !p(#[trigger] s[i]),
        k < s.len() ==> p(s[k]),
    ensures
        first_index(s, p) == k,
{
    lemma_first_index(s, p);
    let f = first_index(s, p);
    if f < k {
        assert(!p(s[f]));
    }
}

/// Where `p` holds inside a prefix, the first index of the prefix is that of the whole.
pub proof fn lemma_first_index_of_prefix<A>(s: Seq<A>, p: spec_fn(A) -> bool, n: int)
    requires
        0 <= n <= s.len(),
        first_index(s.take(n), p) < n,
    ensures
        first_index(s, p) == first_index(s.take(n), p),
{
    let k = first_index(s.take(n), p);
    lemma_first_index(s.take(n), p);
    assert forall|i: int| 0 <= i < k implies !p(#[trigger] s[i]) by {
        assert(s[i] == s.take(n)[i]);
    }
    assert(s[k] == s.take(n)[k]);
    lemma_first_index_is(s, p, k);
}

/// Holds of a result that failed.
pub open spec fn failed<T, E>() -> spec_fn(Result<T, E>) -> bool {
    |r: Result<T, E>| r is Err
}

/// The values of the results that succeeded, in order.
pub open spec fn successes<T, E>(results: Seq<Result<T, E>>) -> Seq<T>
    decreases results.len(),
{
    if results.len() == 0 {
        Seq::empty()
    } else if results.last() is Ok {
        successes(results.drop_last()).push(results.last()->Ok_0)
    } else {
        successes(results.drop_last())
    }
}

/// All values if every result succeeded, else the error of the first that failed.
pub open spec fn all_or_first_failure<T, E>(results: Seq<Result<T, E>>) -> Result<Seq<T>, E> {
    if first_index(results, failed()) == results.len() {
        Ok(successes(results))
    } else {
        Err(results[first_index(results, failed())]->Err_0)
    }
}

/// Where nothing failed, `successes` holds one value for each result.
pub proof fn lemma_successes_of_all<T, E>(results: Seq<Result<T, E>>)
    requires
        forall|i: int| 0 <= i < results.len() ==> (#[trigger] results[i]) is Ok,
    ensures
        successes(results).len() == results.len(),
        forall|i: int|
            0 <= i < results.len() ==> (#[trigger] successes(results)[i]) == results[i]->Ok_0,
    decreases results.len(),
{
    if results.len() > 0 {
        let init = results.drop_last();
        assert forall|i: int| 0 <= i < init.len() implies (#[trigger] init[i]) is Ok by {
            assert(init[i] == results[i]);
        }
        lemma_successes_of_all(init);
    }
}

/// The parts laid end to end.
pub open spec fn concat<T>(parts: Seq<Seq<T>>) -> Seq<T>
    decreases parts.len(),
{
    if parts.len() == 0 {
        Seq::empty()
    } else {
        concat(parts.drop_last()) + parts.last()
    }
}

/// A value is in the concatenation if and only if it is in one of the parts.
pub proof fn lemma_concat_contains<T>(parts: Seq<Seq<T>>, x: T)
    ensures
        concat(parts).contains(x) <==> exists|k: int|
            0 <= k < parts.len() && (#[trigger] parts[k]).contains(x),
    decreases parts.len(),
{
    if parts.len() > 0 {
        let init = parts.drop_last();
        lemma_concat_contains(init, x);
        if concat(parts).contains(x) {
            let i = choose|i: int| 0 <= i < concat(parts).len() && concat(parts)[i] == x;
            if i < concat(init).len() {
                assert(concat(init)[i] == x);
                let k = choose|k: int| 0 <= k < init.len() && (#[trigger] init[k]).contains(x);
                assert(parts[k] == init[k]);
            } else {
                assert(parts.last()[i - concat(init).len()] == x);
                assert(parts[parts.len() - 1].contains(x));
            }
        }
        if exists|k: int| 0 <= k < parts.len() && (#[trigger] parts[k]).contains(x) {
            let k = choose|k: int| 0 <= k < parts.len() && (#[trigger] parts[k]).contains(x);
            if k < init.len() {
                assert(init[k] == parts[k]);
                let i = choose|i: int| 0 <= i < concat(init).len() && concat(init)[i] == x;
                assert(concat(parts)[i] == x);
            } else {
                let j = choose|j: int| 0 <= j < parts[k].len() && parts[k][j] == x;
                assert(concat(parts)[concat(init).len() + j] == x);
            }
        }
    }
}

/// What a joiner makes of the results of its tasks, taken in the order in which the
/// tasks were started: everything they found, or the error of the first that failed.
pub open spec fn joined<T, E>(results: Seq<Result<Seq<T>, E>>) -> Result<Seq<T>, E> {
    match all_or_first_failure(results) {
        Ok(parts) => Ok(concat(parts)),
        Err(e) => Err(e),
    }
}

/// Where every task succeeded, the joiner hands out what all of them found, in the
/// order of the tasks.
pub proof fn lemma_joined_all<T, E>(results: Seq<Result<Seq<T>, E>>)
    requires
        forall|i: int| 0 <= i < results.len() ==> (#[trigger] results[i]) is Ok,
    ensures
        joined(results) == Ok::<Seq<T>, E>(
            concat(Seq::new(results.len(), |i: int| results[i]->Ok_0)),
        ),
{
    lemma_first_index_is(results, failed(), results.len() as int);
    lemma_successes_of_all(results);
    assert(successes(results) =~= Seq::new(results.len(), |i: int| results[i]->Ok_0));
}

/// Fault isolation of a fan-out: if one task failed, the joiner fails and hands out
/// no pools, whatever the other tasks found; and if that task is the only one that
/// failed, the joiner fails with that task's error.
pub proof fn lemma_one_failure_fails_all<T, E>(results: Seq<Result<Seq<T>, E>>, k: int)
    requires
        0 <= k < results.len(),
        results[k] is Err,
    ensures
        joined(results) is Err,
        (forall|i: int| 0 <= i < results.len() && i != k ==> (#[trigger] results[i]) is Ok)
            ==> joined(results) == Err::<Seq<T>, E>(results[k]->Err_0),
{
    lemma_first_index(results, failed());
    if forall|i: int| 0 <= i < results.len() && i != k ==> (#[trigger] results[i]) is Ok {
        lemma_first_index_is(results, failed(), k);
    }
}

/// The joiner fails with the error of the first task, in the order of the tasks,
/// that failed.
pub proof fn lemma_joined_first_failure<T, E>(results: Seq<Result<Seq<T>, E>>, k: int)
    requires
        0 <= k < results.len(),
        results[k] is Err,
        forall|i: int| 0 <= i < k ==> (#[trigger] results[i]) is Ok,
    ensures
        joined(results) == Err::<Seq<T>, E>(results[k]->Err_0),
{
    lemma_first_index_is(results, failed(), k);
}

/// Two fan-outs whose tasks found the same pools, task by task and in whatever order
/// within each task, hand out the same set of pools.
pub proof fn lemma_same_parts_same_set<T>(first: Seq<Seq<T>>, second: Seq<Seq<T>>)
    requires
        first.len() == second.len(),
        forall|k: int| 0 <= k < first.len() ==> (#[trigger] first[k]).to_set() == second[k].to_set(),
    ensures
        concat(first).to_set() == concat(second).to_set(),
{
    assert forall|x: T| concat(first).contains(x) <==> concat(second).contains(x) by {
        lemma_concat_contains(first, x);
        lemma_concat_contains(second, x);
        if concat(first).contains(x) {
            let k = choose|k: int| 0 <= k < first.len() && (#[trigger] first[k]).contains(x);
            assert(first[k].to_set().contains(x));
            assert(second[k].to_set().contains(x));
            assert(second[k].contains(x));
        }
        if concat(second).contains(x) {
            let k = choose|k: int| 0 <= k < second.len() && (#[trigger] second[k]).contains(x);
            assert(second[k].to_set().contains(x));
            assert(first[k].to_set().contains(x));
            assert(first[k].contains(x));
        }
    }
    assert(concat(first).to_set() =~= concat(second).to_set());
}

/// The successes of two sequences laid end to end are those of the first followed
/// by those of the second.
pub proof fn lemma_successes_concat<T, E>(a: Seq<Result<T, E>>, b: Seq<Result<T, E>>)
    ensures
        successes(a + b) == successes(a) + successes(b),
    decreases b.len(),
{
    if b.len() == 0 {
        assert(a + b =~= a);
        assert(successes(a) + successes(b) =~= successes(a));
    } else {
        assert((a + b).drop_last() =~= a + b.drop_last());
        lemma_successes_concat(a, b.drop_last());
        if b.last() is Ok {
            assert(successes(a + b) =~= successes(a) + successes(b));
        }
    }
}

/// Parts of the same lengths, one by one, come to the same length laid end to end.
pub proof fn lemma_concat_same_lengths<A, B>(a: Seq<Seq<A>>, b: Seq<Seq<B>>)
    requires
        a.len() == b.len(),
        forall|d: int| 0 <= d < a.len() ==> (#[trigger] a[d]).len() == b[d].len(),
    ensures
        concat(a).len() == concat(b).len(),
    decreases a.len(),
{
    if a.len() > 0 {
        assert forall|d: int| 0 <= d < a.drop_last().len() implies (#[trigger] a.drop_last()[d]).len()
            == b.drop_last()[d].len() by {
            assert(a.drop_last()[d] == a[d]);
            assert(b.drop_last()[d] == b[d]);
        }
        lemma_concat_same_lengths(a.drop_last(), b.drop_last());
        assert(a.last() == a[a.len() - 1]);
    }
}

/// Where one part is shorter by one and all others are of the same lengths, the
/// whole is shorter by one.
pub proof fn lemma_concat_one_shorter<A, B>(a: Seq<Seq<A>>, b: Seq<Seq<B>>, at: int)
    requires
        a.len() == b.len(),
        0 <= at < a.len(),
        a[at].len() + 1 == b[at].len(),
        forall|d: int| 0 <= d < a.len() && d != at ==> (#[trigger] a[d]).len() == b[d].len(),
    ensures
        concat(a).len() + 1 == concat(b).len(),
    decreases a.len(),
{
    assert(a.last() == a[a.len() - 1]);
    if at == a.len() - 1 {
        assert forall|d: int| 0 <= d < a.drop_last().len() implies (#[trigger] a.drop_last()[d]).len()
            == b.drop_last()[d].len() by {
            assert(a.drop_last()[d] == a[d]);
            assert(b.drop_last()[d] == b[d]);
        }
        lemma_concat_same_lengths(a.drop_last(), b.drop_last());
    } else {
        assert forall|d: int| 0 <= d < a.drop_last().len() && d != at implies (
        #[trigger] a.drop_last()[d]).len() == b.drop_last()[d].len() by {
            assert(a.drop_last()[d] == a[d]);
            assert(b.drop_last()[d] == b[d]);
        }
        assert(a.drop_last()[at] == a[at]);
        assert(b.drop_last()[at] == b[at]);
        lemma_concat_one_shorter(a.drop_last(), b.drop_last(), at);
    }
}

} // verus!
