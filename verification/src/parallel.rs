//! Queries for many samples at once.
use crate::errors::AnnSearchErrors;
use rayon::iter::{IntoParallelIterator, ParallelIterator};
use vstd::prelude::*;

verus! {

/// Neighbours and distances of one sample.
pub type KnnResult<T> = Result<(Vec<usize>, Vec<T>), AnnSearchErrors>;

/// Neighbours of many samples, and their distances where they were asked for.
pub type KnnOptionResult<T> = Result<(Vec<Vec<usize>>, Option<Vec<Vec<T>>>), AnnSearchErrors>;

/// A report is due after every so many samples.
pub const PROGRESS_STEP: usize = 100_000;

/// Calls `f` for every index below `n` on rayon's threads and collects the results with
/// `rayon::iter::ParallelIterator::collect`, into a `Result`.
///
/// Where no call fails, the results stand in the order of the indices, one for every index. Where
/// calls fail, the result is the error of one of them; which one is left open.
#[verifier::external_body]
pub(crate) fn par_try_map<R, E, F>(n: usize, f: F) -> (r: Result<Vec<R>, E>)
    where R: Send, E: Send, F: Fn(usize) -> Result<R, E> + Sync + Send,

    requires
        forall|i: usize| i < n ==> call_requires(f, (i,)),
    ensures
        r matches Ok(v) ==> v@.len() == n && forall|i: usize|
            i < n ==> call_ensures(f, (i,), Ok::<R, E>(#[trigger] v@[i as int])),
        r matches Err(e) ==> exists|i: usize|
            i < n && #[trigger] call_ensures(f, (i,), Err::<R, E>(e)),
{
    (0..n).into_par_iter().map(|i| f(i)).collect()
}

/// Is a report due after `count` samples?
pub fn progress_due(count: usize) -> (r: bool)
    ensures
        r == (count as int % 100_000 == 0),
{
    count % PROGRESS_STEP == 0
}

/// The first parts of pairs.
pub open spec fn firsts<A, B>(s: Seq<(A, B)>) -> Seq<A> {
    Seq::new(s.len(), |i: int| s[i].0)
}

/// The second parts of pairs.
pub open spec fn seconds<A, B>(s: Seq<(A, B)>) -> Seq<B> {
    Seq::new(s.len(), |i: int| s[i].1)
}

/// Part neighbours from distances; the distances are dropped where they were not asked for.
pub fn split_results<T>(results: Vec<(Vec<usize>, Vec<T>)>, return_dist: bool) -> (r: (
    Vec<Vec<usize>>,
    Option<Vec<Vec<T>>>,
))
    ensures
        r.0@ == firsts(results@),
        r.1.is_some() == return_dist,
        r.1 matches Some(d) ==> d@ == seconds(results@),
{
    let mut indices: Vec<Vec<usize>> = Vec::new();
    let mut distances: Vec<Vec<T>> = Vec::new();
    let ghost all = results@;
    for pair in it: results
        invariant
            it.seq() == all,
            indices@ == firsts(all).take(it.index()),
            distances@ == seconds(all).take(it.index()),
    {
        let ghost k = it.index();
        assert(pair == all[k]);
        indices.push(pair.0);
        distances.push(pair.1);
        proof {
            assert(indices@ =~= firsts(all).take(k + 1));
            assert(distances@ =~= seconds(all).take(k + 1));
        }
    }
    assert(indices@ =~= firsts(all));
    assert(distances@ =~= seconds(all));
    if return_dist {
        (indices, Some(distances))
    } else {
        (indices, None)
    }
}

/// `results` are results of `f` for the first samples.
pub open spec fn results_of<R, F: Fn(usize) -> Result<R, AnnSearchErrors>>(
    f: F,
    results: Seq<R>,
) -> bool {
    forall|i: usize|
        i < results.len() ==> call_ensures(
            f,
            (i,),
            Ok::<R, AnnSearchErrors>(#[trigger] results[i as int]),
        )
}

/// Some call for one of `n` samples ended with the error.
pub open spec fn error_of<R, F: Fn(usize) -> Result<R, AnnSearchErrors>>(
    f: F,
    n: usize,
    e: AnnSearchErrors,
) -> bool {
    exists|i: usize| i < n && #[trigger] call_ensures(f, (i,), Err::<R, AnnSearchErrors>(e))
}

/// Query for every sample in parallel. The result for sample `i` stands at place `i`; where a query
/// fails, its error is returned.
pub fn query_parallel<T, F>(n_samples: usize, return_dist: bool, query_fn: F) -> (r:
    KnnOptionResult<T>) where
    T: Send,
    F: Fn(usize) -> Result<(Vec<usize>, Vec<T>), AnnSearchErrors> + Sync + Send,

    requires
        forall|i: usize| i < n_samples ==> call_requires(query_fn, (i,)),
    ensures
        r matches Ok(found) ==> exists|results: Seq<(Vec<usize>, Vec<T>)>|
            results.len() == n_samples && #[trigger] results_of(query_fn, results) && found.0@
                == firsts(results) && (found.1.is_some() == return_dist) && (found.1 matches Some(d)
                ==> d@ == seconds(results)),
        r matches Err(e) ==> error_of(query_fn, n_samples, e),
{
    match par_try_map(n_samples, query_fn) {
        Err(e) => Err(e),
        Ok(results) => {
            proof {
                assert(results_of(query_fn, results@));
            }
            Ok(split_results(results, return_dist))
        },
    }
}

/// How many results carry a flag.
pub open spec fn flagged<A>(s: Seq<(A, bool)>) -> nat
    decreases s.len(),
{
    if s.len() == 0 {
        0
    } else {
        flagged(s.drop_last()) + if s.last().1 {
            1nat
        } else {
            0nat
        }
    }
}

/// Neighbours, distances and flags of many samples.
pub open spec fn untangled<T>(s: Seq<(Vec<usize>, Vec<T>, bool)>) -> Seq<(
    (Vec<usize>, Vec<T>),
    bool,
)> {
    Seq::new(s.len(), |i: int| ((s[i].0, s[i].1), s[i].2))
}

/// More than one sample in a hundred is flagged.
pub open spec fn many_flagged(flags: nat, n: nat) -> bool {
    flags * 100 > n
}

/// Part neighbours, distances and flags, and tell whether more than one result in a hundred is
/// flagged.
pub fn split_flagged<T>(results: Vec<(Vec<usize>, Vec<T>, bool)>, return_dist: bool) -> (r: (
    Vec<Vec<usize>>,
    Option<Vec<Vec<T>>>,
    bool,
))
    ensures
        r.0@ == firsts(firsts(untangled(results@))),
        r.1.is_some() == return_dist,
        r.1 matches Some(d) ==> d@ == seconds(firsts(untangled(results@))),
        r.2 == many_flagged(flagged(untangled(results@)), results@.len()),
{
    let mut indices: Vec<Vec<usize>> = Vec::new();
    let mut distances: Vec<Vec<T>> = Vec::new();
    let mut random: u128 = 0;
    let n: u128 = results.len() as u128;
    let ghost all = untangled(results@);
    let ghost raw = results@;
    assert(all.take(0) =~= Seq::empty());
    for triple in it: results
        invariant
            it.seq() == raw,
            all == untangled(raw),
            raw.len() == n,
            n <= usize::MAX,
            random <= it.index(),
            indices@ == firsts(firsts(all)).take(it.index()),
            distances@ == seconds(firsts(all)).take(it.index()),
            random == flagged(all.take(it.index())),
    {
        let ghost k = it.index();
        proof {
            assert(triple == raw[k]);
            assert(all.take(k + 1).drop_last() =~= all.take(k));
            assert(all.take(k + 1).last() == all[k]);
        }
        if triple.2 {
            random += 1;
        }
        indices.push(triple.0);
        distances.push(triple.1);
        proof {
            assert(indices@ =~= firsts(firsts(all)).take(k + 1));
            assert(distances@ =~= seconds(firsts(all)).take(k + 1));
        }
    }
    proof {
        assert(indices@ =~= firsts(firsts(all)));
        assert(distances@ =~= seconds(firsts(all)));
        assert(all.take(all.len() as int) =~= all);
    }
    let warn = random * 100 > n;
    if return_dist {
        (indices, Some(distances), warn)
    } else {
        (indices, None, warn)
    }
}

/// Query for every sample in parallel, where every query also returns a flag. The third part of the
/// result tells whether more than one sample in a hundred was flagged.
pub fn query_parallel_with_flags<T, F>(n_samples: usize, return_dist: bool, query_fn: F) -> (r:
    Result<(Vec<Vec<usize>>, Option<Vec<Vec<T>>>, bool), AnnSearchErrors>) where
    T: Send,
    F: Fn(usize) -> Result<(Vec<usize>, Vec<T>, bool), AnnSearchErrors> + Sync + Send,

    requires
        forall|i: usize| i < n_samples ==> call_requires(query_fn, (i,)),
    ensures
        r matches Ok(found) ==> exists|results: Seq<(Vec<usize>, Vec<T>, bool)>|
            results.len() == n_samples && #[trigger] results_of(query_fn, results) && found.0@
                == firsts(firsts(untangled(results))) && (found.1.is_some() == return_dist) && (
            found.1 matches Some(d) ==> d@ == seconds(firsts(untangled(results)))) && found.2
                == many_flagged(flagged(untangled(results)), n_samples as nat),
        r matches Err(e) ==> error_of(query_fn, n_samples, e),
{
    match par_try_map(n_samples, query_fn) {
        Err(e) => Err(e),
        Ok(results) => {
            proof {
                assert(results_of(query_fn, results@));
            }
            Ok(split_flagged(results, return_dist))
        },
    }
}

/// Results are taken apart place by place: the ids of a query stand where its result stood, and so
/// do its distances and its flag.
pub proof fn law_taken_apart<T>(results: Seq<(Vec<usize>, Vec<T>, bool)>, i: int)
    requires
        0 <= i < results.len(),
    ensures
        firsts(firsts(untangled(results))).len() == results.len(),
        seconds(firsts(untangled(results))).len() == results.len(),
        firsts(firsts(untangled(results)))[i] == results[i].0,
        seconds(firsts(untangled(results)))[i] == results[i].1,
        seconds(untangled(results))[i] == results[i].2,
{
}

/// Results without flags are taken apart place by place.
pub proof fn law_split<A, B>(results: Seq<(A, B)>, i: int)
    requires
        0 <= i < results.len(),
    ensures
        firsts(results).len() == results.len(),
        seconds(results).len() == results.len(),
        firsts(results)[i] == results[i].0,
        seconds(results)[i] == results[i].1,
{
}

/// A result counts as flagged if and only if its flag is set.
pub proof fn law_flagged<A>(results: Seq<(A, bool)>, result: (A, bool))
    ensures
        flagged(Seq::<(A, bool)>::empty()) == 0,
        flagged(results.push(result)) == flagged(results) + if result.1 {
            1int
        } else {
            0int
        },
        flagged(results) <= results.len(),
    decreases results.len(),
{
    assert(results.push(result).drop_last() =~= results);
    if results.len() > 0 {
        law_flagged(results.drop_last(), result);
    }
}

/// Flagged results are many where they are more than one in a hundred. More flags never make them
/// fewer, and more queries with the same flags never make them many.
pub proof fn law_many_flagged(flags: nat, n: nat, more: nat)
    ensures
        many_flagged(flags, n) <==> 100 * flags > n,
        !many_flagged(0, n),
        many_flagged(flags, n) ==> many_flagged(flags + more, n),
        many_flagged(flags, n + more) ==> many_flagged(flags, n),
{
}

/// The result at a place is what the function gives for that place, and an error is what it gives
/// for some place.
pub proof fn law_results_of<R, F: Fn(usize) -> Result<R, AnnSearchErrors>>(
    f: F,
    results: Seq<R>,
    i: usize,
    n: usize,
    e: AnnSearchErrors,
) -> (at: usize)
    requires
        results_of(f, results),
        i < results.len(),
    ensures
        call_ensures(f, (i,), Ok::<R, AnnSearchErrors>(results[i as int])),
        error_of(f, n, e) ==> at < n && call_ensures(f, (at,), Err::<R, AnnSearchErrors>(e)),
{
    assert(results[i as int] == results[i as int]);
    choose|at: usize| at < n && #[trigger] call_ensures(f, (at,), Err::<R, AnnSearchErrors>(e))
}

} // verus!
