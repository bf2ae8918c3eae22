//! What the entry points ask of an index.
use crate::errors::AnnSearchErrors;
use crate::parallel::{firsts, query_parallel, results_of, seconds, KnnOptionResult, KnnResult};
use crate::utils::dist::Dist;
use crate::utils::matrix::{MatView, RowView};
use vstd::prelude::*;

verus! {

/// An index that can always be made.
pub trait IndexNew<T: Copy>: Sized {
    /// What the index is made with.
    type Settings;

    /// Make the index.
    fn new(mat: &MatView<'_, T>, metric: Dist, settings: Self::Settings) -> Self
        requires
            mat.wf(),
    ;
}

/// An index whose making can fail.
pub trait IndexBuild<T: Copy>: Sized {
    /// What the index is made with.
    type Settings;

    /// Make the index.
    fn build(
        mat: &MatView<'_, T>,
        metric: Dist,
        settings: Self::Settings,
    ) -> Result<Self, AnnSearchErrors>
        requires
            mat.wf(),
    ;
}

/// An index that is queried row by row.
pub trait RowSearch<T: Copy>: Sync {
    /// What a query is run with, besides the number of neighbours.
    type Params: Copy + Send + Sync;

    /// Find the nearest vectors to a row.
    fn query_row(&self, row: &RowView<'_, T>, k: usize, params: Self::Params) -> KnnResult<T>
        requires
            row.wf(),
    ;
}

/// An index that finds the neighbours of its own vectors.
pub trait SelfSearch<T> {
    /// What the search is run with, besides the number of neighbours.
    type SelfParams;

    /// Find the nearest vectors to every vector of the index.
    fn generate_knn(
        &self,
        k: usize,
        params: Self::SelfParams,
        return_dist: bool,
        verbose: bool,
    ) -> KnnOptionResult<T>;
}

/// An index that always finds the neighbours of its own vectors.
pub trait TotalSelfSearch<T> {
    /// What the search is run with, besides the number of neighbours.
    type SelfParams;

    /// Find the nearest vectors to every vector of the index.
    fn generate_knn(
        &self,
        k: usize,
        params: Self::SelfParams,
        return_dist: bool,
        verbose: bool,
    ) -> (Vec<Vec<usize>>, Option<Vec<Vec<T>>>);
}

/// `res` is an answer of the index to row `i` of the matrix.
pub open spec fn row_answer<T: Copy, I: RowSearch<T>>(
    index: &I,
    mat: &MatView<'_, T>,
    i: int,
    k: usize,
    params: I::Params,
    res: KnnResult<T>,
) -> bool {
    exists|row: RowView<'_, T>|
        row.wf() && row.ncols == mat.ncols && row.values() == mat.row_values(i)
            && #[trigger] call_ensures(I::query_row, (index, &row, k, params), res)
}

/// What comes of answers to all rows of a matrix: they stand in the order of the rows, with
/// distances where these were asked for.
pub open spec fn rows_answered<T: Copy, I: RowSearch<T>>(
    index: &I,
    mat: &MatView<'_, T>,
    k: usize,
    params: I::Params,
    return_dist: bool,
    r: KnnOptionResult<T>,
) -> bool {
    match r {
        Ok(found) => exists|results: Seq<(Vec<usize>, Vec<T>)>|
            #![trigger firsts(results)]
            results.len() == mat.nrows && found.0@ == firsts(results) && (found.1.is_some()
                == return_dist) && (found.1 matches Some(d) ==> d@ == seconds(results))
                && forall|i: int|
                0 <= i < mat.nrows ==> row_answer(
                    index,
                    mat,
                    i,
                    k,
                    params,
                    Ok(#[trigger] results[i]),
                ),
        Err(e) => exists|i: int|
            0 <= i < mat.nrows && #[trigger] row_answer(index, mat, i, k, params, Err(e)),
    }
}

/// Query the index with every row of a matrix in parallel.
pub fn query_rows<T, I>(
    query_mat: &MatView<'_, T>,
    index: &I,
    k: usize,
    params: I::Params,
    return_dist: bool,
) -> (r: KnnOptionResult<T>) where T: Copy + Send + Sync, I: RowSearch<T>
    requires
        query_mat.wf(),
    ensures
        rows_answered(index, query_mat, k, params, return_dist, r),
{
    let row_fn = |i: usize| -> (res: KnnResult<T>)
        requires
            query_mat.wf(),
            i < query_mat.nrows,
        ensures
            row_answer(index, query_mat, i as int, k, params, res),
        {
            let row = query_mat.row(i);
            let res = index.query_row(&row, k, params);
            proof {
                assert(call_ensures(I::query_row, (index, &row, k, params), res));
            }
            res
        };
    let r = query_parallel(query_mat.nrows, return_dist, row_fn);
    let ghost out = r;
    proof {
        match out {
            Ok(found) => {
                let results = choose|results: Seq<(Vec<usize>, Vec<T>)>|
                    results.len() == query_mat.nrows && #[trigger] results_of(row_fn, results)
                        && found.0@ == firsts(results) && (found.1.is_some() == return_dist) && (
                    found.1 matches Some(d) ==> d@ == seconds(results));
                assert forall|i: int| 0 <= i < query_mat.nrows implies row_answer(
                    index,
                    query_mat,
                    i,
                    k,
                    params,
                    Ok(#[trigger] results[i]),
                ) by {
                    let at = i as usize;
                    assert(call_ensures(
                        row_fn,
                        (at,),
                        Ok::<(Vec<usize>, Vec<T>), AnnSearchErrors>(results[at as int]),
                    ));
                }
            },
            Err(e) => {
                let i = choose|i: usize|
                    i < query_mat.nrows && #[trigger] call_ensures(
                        row_fn,
                        (i,),
                        Err::<(Vec<usize>, Vec<T>), AnnSearchErrors>(e),
                    );
                assert(row_answer(index, query_mat, i as int, k, params, Err(e)));
            },
        }
    }
    r
}

/// Keep distances only where they were asked for.
pub fn keep_distances<T>(
    indices: Vec<Vec<usize>>,
    distances: Vec<Vec<T>>,
    return_dist: bool,
) -> (r: (Vec<Vec<usize>>, Option<Vec<Vec<T>>>))
    ensures
        r.0 == indices,
        r.1 == if return_dist {
            Some(distances)
        } else {
            None
        },
{
    if return_dist {
        (indices, Some(distances))
    } else {
        (indices, None)
    }
}

} // verus!
