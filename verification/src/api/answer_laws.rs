//! What holds of the answers to many queries.
use super::backend::{row_answer, rows_answered, RowSearch};
use super::binary::{
    binary_answer, binary_rows_answered, counts_as_numbers, factor_used, mode_of, store_built,
    with_numbers, BinaryMode, BinaryRows, BinarySearch, RerankParams, StoreBuild,
};
use super::cpu::{hash_answer, HashParams, HashSearch};
use super::gpu::{batch_kept, on_device, rows_in_line, KnnBatchResult};
use crate::errors::AnnSearchErrors;
use crate::parallel::{firsts, seconds, KnnOptionResult, KnnResult};
use crate::utils::dist::Dist;
use crate::utils::float::Real;
use crate::utils::matrix::{flat_row, lemma_row_bounds, MatView, RowView};
use vstd::prelude::*;

verus! {

/// The answers to many queries stand in the order of the queries: the answer at a place is the
/// answer of the index to a row with the numbers of the query at that place. Distances are given if
/// and only if they were asked for, and stand beside the ids of the same answer.
pub proof fn law_rows_answered<'a, T: Copy, I: RowSearch<T>>(
    index: &I,
    mat: &MatView<'a, T>,
    k: usize,
    params: I::Params,
    return_dist: bool,
    found: (Vec<Vec<usize>>, Option<Vec<Vec<T>>>),
    i: int,
) -> (answer: (RowView<'a, T>, (Vec<usize>, Vec<T>)))
    requires
        rows_answered(index, mat, k, params, return_dist, Ok(found)),
        0 <= i < mat.nrows,
    ensures
        found.0@.len() == mat.nrows,
        found.1.is_some() == return_dist,
        call_ensures(
            I::query_row,
            (index, &answer.0, k, params),
            Ok::<(Vec<usize>, Vec<T>), AnnSearchErrors>(answer.1),
        ),
        answer.0.ncols == mat.ncols,
        forall|j: int|
            0 <= j < mat.ncols ==> #[trigger] answer.0.data@[j * answer.0.col_stride]
                == mat.data@[i * mat.row_stride + j * mat.col_stride],
        found.0@[i] == answer.1.0,
        found.1 matches Some(d) ==> d@.len() == mat.nrows && d@[i] == answer.1.1,
{
    let results = choose|results: Seq<(Vec<usize>, Vec<T>)>|
        #![trigger firsts(results)]
        results.len() == mat.nrows && found.0@ == firsts(results) && (found.1.is_some()
            == return_dist) && (found.1 matches Some(d) ==> d@ == seconds(results)) && forall|
            i: int,
        |
            0 <= i < mat.nrows ==> row_answer(index, mat, i, k, params, Ok(#[trigger] results[i]));
    assert(row_answer(index, mat, i, k, params, Ok(results[i])));
    let res = Ok::<(Vec<usize>, Vec<T>), AnnSearchErrors>(results[i]);
    let row = choose|row: RowView<'_, T>|
        row.wf() && row.ncols == mat.ncols && row.values() == mat.row_values(i)
            && #[trigger] call_ensures(I::query_row, (index, &row, k, params), res);
    assert forall|j: int| 0 <= j < mat.ncols implies #[trigger] row.data@[j * row.col_stride]
        == mat.data@[i * mat.row_stride + j * mat.col_stride] by {
        assert(row.values()[j] == mat.row_values(i)[j]);
    }
    (row, results[i])
}

/// Where many queries end in an error, it is the error of the index on a row with the numbers of
/// one of the queries.
pub proof fn law_rows_refused<'a, T: Copy, I: RowSearch<T>>(
    index: &I,
    mat: &MatView<'a, T>,
    k: usize,
    params: I::Params,
    return_dist: bool,
    e: AnnSearchErrors,
) -> (at: (int, RowView<'a, T>))
    requires
        rows_answered(
            index,
            mat,
            k,
            params,
            return_dist,
            Err::<(Vec<Vec<usize>>, Option<Vec<Vec<T>>>), AnnSearchErrors>(e),
        ),
    ensures
        0 <= at.0 < mat.nrows,
        call_ensures(
            I::query_row,
            (index, &at.1, k, params),
            Err::<(Vec<usize>, Vec<T>), AnnSearchErrors>(e),
        ),
        at.1.ncols == mat.ncols,
        forall|j: int|
            0 <= j < mat.ncols ==> #[trigger] at.1.data@[j * at.1.col_stride] == mat.data@[at.0
                * mat.row_stride + j * mat.col_stride],
{
    let res = Err::<(Vec<usize>, Vec<T>), AnnSearchErrors>(e);
    let i = choose|i: int|
        0 <= i < mat.nrows && #[trigger] row_answer(index, mat, i, k, params, res);
    let row = choose|row: RowView<'_, T>|
        row.wf() && row.ncols == mat.ncols && row.values() == mat.row_values(i)
            && #[trigger] call_ensures(I::query_row, (index, &row, k, params), res);
    assert forall|j: int| 0 <= j < mat.ncols implies #[trigger] row.data@[j * row.col_stride]
        == mat.data@[i * mat.row_stride + j * mat.col_stride] by {
        assert(row.values()[j] == mat.row_values(i)[j]);
    }
    (i, row)
}

/// The answer of a hash index at a place is its answer to a row with the numbers of the query at
/// that place.
pub proof fn law_hash_answer<'a, T: Copy, I: HashSearch<T>>(
    index: &I,
    mat: &MatView<'a, T>,
    i: int,
    k: usize,
    params: HashParams,
    res: Result<(Vec<usize>, Vec<T>, bool), AnnSearchErrors>,
) -> (row: RowView<'a, T>)
    requires
        hash_answer(index, mat, i, k, params, res),
    ensures
        call_ensures(I::query_row, (index, &row, k, params), res),
        row.ncols == mat.ncols,
        forall|j: int|
            0 <= j < mat.ncols ==> #[trigger] row.data@[j * row.col_stride] == mat.data@[i
                * mat.row_stride + j * mat.col_stride],
{
    let row = choose|row: RowView<'_, T>|
        row.wf() && row.ncols == mat.ncols && row.values() == mat.row_values(i)
            && #[trigger] call_ensures(I::query_row, (index, &row, k, params), res);
    assert forall|j: int| 0 <= j < mat.ncols implies #[trigger] row.data@[j * row.col_stride]
        == mat.data@[i * mat.row_stride + j * mat.col_stride] by {
        assert(row.values()[j] == mat.row_values(i)[j]);
    }
    row
}

/// A batch that was searched at once is handed on as it came: the ids always, the distances if and
/// only if they were asked for, and an error unchanged.
pub proof fn law_batch_kept<T>(
    res: KnnBatchResult<T>,
    return_dist: bool,
    r: KnnOptionResult<T>,
)
    requires
        batch_kept(res, return_dist, r),
    ensures
        r is Ok <==> res is Ok,
        res matches Ok(found) ==> (r matches Ok(out) && out.0 == found.0 && (out.1.is_some()
            == return_dist) && (out.1 matches Some(d) ==> d == found.1)),
        res matches Err(e) ==> (r matches Err(f) && e == f),
{
}

/// Rows are searched on the device if and only if there are at least 32 and no search width is
/// asked for.
pub proof fn law_on_device(n_queries: usize, ef_search: Option<usize>, more: usize)
    requires
        n_queries <= more,
    ensures
        ef_search is Some ==> !on_device(n_queries, ef_search),
        n_queries < 32 ==> !on_device(n_queries, ef_search),
        n_queries >= 32 && ef_search is None ==> on_device(n_queries, ef_search),
        on_device(n_queries, ef_search) ==> on_device(more, ef_search),
{
}

/// The numbers that are handed to a device are those of the matrix, row by row.
pub proof fn law_rows_in_line<T: Copy>(mat: &MatView<'_, T>, flat: Seq<T>, i: int, j: int)
    requires
        rows_in_line(mat, flat),
        0 <= i < mat.nrows,
        0 <= j < mat.ncols,
    ensures
        flat.len() == mat.nrows * mat.ncols,
        flat[i * mat.ncols + j] == mat.data@[i * mat.row_stride + j * mat.col_stride],
{
    lemma_row_bounds(i, mat.nrows as int, mat.ncols as int);
    assert(flat_row(flat, mat.ncols as int, i)[j] == mat.row_values(i)[j]);
}

/// An index is built with a store of its vectors if and only if one is to be saved, and then at the
/// path that was given.
pub proof fn law_store_built<T: Copy, I: StoreBuild<T>>(
    mat: &MatView<'_, T>,
    metric: Dist,
    settings: I::Settings,
    path: &str,
    save_path: Option<&str>,
    r: Result<I, AnnSearchErrors>,
)
    ensures
        store_built::<T, I>(mat, metric, settings, true, Some(path), r) <==> call_ensures(
            I::build_with_vector_store,
            (mat, metric, settings, path),
            r,
        ),
        store_built::<T, I>(mat, metric, settings, false, save_path, r) <==> call_ensures(
            I::build,
            (mat, metric, settings),
            r,
        ),
{
}

/// A factor for reranking counts if and only if reranking is asked for.
pub proof fn law_factor_used(rerank_factor: Option<usize>)
    ensures
        factor_used(true, rerank_factor) == rerank_factor,
        factor_used(false, rerank_factor) is None,
{
}

/// The counts of differing bits become numbers one for one, beside the same ids.
pub proof fn law_counts_as_numbers<T: Real>(
    found: (Vec<usize>, Vec<u32>),
    r: KnnResult<T>,
    e: AnnSearchErrors,
)
    requires
        with_numbers(Ok::<(Vec<usize>, Vec<u32>), AnnSearchErrors>(found), r),
    ensures
        r matches Ok(out) && out.0 == found.0 && out.1@.len() == found.1@.len() && forall|i: int|
            0 <= i < found.1@.len() ==> #[trigger] out.1@[i] == T::of_u32_spec(found.1@[i]),
        forall|s: KnnResult<T>| #[trigger]
            with_numbers(Err::<(Vec<usize>, Vec<u32>), AnnSearchErrors>(e), s) ==> (s matches Err(
                f,
            ) && f == e),
        counts_as_numbers::<T>(found.1@).len() == found.1@.len(),
{
}

/// A binary index answers a row in one of three ways: with reranking where that is asked for, else
/// by numbers against bits where the index works so, else by bits against bits, whose counts become
/// numbers.
pub proof fn law_binary_answer<T: Real, I: BinarySearch<T>>(
    index: &I,
    row: &RowView<'_, T>,
    k: usize,
    params: I::Params,
    factor: Option<usize>,
    r: KnnResult<T>,
)
    ensures
        binary_answer(index, BinaryMode::Rerank, row, k, params, factor, r) <==> call_ensures(
            I::query_row_reranking,
            (index, row, k, params, factor),
            r,
        ),
        binary_answer(index, mode_of(true), row, k, params, factor, r) <==> call_ensures(
            I::query_row_asymmetric,
            (index, row, k, params, factor),
            r,
        ),
        binary_answer(index, mode_of(false), row, k, params, factor, r) ==> exists|
            res: KnnResult<u32>,
        | #[trigger]
            call_ensures(I::query_row, (index, row, k, params), res) && (res is Ok <==> r is Ok),
{
}

/// Many queries of a binary index are answered with reranking, and with the factor, if and only if
/// that is asked for. Otherwise the index itself says how it compares, and there is no factor.
pub proof fn law_binary_rows<T: Real, I: BinarySearch<T>>(
    index: &I,
    mat: &MatView<'_, T>,
    k: usize,
    params: I::Params,
    rerank_factor: Option<usize>,
    return_dist: bool,
    r: KnnOptionResult<T>,
)
    ensures
        binary_rows_answered(index, mat, k, params, true, rerank_factor, return_dist, r)
            <==> rows_answered(
            &(BinaryRows { index, mode: BinaryMode::Rerank }),
            mat,
            k,
            (RerankParams { params, rerank_factor }),
            return_dist,
            r,
        ),
        binary_rows_answered(index, mat, k, params, false, rerank_factor, return_dist, r)
            ==> exists|asymmetric: bool| #[trigger]
            call_ensures(I::use_asymmetric, (index,), asymmetric) && rows_answered(
                &(BinaryRows {
                    index,
                    mode: if asymmetric {
                        BinaryMode::Asymmetric
                    } else {
                        BinaryMode::Bits
                    },
                }),
                mat,
                k,
                (RerankParams { params, rerank_factor: None }),
                return_dist,
                r,
            ),
{
}

} // verus!
