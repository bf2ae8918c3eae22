//! How many groups of threads a compute device is asked for. A group has columns and rows of
//! threads.
use super::tasks::TaskList;
use crate::utils::math::{div_ceil, groups, most};
use vstd::prelude::*;

verus! {

/// The groups for the work of a batch.
#[derive(Clone, Copy, Debug, PartialEq, Eq, Structural)]
pub struct LaunchPlan {
    /// Rows of groups for the queries.
    pub query_rows: usize,
    /// Columns of groups for the slots of the candidates.
    pub candidate_columns: usize,
    /// Columns of groups for the vectors of the largest piece.
    pub task_columns: usize,
    /// Rows of groups for the pieces.
    pub task_rows: usize,
}

impl LaunchPlan {
    /// The groups that the work needs where a group is `width` by `height` threads.
    pub open spec fn covers(&self, n_queries: int, work: &TaskList, width: int, height: int) -> bool {
        &&& self.query_rows == groups(n_queries, height)
        &&& self.candidate_columns == most(groups(work.max_candidates as int, width), 1)
        &&& self.task_columns == most(groups(work.max_db_count as int, width), 1)
        &&& self.task_rows == groups(work.task_q_idx@.len() as int, height)
    }
}

/// The groups for some things, at least one.
fn groups_or_one(n: usize, size: usize) -> (r: usize)
    requires
        size > 0,
    ensures
        r == most(groups(n as int, size as int), 1),
{
    let count: usize = div_ceil(n, size);
    if count >= 1 {
        count
    } else {
        1
    }
}

/// Columns and rows of groups for the distances of queries to all centroids.
pub fn plan_centroid_launch(nlist: usize, n_queries: usize, width: usize, height: usize) -> (r: (
    usize,
    usize,
))
    requires
        width > 0,
        height > 0,
    ensures
        r.0 == groups(nlist as int, width as int),
        r.1 == groups(n_queries as int, height as int),
{
    (div_ceil(nlist, width), div_ceil(n_queries, height))
}

/// Decide how many groups the work of a batch gets.
pub fn plan_launch(n_queries: usize, work: &TaskList, width: usize, height: usize) -> (r: LaunchPlan)
    requires
        width > 0,
        height > 0,
    ensures
        r.covers(n_queries as int, work, width as int, height as int),
{
    LaunchPlan {
        query_rows: div_ceil(n_queries, height),
        candidate_columns: groups_or_one(work.max_candidates as usize, width),
        task_columns: groups_or_one(work.max_db_count as usize, width),
        task_rows: div_ceil(work.task_q_idx.len(), height),
    }
}

} // verus!
