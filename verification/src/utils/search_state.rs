//! Bookkeeping of a graph traversal.
use super::ordered::{Entry, MinQueue, SortedBuffer};
use vstd::prelude::*;

verus! {

/// How many places of `s` are unset.
pub open spec fn count_unset(s: Seq<bool>) -> nat
    decreases s.len(),
{
    if s.len() == 0 {
        0
    } else {
        count_unset(s.drop_last()) + if s.last() {
            0nat
        } else {
            1nat
        }
    }
}

/// Setting an unset place leaves one unset place fewer.
pub proof fn lemma_set_one(s: Seq<bool>, i: int)
    requires
        0 <= i < s.len(),
        !s[i],
    ensures
        count_unset(s.update(i, true)) + 1 == count_unset(s),
    decreases s.len(),
{
    let t = s.update(i, true);
    if i == s.len() - 1 {
        assert(t.drop_last() =~= s.drop_last());
    } else {
        lemma_set_one(s.drop_last(), i);
        assert(t.drop_last() =~= s.drop_last().update(i, true));
    }
}

/// Buffers of a traversal: the nodes seen, the nodes to look at and the nearest nodes found.
pub struct SearchState {
    /// For every node, whether it was seen.
    pub visited: Vec<bool>,
    /// Nodes whose neighbours are still to be looked at.
    pub candidates: MinQueue,
    /// The nearest nodes found so far.
    pub working_sorted: SortedBuffer,
}

impl SearchState {
    /// The nodes seen so far.
    pub open spec fn visited(&self) -> Seq<bool> {
        self.visited@
    }

    /// The queue and the result list stand in order.
    pub open spec fn wf(&self) -> bool {
        &&& self.candidates.wf()
        &&& self.working_sorted.wf()
    }

    /// Buffers for a graph of `n` nodes.
    pub fn new(n: usize) -> (r: Self)
        ensures
            r.wf(),
            r.visited() == Seq::new(n as nat, |i: int| false),
            r.candidates@ == Seq::<Entry>::empty(),
            r.working_sorted@ == Seq::<Entry>::empty(),
    {
        let r = SearchState {
            visited: vec![false; n],
            candidates: MinQueue::new(),
            working_sorted: SortedBuffer::new(),
        };
        assert(r.visited() =~= Seq::new(n as nat, |i: int| false));
        r
    }

    /// Forget everything and make room for a graph of `n` nodes.
    pub fn reset(&mut self, n: usize)
        ensures
            final(self).wf(),
            final(self).visited() == Seq::new(n as nat, |i: int| false),
            final(self).candidates@ == Seq::<Entry>::empty(),
            final(self).working_sorted@ == Seq::<Entry>::empty(),
    {
        self.visited.clear();
        self.visited.resize(n, false);
        self.candidates.clear();
        self.working_sorted.clear();
        assert(self.visited() =~= Seq::new(n as nat, |i: int| false));
    }

    /// Whether a node was seen.
    pub fn is_visited(&self, node: usize) -> (r: bool)
        requires
            node < self.visited().len(),
        ensures
            r == self.visited()[node as int],
    {
        self.visited[node]
    }

    /// Note that a node was seen.
    pub fn mark_visited(&mut self, node: usize)
        requires
            node < old(self).visited().len(),
        ensures
            final(self).visited() == old(self).visited().update(node as int, true),
            final(self).candidates == old(self).candidates,
            final(self).working_sorted == old(self).working_sorted,
    {
        self.visited.set(node, true);
    }
}

} // verus!
