//! Neighbour slots.
//!
//! The neighbours of a node at one layer stand in a block of fixed size: first the ids, then
//! `u32::MAX` up to the end of the block.
use vstd::prelude::*;

verus! {

/// Marks a slot that holds no neighbour.
pub const EMPTY: u32 = u32::MAX;

/// How many slots come before the first empty one.
pub open spec fn degree(slots: Seq<u32>) -> nat
    decreases slots.len(),
{
    if slots.len() == 0 || slots[0] == EMPTY {
        0
    } else {
        1 + degree(slots.drop_first())
    }
}

/// The neighbours that a block holds.
pub open spec fn ids_of(slots: Seq<u32>) -> Seq<usize> {
    Seq::new(degree(slots), |i: int| slots[i] as usize)
}

/// Behind the first empty slot all slots are empty.
pub open spec fn packed(slots: Seq<u32>) -> bool {
    forall|i: int| degree(slots) <= i < slots.len() ==> #[trigger] slots[i] == EMPTY
}

/// The degree is the position of the first empty slot.
pub proof fn lemma_degree(slots: Seq<u32>, d: int)
    requires
        0 <= d <= slots.len(),
        forall|i: int| 0 <= i < d ==> #[trigger] slots[i] != EMPTY,
        d < slots.len() ==> slots[d] == EMPTY,
    ensures
        degree(slots) == d,
    decreases slots.len(),
{
    if d > 0 {
        assert(slots[0] != EMPTY);
        let t = slots.drop_first();
        assert forall|i: int| 0 <= i < d - 1 implies #[trigger] t[i] != EMPTY by {
            assert(t[i] == slots[i + 1]);
        }
        lemma_degree(t, d - 1);
    }
}

/// What the degree says about the slots.
pub proof fn lemma_degree_bounds(slots: Seq<u32>)
    ensures
        degree(slots) <= slots.len(),
        forall|i: int| 0 <= i < degree(slots) ==> #[trigger] slots[i] != EMPTY,
        degree(slots) < slots.len() ==> slots[degree(slots) as int] == EMPTY,
    decreases slots.len(),
{
    if slots.len() > 0 && slots[0] != EMPTY {
        let t = slots.drop_first();
        lemma_degree_bounds(t);
        assert forall|i: int| 0 <= i < degree(slots) implies #[trigger] slots[i] != EMPTY by {
            if i > 0 {
                assert(t[i - 1] == slots[i]);
            }
        }
    }
}

/// The number of neighbours in a block.
pub fn degree_of(slots: &[u32]) -> (r: usize)
    ensures
        r == degree(slots@),
{
    let mut i: usize = 0;
    while i < slots.len() && slots[i] != EMPTY
        invariant
            i <= slots.len(),
            forall|j: int| 0 <= j < i ==> #[trigger] slots@[j] != EMPTY,
        decreases slots.len() - i,
    {
        i += 1;
    }
    proof {
        lemma_degree(slots@, i as int);
    }
    i
}

/// One layer of a graph, read node by node.
pub trait LayerView {
    /// The number of nodes of the graph.
    spec fn size(&self) -> nat;

    /// The neighbours of a node at this layer.
    spec fn adj(&self, node: usize) -> Seq<usize>;

    /// The representation is in order.
    spec fn wf(&self) -> bool;

    /// Neighbours are nodes of the graph.
    proof fn lemma_closed(&self)
        requires
            self.wf(),
        ensures
            forall|node: usize, j: int|
                node < self.size() && 0 <= j < self.adj(node).len() ==> (#[trigger] self.adj(
                    node,
                )[j]) < self.size(),
    ;

    /// The block that holds the neighbours of a node.
    fn slots(&self, node: usize) -> (r: &[u32])
        requires
            self.wf(),
            node < self.size(),
        ensures
            ids_of(r@) == self.adj(node),
    ;
}

/// A distance from a fixed place to every node, given as order keys.
pub trait NodeKeys {
    /// The number of nodes.
    spec fn size(&self) -> nat;

    /// The key of the distance to a node.
    spec fn key(&self, node: usize) -> u64;

    /// The representation is in order.
    spec fn wf(&self) -> bool;

    /// Compute the key of the distance to a node.
    fn key_of(&self, node: usize) -> (r: u64)
        requires
            self.wf(),
            node < self.size(),
        ensures
            r == self.key(node),
    ;
}

/// The distances from a query to every node: their order keys, and which of them are numbers.
pub trait QueryKeys: NodeKeys {
    /// Whether the distance to a node is a number.
    spec fn numbered(&self, node: usize) -> bool;

    /// Tell whether the distance to a node is a number.
    fn is_numbered(&self, node: usize) -> (r: bool)
        requires
            self.wf(),
            node < self.size(),
        ensures
            r == self.numbered(node),
    ;
}

} // verus!
