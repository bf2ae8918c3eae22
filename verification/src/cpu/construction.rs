//! The graph while it is being built.
//!
//! Every node has one block of slots: `2 * m` for the base layer, then `m` for each layer above it
//! that the node stands in. Slots that hold no neighbour are `u32::MAX` and stand behind the
//! others.
use super::diversity::{compute_pruned, ids, lemma_pruned_from, pruned, without, PairKeys};
use super::layers::{
    bare, cap, committed, graph_ok, law_commit_keeps_order, lemma_bare, lemma_grown_ok,
    lemma_offset, lemma_offset_apart, lemma_with_list_ok, list_ok, nbrs, offered, offset, stands_in,
    with_list, Lists,
};
use super::slots::{
    degree, degree_of, ids_of, lemma_degree, lemma_degree_bounds, packed, LayerView, EMPTY,
};
use crate::utils::ordered::{at_most, Entry};
use vstd::prelude::*;
use vstd::slice::slice_subrange;

verus! {

/// Neighbour storage during construction.
pub struct ConstructionGraph {
    nodes: Vec<Vec<u32>>,
    node_levels: Vec<u8>,
    m: usize,
}

/// What a writer decided to do about a list that it has seen.
pub enum Update {
    /// The neighbour is there already.
    Nothing,
    /// There is room for the neighbour.
    Append,
    /// The list is full; these are the neighbours to keep.
    Replace(Vec<usize>),
}

/// All numbers are below `n`.
pub open spec fn all_below(list: Seq<usize>, n: nat) -> bool {
    forall|j: int| 0 <= j < list.len() ==> (#[trigger] list[j]) < n
}

/// The slots of a node that belong to a layer.
pub open spec fn block(slots: Seq<u32>, m: nat, layer: int) -> Seq<u32> {
    slots.subrange(offset(m, layer), offset(m, layer + 1))
}

/// The slots of a node in the layers up to `level` are in order.
pub open spec fn slots_ok(slots: Seq<u32>, m: nat, level: int) -> bool {
    &&& slots.len() == offset(m, level + 1)
    &&& forall|l: int| 0 <= l <= level ==> packed(#[trigger] block(slots, m, l))
}

/// The neighbours of a node at the layers up to `level`.
pub open spec fn lists_of(slots: Seq<u32>, m: nat, level: int) -> Seq<Seq<usize>> {
    Seq::new((level + 1) as nat, |l: int| ids_of(block(slots, m, l)))
}

/// Where the slots of node `i` begin when the slots of all nodes stand one behind the other.
pub open spec fn start_of(m: nat, levels: Seq<u8>, i: int) -> int
    decreases i,
{
    if i <= 0 {
        0
    } else {
        start_of(m, levels, i - 1) + offset(m, levels[i - 1] + 1)
    }
}

/// The slots of node `v` in a flat layout.
pub open spec fn flat_slots(
    flat: Seq<u32>,
    offsets: Seq<usize>,
    levels: Seq<u8>,
    m: nat,
    v: int,
) -> Seq<u32> {
    flat.subrange(offsets[v] as int, offsets[v] + offset(m, levels[v] + 1))
}

/// The graph that a flat layout holds.
pub open spec fn flat_of(
    flat: Seq<u32>,
    offsets: Seq<usize>,
    levels: Seq<u8>,
    m: nat,
) -> Lists {
    Seq::new(
        levels.len(),
        |v: int| lists_of(flat_slots(flat, offsets, levels, m, v), m, levels[v] as int),
    )
}

/// The slots of the nodes stand one behind the other, without gaps, and in each block empty slots
/// stand behind the others.
pub open spec fn flat_laid_out(
    flat: Seq<u32>,
    offsets: Seq<usize>,
    levels: Seq<u8>,
    m: nat,
) -> bool {
    &&& offsets.len() == levels.len()
    &&& levels.len() <= u32::MAX
    &&& m * 2 <= usize::MAX
    &&& flat.len() == start_of(m, levels, levels.len() as int)
    &&& forall|v: int|
        0 <= v < levels.len() ==> #[trigger] offsets[v] == start_of(m, levels, v) && offsets[v]
            + offset(m, levels[v] + 1) <= flat.len() && slots_ok(
            flat_slots(flat, offsets, levels, m, v),
            m,
            levels[v] as int,
        )
}

/// The slots of the nodes are laid out, and the graph that they hold is in order.
pub open spec fn flat_ok(flat: Seq<u32>, offsets: Seq<usize>, levels: Seq<u8>, m: nat) -> bool {
    &&& flat_laid_out(flat, offsets, levels, m)
    &&& graph_ok(flat_of(flat, offsets, levels, m), m)
}

/// A block that holds the ids of `list` and nothing behind them holds the neighbours `list`.
pub proof fn lemma_block_holds(slots: Seq<u32>, list: Seq<usize>)
    requires
        list.len() <= slots.len(),
        forall|j: int|
            0 <= j < list.len() ==> slots[j] != EMPTY && #[trigger] slots[j] as usize == list[j],
        forall|j: int| list.len() <= j < slots.len() ==> #[trigger] slots[j] == EMPTY,
    ensures
        packed(slots),
        ids_of(slots) == list,
{
    lemma_degree(slots, list.len() as int);
    assert(ids_of(slots) =~= list);
}

/// In a graph without edges every slot is empty.
pub proof fn law_fresh_slots(levels: Seq<u8>, layer: int, v: usize, slots: Seq<u32>)
    requires
        v < levels.len(),
        packed(slots),
        ids_of(slots) == nbrs(bare(levels), layer, v),
    ensures
        forall|i: int| 0 <= i < slots.len() ==> #[trigger] slots[i] == EMPTY,
{
    assert(ids_of(slots).len() == 0);
    assert(degree(slots) == 0);
}

/// Other values in the block of one layer leave the blocks of the other layers alone.
pub proof fn lemma_other_blocks(a: Seq<u32>, b: Seq<u32>, m: nat, level: int, layer: int)
    requires
        0 <= layer <= level,
        a.len() == offset(m, level + 1),
        b.len() == a.len(),
        forall|k: int|
            0 <= k < a.len() && !(offset(m, layer) <= k < offset(m, layer + 1)) ==> a[k]
                == #[trigger] b[k],
    ensures
        forall|l: int| 0 <= l <= level && l != layer ==> block(a, m, l) == #[trigger] block(b, m, l),
{
    assert forall|l: int| 0 <= l <= level && l != layer implies block(a, m, l) == #[trigger] block(
        b,
        m,
        l,
    ) by {
        lemma_offset(m, l);
        lemma_offset(m, layer);
        lemma_offset(m, level);
        if l < layer {
            lemma_offset_apart(m, l, layer);
        } else {
            lemma_offset_apart(m, layer, l);
        }
        if l < level {
            lemma_offset_apart(m, l, level + 1);
        }
        assert(block(a, m, l) =~= block(b, m, l));
    }
}

/// `update` is what becomes of a list `seen` with room for `room` when `new` is offered.
pub open spec fn planned(
    pair: spec_fn(usize, usize) -> u64,
    room: nat,
    v: usize,
    seen: Seq<usize>,
    new: usize,
    update: Update,
) -> bool {
    match update {
        Update::Nothing => seen.contains(new),
        Update::Append => !seen.contains(new) && seen.len() < room,
        Update::Replace(kept) => !seen.contains(new) && seen.len() >= room && kept@ == pruned(
            pair,
            v,
            seen,
            new,
        ),
    }
}

/// A list that holds the neighbour stays, a list with room takes it in at its end, and a full list
/// is pruned.
pub proof fn law_planned(
    pair: spec_fn(usize, usize) -> u64,
    room: nat,
    v: usize,
    seen: Seq<usize>,
    new: usize,
    update: Update,
)
    requires
        planned(pair, room, v, seen, new, update),
    ensures
        offered(pair, room, v, seen, new) == match update {
            Update::Nothing => seen,
            Update::Append => seen.push(new),
            Update::Replace(kept) => kept@,
        },
        update is Nothing <==> seen.contains(new),
        update is Append <==> !seen.contains(new) && seen.len() < room,
{
}

/// Does a block hold a neighbour?
fn holds_id(slots: &[u32], id: usize) -> (r: bool)
    ensures
        r == ids_of(slots@).contains(id),
{
    let d: usize = degree_of(slots);
    proof {
        lemma_degree_bounds(slots@);
    }
    let mut i: usize = 0;
    while i < d
        invariant
            i <= d,
            d == degree(slots@),
            d <= slots@.len(),
            forall|j: int| 0 <= j < i ==> #[trigger] ids_of(slots@)[j] != id,
        decreases d - i,
    {
        assert(ids_of(slots@)[i as int] == slots@[i as int] as usize);
        if slots[i] as usize == id {
            return true;
        }
        i += 1;
    }
    false
}

/// Do two blocks hold the same neighbours in the same order?
fn same_ids(a: &[u32], b: &[u32]) -> (r: bool)
    ensures
        r == (ids_of(a@) == ids_of(b@)),
{
    let d: usize = degree_of(a);
    proof {
        lemma_degree_bounds(a@);
        lemma_degree_bounds(b@);
    }
    if degree_of(b) != d {
        assert(ids_of(a@).len() != ids_of(b@).len());
        return false;
    }
    let mut i: usize = 0;
    while i < d
        invariant
            i <= d,
            d == degree(a@),
            d == degree(b@),
            d <= a@.len(),
            d <= b@.len(),
            forall|j: int| 0 <= j < i ==> #[trigger] ids_of(a@)[j] == ids_of(b@)[j],
        decreases d - i,
    {
        assert(ids_of(a@)[i as int] == a@[i as int] as usize);
        assert(ids_of(b@)[i as int] == b@[i as int] as usize);
        if a[i] != b[i] {
            return false;
        }
        i += 1;
    }
    assert(ids_of(a@) =~= ids_of(b@));
    true
}

/// The neighbours that a block holds.
fn list_of(slots: &[u32]) -> (r: Vec<usize>)
    ensures
        r@ == ids_of(slots@),
{
    let d: usize = degree_of(slots);
    proof {
        lemma_degree_bounds(slots@);
    }
    let mut r: Vec<usize> = Vec::new();
    let mut i: usize = 0;
    while i < d
        invariant
            i <= d,
            d == degree(slots@),
            d <= slots@.len(),
            r@ == ids_of(slots@).take(i as int),
        decreases d - i,
    {
        r.push(slots[i] as usize);
        proof {
            assert(r@ =~= ids_of(slots@).take(i + 1));
        }
        i += 1;
    }
    assert(r@ =~= ids_of(slots@));
    r
}

/// Choose the neighbours that a node keeps out of a block and a new neighbour.
fn prune_block<D: PairKeys>(slots: &[u32], new: usize, node: usize, pairs: &D) -> (r: Vec<usize>)
    requires
        pairs.wf(),
        node < pairs.size(),
        new < pairs.size(),
        forall|j: int|
            0 <= j < ids_of(slots@).len() ==> (#[trigger] ids_of(slots@)[j]) < pairs.size(),
    ensures
        r@ == pruned(|a: usize, b: usize| pairs.pair(a, b), node, ids_of(slots@), new),
{
    let d: usize = degree_of(slots);
    proof {
        lemma_degree_bounds(slots@);
    }
    let existing = slice_subrange(slots, 0, d);
    proof {
        assert(existing@.map_values(|v: u32| v as usize) =~= ids_of(slots@));
        assert forall|i: int| 0 <= i < existing@.len() implies (
        #[trigger] existing@[i]) < pairs.size() by {
            assert(ids_of(slots@)[i] == existing@[i] as usize);
        }
    }
    compute_pruned(pairs, existing, new, node)
}

/// Decide what to do about a block that was seen, so that the costly part is done by the time the
/// node is written to.
pub fn plan_update<D: PairKeys>(
    snapshot: &[u32],
    node: usize,
    new: usize,
    room: usize,
    pairs: &D,
) -> (r: Update)
    requires
        pairs.wf(),
        node < pairs.size(),
        new < pairs.size(),
        forall|j: int|
            0 <= j < ids_of(snapshot@).len() ==> (#[trigger] ids_of(snapshot@)[j]) < pairs.size(),
    ensures
        planned(
            |a: usize, b: usize| pairs.pair(a, b),
            room as nat,
            node,
            ids_of(snapshot@),
            new,
            r,
        ),
{
    if holds_id(snapshot, new) {
        Update::Nothing
    } else if degree_of(snapshot) < room {
        Update::Append
    } else {
        Update::Replace(prune_block(snapshot, new, node, pairs))
    }
}

impl View for ConstructionGraph {
    type V = Lists;

    closed spec fn view(&self) -> Lists {
        Seq::new(
            self.nodes@.len(),
            |v: int| lists_of(self.nodes@[v]@, self.m as nat, self.node_levels@[v] as int),
        )
    }
}

impl ConstructionGraph {
    /// The number of nodes.
    pub closed spec fn size(&self) -> nat {
        self.nodes@.len()
    }

    /// How many neighbours a node keeps in the layers above the base layer.
    pub closed spec fn width(&self) -> nat {
        self.m as nat
    }

    /// The highest layer of every node.
    pub closed spec fn levels(&self) -> Seq<u8> {
        self.node_levels@
    }

    /// Every node has the slots of its layers, and empty slots stand behind the others.
    pub closed spec fn laid_out(&self) -> bool {
        &&& self.node_levels@.len() == self.nodes@.len()
        &&& self.nodes@.len() <= u32::MAX
        &&& self.m * 2 <= usize::MAX
        &&& forall|v: int|
            0 <= v < self.nodes@.len() ==> slots_ok(
                (#[trigger] self.nodes@[v])@,
                self.m as nat,
                self.node_levels@[v] as int,
            )
    }

    /// The slots are laid out as they should be, and the lists they hold are in order.
    pub open spec fn wf(&self) -> bool {
        &&& self.laid_out()
        &&& graph_ok(self@, self.width())
    }

    /// What the view says of a node.
    pub proof fn lemma_view(&self)
        requires
            self.laid_out(),
        ensures
            self@.len() == self.size(),
            self.size() <= u32::MAX,
            self.levels().len() == self.size(),
            self.width() * 2 <= usize::MAX,
            forall|v: int|
                0 <= v < self.size() ==> (#[trigger] self@[v]).len() == self.levels()[v] + 1,
            forall|l: int, v: usize| #[trigger]
                stands_in(self@, l, v) <==> v < self.size() && 0 <= l <= self.levels()[v as int],
    {
    }

    /// A graph without edges.
    pub fn new(n: usize, layer_assignments: &[u8], m: usize) -> (r: Self)
        requires
            n == layer_assignments@.len(),
            n <= u32::MAX,
            m * 2 <= usize::MAX,
            forall|i: int|
                0 <= i < n ==> m * 2 + (#[trigger] layer_assignments@[i]) * m <= usize::MAX,
        ensures
            r.wf(),
            r.size() == n,
            r.width() == m,
            r.levels() == layer_assignments@,
            r@ == bare(layer_assignments@),
    {
        let mut nodes: Vec<Vec<u32>> = Vec::new();
        let mut node_levels: Vec<u8> = Vec::new();
        let mut i: usize = 0;
        while i < n
            invariant
                i <= n,
                n == layer_assignments@.len(),
                m * 2 <= usize::MAX,
                forall|k: int|
                    0 <= k < n ==> m * 2 + (#[trigger] layer_assignments@[k]) * m <= usize::MAX,
                nodes@.len() == i,
                node_levels@ == layer_assignments@.take(i as int),
                forall|v: int|
                    0 <= v < i ==> (#[trigger] nodes@[v])@ == Seq::new(
                        offset(m as nat, layer_assignments@[v] + 1) as nat,
                        |j: int| EMPTY,
                    ),
            decreases n - i,
        {
            let level: usize = layer_assignments[i] as usize;
            assert(m * 2 + layer_assignments@[i as int] * m <= usize::MAX);
            assert(level * m >= 0) by (nonlinear_arith)
                requires
                    level >= 0,
                    m >= 0,
            ;
            let total: usize = m * 2 + level * m;
            let slots: Vec<u32> = vec![EMPTY; total];
            proof {
                lemma_offset(m as nat, level as int);
                assert(slots@ =~= Seq::new(offset(m as nat, level + 1) as nat, |j: int| EMPTY));
            }
            nodes.push(slots);
            node_levels.push(layer_assignments[i]);
            proof {
                assert(node_levels@ =~= layer_assignments@.take(i + 1));
            }
            i += 1;
        }
        assert(layer_assignments@.take(i as int) =~= layer_assignments@);
        let r = ConstructionGraph { nodes, node_levels, m };
        proof {
            let levels = layer_assignments@;
            assert forall|v: int, l: int| 0 <= v < n && 0 <= l <= levels[v] implies packed(
                #[trigger] block(nodes@[v]@, m as nat, l),
            ) && ids_of(block(nodes@[v]@, m as nat, l)) == Seq::<usize>::empty() by {
                lemma_offset(m as nat, l);
                lemma_offset(m as nat, levels[v] as int);
                if l < levels[v] {
                    lemma_offset_apart(m as nat, l, levels[v] + 1);
                }
                lemma_block_holds(block(nodes@[v]@, m as nat, l), Seq::<usize>::empty());
            }
            assert forall|v: int| 0 <= v < n implies slots_ok(
                (#[trigger] r.nodes@[v])@,
                m as nat,
                levels[v] as int,
            ) by {
                lemma_offset(m as nat, levels[v] as int);
            }
            assert forall|v: int| 0 <= v < n implies #[trigger] r@[v] == bare(levels)[v] by {
                assert(lists_of(nodes@[v]@, m as nat, levels[v] as int) =~= bare(levels)[v]);
            }
            assert(r@ =~= bare(levels));
            lemma_bare(levels, m as nat);
        }
        r
    }

    /// The number of nodes.
    pub fn len(&self) -> (r: usize)
        requires
            self.laid_out(),
        ensures
            r == self.size(),
    {
        self.nodes.len()
    }

    /// Where the block of a layer begins among the slots of a node.
    pub fn layer_offset(&self, layer: u8) -> (r: usize)
        requires
            self.laid_out(),
            self.width() * 2 + layer * self.width() <= usize::MAX,
        ensures
            r == offset(self.width(), layer as int),
    {
        if layer == 0 {
            0
        } else {
            proof {
                lemma_offset(self.m as nat, layer - 1);
                lemma_offset(self.m as nat, layer as int);
                let (m, l) = (self.m as int, layer as int);
                assert((l - 1) * m <= l * m && (l - 1) * m >= 0) by (nonlinear_arith)
                    requires
                        m >= 0,
                        l > 0,
                ;
            }
            self.m * 2 + (layer as usize - 1) * self.m
        }
    }

    /// How many neighbours a node may have at a layer.
    pub fn max_neighbours(&self, layer: u8) -> (r: usize)
        requires
            self.laid_out(),
        ensures
            r == cap(self.width(), layer as int),
    {
        if layer == 0 {
            self.m * 2
        } else {
            self.m
        }
    }

    /// The highest layer that a node stands in.
    pub fn node_level(&self, node_id: usize) -> (r: u8)
        requires
            self.laid_out(),
            node_id < self.size(),
        ensures
            r == self.levels()[node_id as int],
            r + 1 == self@[node_id as int].len(),
    {
        self.node_levels[node_id]
    }

    /// The block of a node at a layer that it stands in lies within its slots.
    proof fn lemma_block_inside(&self, node_id: usize, layer: u8)
        requires
            self.laid_out(),
            node_id < self.size(),
            layer <= self.levels()[node_id as int],
        ensures
            0 <= offset(self.width(), layer as int) <= offset(self.width(), layer + 1)
                <= self.nodes@[node_id as int]@.len(),
            offset(self.width(), layer as int) + cap(self.width(), layer as int) == offset(
                self.width(),
                layer + 1,
            ),
            self.width() * 2 + layer * self.width() <= self.nodes@[node_id as int]@.len(),
            packed(block(self.nodes@[node_id as int]@, self.width(), layer as int)),
            nbrs(self@, layer as int, node_id) == ids_of(
                block(self.nodes@[node_id as int]@, self.width(), layer as int),
            ),
    {
        let m = self.m as nat;
        let level = self.node_levels@[node_id as int];
        assert(slots_ok(self.nodes@[node_id as int]@, m, level as int));
        lemma_offset(m, layer as int);
        lemma_offset(m, level as int);
        if layer < level {
            lemma_offset_apart(m, layer as int, level + 1);
        }
        let (a, b, w) = (layer as int, level as int, m as int);
        assert(a * w <= b * w) by (nonlinear_arith)
            requires
                0 <= a <= b,
                w >= 0,
        ;
    }

    /// The neighbours of a node fit into its slots.
    pub proof fn lemma_ids_fit(&self, node_id: usize, layer: u8)
        requires
            self.laid_out(),
            node_id < self.size(),
        ensures
            all_below(nbrs(self@, layer as int, node_id), EMPTY as nat),
            layer <= self.levels()[node_id as int] ==> nbrs(self@, layer as int, node_id).len()
                <= cap(self.width(), layer as int),
    {
        if layer <= self.levels()[node_id as int] {
            self.lemma_block_inside(node_id, layer);
            let slots = block(self.nodes@[node_id as int]@, self.width(), layer as int);
            lemma_degree_bounds(slots);
            assert forall|j: int| 0 <= j < ids_of(slots).len() implies (#[trigger] ids_of(slots)[j])
                < EMPTY by {
                assert(slots[j] != EMPTY);
            }
        }
    }

    /// The slots of a node at a layer; none where the node does not stand in the layer.
    pub fn get_neighbours_slice(&self, node_id: usize, layer: u8) -> (r: &[u32])
        requires
            self.laid_out(),
            node_id < self.size(),
        ensures
            ids_of(r@) == nbrs(self@, layer as int, node_id),
            packed(r@),
            layer <= self.levels()[node_id as int] ==> r@.len() == cap(self.width(), layer as int),
            layer > self.levels()[node_id as int] ==> r@.len() == 0,
    {
        let flat: &Vec<u32> = &self.nodes[node_id];
        if layer > self.node_levels[node_id] {
            let r = slice_subrange(flat.as_slice(), 0, 0);
            assert(ids_of(r@) =~= Seq::<usize>::empty());
            return r;
        }
        let total: usize = flat.len();
        proof {
            self.lemma_block_inside(node_id, layer);
            assert(self.nodes@[node_id as int]@.len() == total);
        }
        let start: usize = self.layer_offset(layer);
        let count: usize = self.max_neighbours(layer);
        let r = slice_subrange(flat.as_slice(), start, start + count);
        assert(r@ =~= block(flat@, self.width(), layer as int));
        r
    }

    /// Write a list into the block of a node at a layer, and empty slots behind it.
    fn write_block(&mut self, node_id: usize, layer: u8, list: &Vec<usize>)
        requires
            old(self).laid_out(),
            node_id < old(self).size(),
            layer <= old(self).levels()[node_id as int],
            list@.len() <= cap(old(self).width(), layer as int),
            forall|j: int| 0 <= j < list@.len() ==> (#[trigger] list@[j]) < EMPTY,
        ensures
            final(self).laid_out(),
            old(self).wf() && list_ok(
                old(self)@,
                old(self).width(),
                layer as int,
                node_id,
                list@,
            ) ==> final(self).wf(),
            final(self).size() == old(self).size(),
            final(self).width() == old(self).width(),
            final(self).levels() == old(self).levels(),
            final(self)@ == with_list(old(self)@, layer as int, node_id, list@),
    {
        let ghost before = *self;
        let ghost m = self.m as nat;
        let ghost g = self@;
        let total: usize = self.nodes[node_id].len();
        proof {
            self.lemma_block_inside(node_id, layer);
            assert(self.nodes@[node_id as int]@.len() == total);
        }
        let start: usize = self.layer_offset(layer);
        let count: usize = self.max_neighbours(layer);
        let mut slots: Vec<u32> = Vec::new();
        std::mem::swap(&mut slots, &mut self.nodes[node_id]);
        let ghost was = slots@;
        let mut j: usize = 0;
        while j < count
            invariant
                j <= count,
                list@.len() <= count,
                slots@.len() == was.len(),
                was.len() == total,
                start + count <= total,
                forall|k: int| 0 <= k < list@.len() ==> (#[trigger] list@[k]) < EMPTY,
                forall|k: int|
                    0 <= k < was.len() && !(start <= k < start + j) ==> slots@[k] == was[k],
                forall|k: int|
                    0 <= k < j && k < list@.len() ==> slots@[start + k] != EMPTY
                        && #[trigger] slots@[start + k] as usize == list@[k],
                forall|k: int|
                    list@.len() <= k < j ==> #[trigger] slots@[start + k] == EMPTY,
            decreases count - j,
        {
            if j < list.len() {
                assert(list@[j as int] < EMPTY);
                slots.set(start + j, list[j] as u32);
            } else {
                slots.set(start + j, EMPTY);
            }
            j += 1;
        }
        let ghost now = slots@;
        std::mem::swap(&mut slots, &mut self.nodes[node_id]);
        proof {
            let level = self.node_levels@[node_id as int] as int;
            lemma_offset(m, level);
            lemma_other_blocks(was, now, m, level, layer as int);
            let b = block(now, m, layer as int);
            assert forall|k: int| 0 <= k < list@.len() implies b[k] != EMPTY && #[trigger] b[k]
                as usize == list@[k] by {
                assert(b[k] == now[start + k]);
            }
            assert forall|k: int| list@.len() <= k < b.len() implies #[trigger] b[k] == EMPTY by {
                assert(b[k] == now[start + k]);
            }
            lemma_block_holds(b, list@);
            assert(slots_ok(was, m, level));
            assert forall|l: int| 0 <= l <= level implies packed(#[trigger] block(now, m, l)) by {
                if l != layer {
                    assert(block(was, m, l) == block(now, m, l));
                }
            }
            assert forall|v: int| 0 <= v < self.nodes@.len() implies slots_ok(
                (#[trigger] self.nodes@[v])@,
                m,
                self.node_levels@[v] as int,
            ) by {
                if v != node_id {
                    assert(self.nodes@[v] == before.nodes@[v]);
                }
            }
            let h = with_list(g, layer as int, node_id, list@);
            assert forall|v: int| 0 <= v < h.len() implies #[trigger] self@[v] == h[v] by {
                if v == node_id {
                    assert forall|l: int| 0 <= l <= level implies #[trigger] self@[v][l]
                        == h[v][l] by {
                        if l != layer {
                            assert(block(was, m, l) == block(now, m, l));
                        }
                    }
                    assert(self@[v] =~= h[v]);
                } else {
                    assert(self.nodes@[v] == before.nodes@[v]);
                    assert(self@[v] == before@[v]);
                }
            }
            assert(self@ =~= h);
            if before.wf() && list_ok(g, m, layer as int, node_id, list@) {
                lemma_with_list_ok(g, m, layer as int, node_id, list@);
            }
        }
    }

    /// Set the neighbours of a node at a layer: the first that there is room for, without the node
    /// itself. Nothing happens where the node does not stand in the layer.
    pub fn set_neighbours(&mut self, node_id: usize, layer: u8, neighbours: &[Entry])
        requires
            old(self).laid_out(),
            node_id < old(self).size(),
            layer <= old(self).levels()[node_id as int] ==> forall|j: int|
                0 <= j < neighbours@.len() && j < cap(old(self).width(), layer as int) ==> (
                #[trigger] neighbours@[j]).1 < EMPTY,
        ensures
            final(self).laid_out(),
            old(self).wf() && (layer <= old(self).levels()[node_id as int] ==> list_ok(
                old(self)@,
                old(self).width(),
                layer as int,
                node_id,
                ids(without(at_most(neighbours@, cap(old(self).width(), layer as int)), node_id)),
            )) ==> final(self).wf(),
            final(self).size() == old(self).size(),
            final(self).width() == old(self).width(),
            final(self).levels() == old(self).levels(),
            final(self)@ == if layer > old(self).levels()[node_id as int] {
                old(self)@
            } else {
                with_list(
                    old(self)@,
                    layer as int,
                    node_id,
                    ids(
                        without(
                            at_most(neighbours@, cap(old(self).width(), layer as int)),
                            node_id,
                        ),
                    ),
                )
            },
    {
        if layer > self.node_levels[node_id] {
            return ;
        }
        let max_n: usize = self.max_neighbours(layer);
        let ghost first = at_most(neighbours@, max_n as nat);
        let mut list: Vec<usize> = Vec::new();
        let mut i: usize = 0;
        assert(ids(without(first.take(0), node_id)) =~= Seq::<usize>::empty());
        while i < neighbours.len() && i < max_n
            invariant
                i <= first.len(),
                first == at_most(neighbours@, max_n as nat),
                list@.len() <= i,
                forall|j: int|
                    0 <= j < neighbours@.len() && j < max_n ==> (#[trigger] neighbours@[j]).1
                        < EMPTY,
                forall|j: int| 0 <= j < list@.len() ==> (#[trigger] list@[j]) < EMPTY,
                list@ == ids(without(first.take(i as int), node_id)),
            decreases neighbours.len() - i,
        {
            proof {
                assert(first.take(i + 1).drop_last() =~= first.take(i as int));
                assert(first.take(i + 1).last() == neighbours@[i as int]);
            }
            let id: usize = neighbours[i].1;
            assert(neighbours@[i as int].1 < EMPTY);
            if id != node_id {
                list.push(id);
                proof {
                    assert(list@ =~= ids(without(first.take(i + 1), node_id)));
                }
            }
            i += 1;
        }
        assert(first.take(i as int) =~= first);
        self.write_block(node_id, layer, &list);
    }

    /// Prune the list of a node with a new neighbour and write what is kept.
    fn prune_and_write<D: PairKeys>(&mut self, node_id: usize, layer: u8, new: usize, pairs: &D)
        requires
            old(self).laid_out(),
            pairs.wf(),
            stands_in(old(self)@, layer as int, node_id),
            node_id < pairs.size(),
            new < pairs.size(),
            new < EMPTY,
            all_below(nbrs(old(self)@, layer as int, node_id), pairs.size()),
        ensures
            final(self).laid_out(),
            old(self).wf() && new != node_id && stands_in(old(self)@, layer as int, new)
                && !nbrs(old(self)@, layer as int, node_id).contains(new) ==> final(self).wf(),
            final(self).size() == old(self).size(),
            final(self).width() == old(self).width(),
            final(self).levels() == old(self).levels(),
            final(self)@ == with_list(
                old(self)@,
                layer as int,
                node_id,
                pruned(
                    |a: usize, b: usize| pairs.pair(a, b),
                    node_id,
                    nbrs(old(self)@, layer as int, node_id),
                    new,
                ),
            ),
    {
        let ghost pair = |a: usize, b: usize| pairs.pair(a, b);
        let ghost list = nbrs(self@, layer as int, node_id);
        let slots = self.get_neighbours_slice(node_id, layer);
        proof {
            self.lemma_view();
            self.lemma_ids_fit(node_id, layer);
            lemma_pruned_from(pair, node_id, list, new);
            if self.wf() && new != node_id && stands_in(self@, layer as int, new) && !list.contains(
                new,
            ) {
                lemma_grown_ok(pair, self@, self.width(), layer as int, node_id, new);
            }
        }
        let kept = prune_block(slots, new, node_id, pairs);
        proof {
            assert forall|j: int| 0 <= j < kept@.len() implies (#[trigger] kept@[j]) < EMPTY by {
                assert(pruned(pair, node_id, list, new).contains(kept@[j]));
            }
        }
        self.write_block(node_id, layer, &kept);
    }

    /// The slots of a node at a layer as they are now.
    pub fn snapshot(&self, node_id: usize, layer: u8) -> (r: Vec<u32>)
        requires
            self.laid_out(),
            node_id < self.size(),
        ensures
            ids_of(r@) == nbrs(self@, layer as int, node_id),
            packed(r@),
            layer <= self.levels()[node_id as int] ==> r@.len() == cap(self.width(), layer as int),
            layer > self.levels()[node_id as int] ==> r@.len() == 0,
    {
        let slots = self.get_neighbours_slice(node_id, layer);
        let mut r: Vec<u32> = Vec::new();
        let mut i: usize = 0;
        while i < slots.len()
            invariant
                i <= slots@.len(),
                r@ == slots@.take(i as int),
            decreases slots.len() - i,
        {
            r.push(slots[i]);
            proof {
                assert(r@ =~= slots@.take(i + 1));
            }
            i += 1;
        }
        assert(r@ =~= slots@);
        r
    }

    /// Carry out a decision made on a snapshot. Where the list has changed since, the new neighbour
    /// is left out if it is there by now, and otherwise the list as it is now is pruned.
    pub fn commit_update<D: PairKeys>(
        &mut self,
        node_id: usize,
        layer: u8,
        new: usize,
        snapshot: &[u32],
        update: Update,
        pairs: &D,
    )
        requires
            old(self).laid_out(),
            pairs.wf(),
            stands_in(old(self)@, layer as int, node_id),
            node_id < pairs.size(),
            new < pairs.size(),
            new < EMPTY,
            all_below(nbrs(old(self)@, layer as int, node_id), pairs.size()),
            planned(
                |a: usize, b: usize| pairs.pair(a, b),
                cap(old(self).width(), layer as int),
                node_id,
                ids_of(snapshot@),
                new,
                update,
            ),
        ensures
            final(self).laid_out(),
            old(self).wf() && new != node_id && stands_in(old(self)@, layer as int, new)
                ==> final(self).wf(),
            final(self).size() == old(self).size(),
            final(self).width() == old(self).width(),
            final(self).levels() == old(self).levels(),
            final(self)@ == with_list(
                old(self)@,
                layer as int,
                node_id,
                committed(
                    |a: usize, b: usize| pairs.pair(a, b),
                    cap(old(self).width(), layer as int),
                    node_id,
                    ids_of(snapshot@),
                    nbrs(old(self)@, layer as int, node_id),
                    new,
                ),
            ),
    {
        let ghost pair = |a: usize, b: usize| pairs.pair(a, b);
        let ghost g = self@;
        let ghost list = nbrs(g, layer as int, node_id);
        let ghost room = cap(self.width(), layer as int);
        let ghost seen = ids_of(snapshot@);
        proof {
            self.lemma_view();
            self.lemma_ids_fit(node_id, layer);
            if self.wf() && new != node_id && stands_in(g, layer as int, new) {
                law_commit_keeps_order(pair, g, self.width(), layer as int, node_id, seen, new);
            }
            assert(with_list(g, layer as int, node_id, list) =~= g) by {
                assert(g[node_id as int].update(layer as int, list) =~= g[node_id as int]);
            }
        }
        match update {
            Update::Nothing => {},
            Update::Append => {
                let slots = self.get_neighbours_slice(node_id, layer);
                if holds_id(slots, new) {
                    return ;
                }
                let max_n: usize = self.max_neighbours(layer);
                if degree_of(slots) < max_n {
                    let mut longer = list_of(slots);
                    longer.push(new);
                    self.write_block(node_id, layer, &longer);
                } else {
                    self.prune_and_write(node_id, layer, new, pairs);
                }
            },
            Update::Replace(kept) => {
                let slots = self.get_neighbours_slice(node_id, layer);
                if same_ids(slots, snapshot) {
                    proof {
                        lemma_pruned_from(pair, node_id, list, new);
                        assert forall|j: int| 0 <= j < kept@.len() implies (#[trigger] kept@[j])
                            < EMPTY by {
                            assert(pruned(pair, node_id, list, new).contains(kept@[j]));
                        }
                    }
                    self.write_block(node_id, layer, &kept);
                } else if !holds_id(slots, new) {
                    self.prune_and_write(node_id, layer, new, pairs);
                }
            },
        }
    }

    /// Offer a node as a neighbour to another at a layer. A list that has it stays as it is, a list
    /// with room gets it at its end, and a full list is pruned. Nothing happens where the node does
    /// not stand in the layer.
    pub fn add_neighbour_with_pruning<D: PairKeys>(
        &mut self,
        node_id: usize,
        layer: u8,
        new: usize,
        pairs: &D,
    )
        requires
            old(self).laid_out(),
            pairs.wf(),
            node_id < old(self).size(),
            layer <= old(self).levels()[node_id as int] ==> node_id < pairs.size() && new
                < pairs.size() && new < EMPTY && all_below(
                nbrs(old(self)@, layer as int, node_id),
                pairs.size(),
            ),
        ensures
            final(self).laid_out(),
            old(self).wf() && (layer <= old(self).levels()[node_id as int] ==> new != node_id
                && stands_in(old(self)@, layer as int, new)) ==> final(self).wf(),
            final(self).size() == old(self).size(),
            final(self).width() == old(self).width(),
            final(self).levels() == old(self).levels(),
            final(self)@ == if layer > old(self).levels()[node_id as int] {
                old(self)@
            } else {
                with_list(
                    old(self)@,
                    layer as int,
                    node_id,
                    offered(
                        |a: usize, b: usize| pairs.pair(a, b),
                        cap(old(self).width(), layer as int),
                        node_id,
                        nbrs(old(self)@, layer as int, node_id),
                        new,
                    ),
                )
            },
    {
        proof {
            self.lemma_view();
        }
        if layer > self.node_levels[node_id] {
            return ;
        }
        assert(stands_in(self@, layer as int, node_id));
        let snapshot = self.snapshot(node_id, layer);
        let room: usize = self.max_neighbours(layer);
        let update = plan_update(snapshot.as_slice(), node_id, new, room, pairs);
        self.commit_update(node_id, layer, new, snapshot.as_slice(), update, pairs);
    }

    /// Lay the slots of all nodes out one behind the other.
    pub fn into_flat(self) -> (r: (Vec<u32>, Vec<usize>, Vec<u8>))
        requires
            self.laid_out(),
        ensures
            r.2@ == self.levels(),
            flat_of(r.0@, r.1@, r.2@, self.width()) == self@,
            flat_laid_out(r.0@, r.1@, r.2@, self.width()),
            self.wf() ==> flat_ok(r.0@, r.1@, r.2@, self.width()),
    {
        let mut flat: Vec<u32> = Vec::new();
        let mut offsets: Vec<usize> = Vec::new();
        let n: usize = self.nodes.len();
        let ghost levels = self.node_levels@;
        let ghost m = self.m as nat;
        let mut i: usize = 0;
        while i < n
            invariant
                i <= n,
                n == self.nodes@.len(),
                self.laid_out(),
                levels == self.node_levels@,
                m == self.m,
                offsets@.len() == i,
                flat@.len() == start_of(m, levels, i as int),
                forall|v: int|
                    0 <= v < i ==> #[trigger] offsets@[v] == start_of(m, levels, v) && 0
                        <= offsets@[v] <= start_of(m, levels, v + 1) <= flat@.len()
                        && flat@.subrange(offsets@[v] as int, start_of(m, levels, v + 1))
                        == self.nodes@[v]@,
            decreases n - i,
        {
            let ghost before = flat@;
            let node: &Vec<u32> = &self.nodes[i];
            proof {
                assert(slots_ok(self.nodes@[i as int]@, m, levels[i as int] as int));
                assert(start_of(m, levels, i + 1) == start_of(m, levels, i as int) + node@.len());
            }
            offsets.push(flat.len());
            let mut j: usize = 0;
            while j < node.len()
                invariant
                    j <= node@.len(),
                    flat@ == before + node@.take(j as int),
                decreases node.len() - j,
            {
                flat.push(node[j]);
                proof {
                    assert(before + node@.take(j + 1) =~= (before + node@.take(j as int)).push(
                        node@[j as int],
                    ));
                }
                j += 1;
            }
            proof {
                assert(node@.take(j as int) =~= node@);
                assert forall|v: int| 0 <= v < i + 1 implies #[trigger] offsets@[v] == start_of(
                    m,
                    levels,
                    v,
                ) && 0 <= offsets@[v] <= start_of(m, levels, v + 1) <= flat@.len()
                    && flat@.subrange(offsets@[v] as int, start_of(m, levels, v + 1))
                    == self.nodes@[v]@ by {
                    if v < i {
                        assert(flat@.subrange(offsets@[v] as int, start_of(m, levels, v + 1))
                            =~= before.subrange(
                            offsets@[v] as int,
                            start_of(m, levels, v + 1),
                        ));
                    } else {
                        assert(flat@.subrange(offsets@[v] as int, start_of(m, levels, v + 1))
                            =~= node@);
                    }
                }
            }
            i += 1;
        }
        let node_levels = self.node_levels;
        proof {
            assert forall|v: int| 0 <= v < n implies #[trigger] flat_slots(
                flat@,
                offsets@,
                levels,
                m,
                v,
            ) == self.nodes@[v]@ by {
                assert(offsets@[v] == start_of(m, levels, v));
            }
            assert(flat_of(flat@, offsets@, levels, m) =~= self@) by {
                assert forall|v: int| 0 <= v < n implies #[trigger] flat_of(
                    flat@,
                    offsets@,
                    levels,
                    m,
                )[v] == self@[v] by {
                    assert(flat_slots(flat@, offsets@, levels, m, v) == self.nodes@[v]@);
                }
            }
        }
        (flat, offsets, node_levels)
    }
}

/// One layer of a graph that is being built.
pub struct GraphLayer<'a> {
    pub graph: &'a ConstructionGraph,
    pub layer: u8,
}

impl<'a> LayerView for GraphLayer<'a> {
    open spec fn size(&self) -> nat {
        self.graph.size()
    }

    open spec fn adj(&self, node: usize) -> Seq<usize> {
        nbrs(self.graph@, self.layer as int, node)
    }

    open spec fn wf(&self) -> bool {
        self.graph.wf()
    }

    proof fn lemma_closed(&self) {
        self.graph.lemma_view();
        assert forall|node: usize, j: int|
            node < self.size() && 0 <= j < self.adj(node).len() implies (#[trigger] self.adj(
            node,
        )[j]) < self.size() by {
            let l = self.layer as int;
            assert(stands_in(self.graph@, l, node));
            assert(list_ok(self.graph@, self.graph.width(), l, node, nbrs(self.graph@, l, node)));
            assert(stands_in(self.graph@, l, nbrs(self.graph@, l, node)[j]));
        }
    }

    fn slots(&self, node: usize) -> (r: &[u32]) {
        self.graph.get_neighbours_slice(node, self.layer)
    }
}

} // verus!
