//! Choice of near and diverse neighbours.
//!
//! Candidates are taken nearest first. One is kept unless some node kept before it is nearer to it
//! than the node whose neighbours are chosen.
use crate::utils::ordered::{
    ascending, distinct_ids, entry_le, lemma_sort_distinct, lemma_sort_entries, sort, sort_entries,
    Entry,
};
use vstd::prelude::*;

verus! {

/// Distances between nodes, given as order keys.
pub trait PairKeys {
    /// The number of nodes.
    spec fn size(&self) -> nat;

    /// The key of the distance from `a` to `b`.
    spec fn pair(&self, a: usize, b: usize) -> u64;

    /// The representation is in order.
    spec fn wf(&self) -> bool;

    /// Compute the key of the distance from `a` to `b`.
    fn pair_of(&self, a: usize, b: usize) -> (r: u64)
        requires
            self.wf(),
            a < self.size(),
            b < self.size(),
        ensures
            r == self.pair(a, b),
    ;
}

/// Some kept node is nearer to the candidate than the candidate's own distance.
pub open spec fn dominated(
    pair: spec_fn(usize, usize) -> u64,
    kept: Seq<Entry>,
    c: Entry,
) -> bool {
    exists|i: int| 0 <= i < kept.len() && pair(c.1, (#[trigger] kept[i]).1) < c.0
}

/// The candidates that are kept, at most `cap` of them.
pub open spec fn diverse(
    pair: spec_fn(usize, usize) -> u64,
    cands: Seq<Entry>,
    cap: nat,
) -> Seq<Entry>
    decreases cands.len(),
{
    if cands.len() == 0 {
        Seq::empty()
    } else {
        let kept = diverse(pair, cands.drop_last(), cap);
        if kept.len() < cap && !dominated(pair, kept, cands.last()) {
            kept.push(cands.last())
        } else {
            kept
        }
    }
}

/// The candidates that are not `node` itself.
pub open spec fn without(cands: Seq<Entry>, node: usize) -> Seq<Entry>
    decreases cands.len(),
{
    if cands.len() == 0 {
        Seq::empty()
    } else if cands.last().1 == node {
        without(cands.drop_last(), node)
    } else {
        without(cands.drop_last(), node).push(cands.last())
    }
}

/// The neighbours chosen for `node` out of `cands`.
pub open spec fn chosen(
    pair: spec_fn(usize, usize) -> u64,
    node: usize,
    cands: Seq<Entry>,
    cap: nat,
) -> Seq<Entry> {
    diverse(pair, sort_entries(without(cands, node)), cap)
}

/// The ids of candidates.
pub open spec fn ids(s: Seq<Entry>) -> Seq<usize> {
    s.map_values(|e: Entry| e.1)
}

/// Nodes with the keys of their distances from `node`.
pub open spec fn keyed(
    pair: spec_fn(usize, usize) -> u64,
    node: usize,
    list: Seq<usize>,
) -> Seq<Entry> {
    list.map_values(|v: usize| (pair(node, v), v))
}

/// The neighbours of `node` that are kept when `new` comes to a full list.
pub open spec fn pruned(
    pair: spec_fn(usize, usize) -> u64,
    node: usize,
    existing: Seq<usize>,
    new: usize,
) -> Seq<usize> {
    ids(diverse(pair, sort_entries(keyed(pair, node, existing.push(new))), existing.len()))
}

/// What is kept are candidates, in their order: each stands at a place, and the places ascend.
pub proof fn lemma_diverse_from(
    pair: spec_fn(usize, usize) -> u64,
    cands: Seq<Entry>,
    cap: nat,
) -> (at: Seq<int>)
    ensures
        at.len() == diverse(pair, cands, cap).len(),
        at.len() <= cap,
        at.len() <= cands.len(),
        forall|i: int|
            0 <= i < at.len() ==> 0 <= #[trigger] at[i] < cands.len() && cands[at[i]] == diverse(
                pair,
                cands,
                cap,
            )[i],
        forall|i: int, j: int| 0 <= i < j < at.len() ==> at[i] < at[j],
    decreases cands.len(),
{
    if cands.len() == 0 {
        Seq::empty()
    } else {
        let front = cands.drop_last();
        let r = lemma_diverse_from(pair, front, cap);
        let kept = diverse(pair, front, cap);
        assert forall|i: int| 0 <= i < r.len() implies cands[#[trigger] r[i]] == kept[i] by {
            assert(front[r[i]] == kept[i]);
        }
        if kept.len() < cap && !dominated(pair, kept, cands.last()) {
            r.push(cands.len() - 1)
        } else {
            r
        }
    }
}

/// Every kept candidate is at least as near to the node as to each one kept before it, and the
/// nearest candidate is kept wherever there is room for one.
pub proof fn law_diverse(pair: spec_fn(usize, usize) -> u64, cands: Seq<Entry>, cap: nat)
    ensures
        ({
            let kept = diverse(pair, cands, cap);
            &&& kept.len() <= cap
            &&& cands.len() > 0 && cap > 0 ==> kept.len() > 0 && kept[0] == cands[0]
            &&& forall|i: int, j: int|
                0 <= i < j < kept.len() ==> (#[trigger] kept[j]).0 <= pair(
                    kept[j].1,
                    (#[trigger] kept[i]).1,
                )
        }),
    decreases cands.len(),
{
    if cands.len() > 0 {
        law_diverse(pair, cands.drop_last(), cap);
        let front = diverse(pair, cands.drop_last(), cap);
        if cands.len() > 1 {
            assert(cands.drop_last()[0] == cands[0]);
        }
        let kept = diverse(pair, cands, cap);
        assert forall|i: int, j: int| 0 <= i < j < kept.len() implies (#[trigger] kept[j]).0
            <= pair(kept[j].1, (#[trigger] kept[i]).1) by {
            assert(front[i] == kept[i]);
            if j < front.len() {
                assert(front[j] == kept[j]);
            }
        }
    }
}

/// A candidate that was not kept is dominated by a kept one, or the list is full. Where the
/// candidates stand nearest first, a full list leaves out no candidate that is nearer than the last
/// one kept, unless it is dominated.
pub proof fn law_diverse_complete(
    pair: spec_fn(usize, usize) -> u64,
    cands: Seq<Entry>,
    cap: nat,
    c: int,
)
    requires
        0 <= c < cands.len(),
    ensures
        ({
            let kept = diverse(pair, cands, cap);
            ||| kept.contains(cands[c])
            ||| dominated(pair, kept, cands[c])
            ||| kept.len() == cap && (ascending(cands) && cap > 0 ==> entry_le(
                kept.last(),
                cands[c],
            ))
        }),
    decreases cands.len(),
{
    let front = cands.drop_last();
    let before = diverse(pair, front, cap);
    let kept = diverse(pair, cands, cap);
    law_diverse(pair, front, cap);
    if c < front.len() {
        law_diverse_complete(pair, front, cap, c);
        assert(front[c] == cands[c]);
        if before.contains(cands[c]) {
            let k = choose|k: int| 0 <= k < before.len() && before[k] == cands[c];
            assert(kept[k] == cands[c]);
        } else if dominated(pair, before, cands[c]) {
            let k = choose|k: int|
                0 <= k < before.len() && pair(cands[c].1, (#[trigger] before[k]).1) < cands[c].0;
            assert(kept[k] == before[k]);
        } else {
            assert(kept == before);
            if ascending(cands) {
                assert(ascending(front)) by {
                    assert forall|i: int, j: int| 0 <= i < j < front.len() implies entry_le(
                        front[i],
                        front[j],
                    ) by {
                        assert(entry_le(cands[i], cands[j]));
                    }
                }
            }
        }
    } else {
        assert(cands[c] == cands.last());
        if kept.len() > before.len() {
            assert(kept[before.len() as int] == cands[c]);
        } else if !dominated(pair, kept, cands[c]) && cap > 0 {
            let at = lemma_diverse_from(pair, front, cap);
            let last = kept.len() - 1;
            assert(front[at[last]] == kept[last]);
            assert(cands[at[last]] == kept.last());
        }
    }
}

/// Filtering keeps order, and keeps every candidate but those of `node`.
pub proof fn lemma_without(cands: Seq<Entry>, node: usize) -> (at: Seq<int>)
    ensures
        at.len() == without(cands, node).len(),
        at.len() <= cands.len(),
        forall|i: int|
            0 <= i < at.len() ==> 0 <= #[trigger] at[i] < cands.len() && cands[at[i]] == without(
                cands,
                node,
            )[i] && cands[at[i]].1 != node,
        forall|i: int, j: int| 0 <= i < j < at.len() ==> at[i] < at[j],
        (forall|i: int| 0 <= i < cands.len() ==> (#[trigger] cands[i]).1 != node) ==> without(
            cands,
            node,
        ) == cands,
    decreases cands.len(),
{
    if cands.len() == 0 {
        assert(without(cands, node) =~= cands);
        Seq::empty()
    } else {
        let front = cands.drop_last();
        let r = lemma_without(front, node);
        assert forall|i: int| 0 <= i < r.len() implies cands[#[trigger] r[i]] == without(
            front,
            node,
        )[i] && cands[r[i]].1 != node by {
            assert(front[r[i]] == without(front, node)[i]);
        }
        assert(cands[cands.len() - 1] == cands.last());
        if forall|i: int| 0 <= i < cands.len() ==> (#[trigger] cands[i]).1 != node {
            assert forall|i: int| 0 <= i < front.len() implies (
            #[trigger] front[i]).1 != node by {
                assert(front[i] == cands[i]);
            }
            assert(front.push(cands.last()) =~= cands);
        }
        if cands.last().1 == node {
            r
        } else {
            r.push(cands.len() - 1)
        }
    }
}

/// Is the candidate nearer to a kept node than to the node itself?
fn is_dominated<D: PairKeys>(pairs: &D, kept: &Vec<Entry>, c: Entry) -> (r: bool)
    requires
        pairs.wf(),
        c.1 < pairs.size(),
        forall|i: int| 0 <= i < kept@.len() ==> (#[trigger] kept@[i]).1 < pairs.size(),
    ensures
        r == dominated(|a: usize, b: usize| pairs.pair(a, b), kept@, c),
{
    let mut i: usize = 0;
    while i < kept.len()
        invariant
            i <= kept@.len(),
            pairs.wf(),
            c.1 < pairs.size(),
            forall|j: int| 0 <= j < kept@.len() ==> (#[trigger] kept@[j]).1 < pairs.size(),
            forall|j: int| 0 <= j < i ==> pairs.pair(c.1, (#[trigger] kept@[j]).1) >= c.0,
        decreases kept.len() - i,
    {
        let other: Entry = kept[i];
        assert(kept@[i as int].1 < pairs.size());
        let k: u64 = pairs.pair_of(c.1, other.1);
        if k < c.0 {
            assert(pairs.pair(c.1, kept@[i as int].1) < c.0);
            return true;
        }
        i += 1;
    }
    false
}

/// Keep near and diverse candidates out of a list that stands nearest first.
pub fn keep_diverse<D: PairKeys>(pairs: &D, cands: &Vec<Entry>, cap: usize) -> (r: Vec<Entry>)
    requires
        pairs.wf(),
        forall|i: int| 0 <= i < cands@.len() ==> (#[trigger] cands@[i]).1 < pairs.size(),
    ensures
        r@ == diverse(|a: usize, b: usize| pairs.pair(a, b), cands@, cap as nat),
{
    let ghost pair = |a: usize, b: usize| pairs.pair(a, b);
    let mut kept: Vec<Entry> = Vec::new();
    let mut i: usize = 0;
    assert(cands@.take(0) =~= Seq::<Entry>::empty());
    while i < cands.len() && kept.len() < cap
        invariant
            i <= cands@.len(),
            pairs.wf(),
            pair == (|a: usize, b: usize| pairs.pair(a, b)),
            forall|j: int| 0 <= j < cands@.len() ==> (#[trigger] cands@[j]).1 < pairs.size(),
            forall|j: int| 0 <= j < kept@.len() ==> (#[trigger] kept@[j]).1 < pairs.size(),
            kept@ == diverse(pair, cands@.take(i as int), cap as nat),
        decreases cands.len() - i,
    {
        let c: Entry = cands[i];
        assert(cands@[i as int].1 < pairs.size());
        proof {
            assert(cands@.take(i + 1).drop_last() =~= cands@.take(i as int));
            assert(cands@.take(i + 1).last() == c);
        }
        if !is_dominated(pairs, &kept, c) {
            kept.push(c);
        }
        i += 1;
    }
    proof {
        lemma_diverse_full(pair, cands@, cap as nat, i as int);
        if i == cands@.len() {
            assert(cands@.take(i as int) =~= cands@);
        }
    }
    kept
}

/// Once the list is full nothing more is kept.
proof fn lemma_diverse_full(
    pair: spec_fn(usize, usize) -> u64,
    cands: Seq<Entry>,
    cap: nat,
    i: int,
)
    requires
        0 <= i <= cands.len(),
        diverse(pair, cands.take(i), cap).len() >= cap || i == cands.len(),
    ensures
        diverse(pair, cands, cap) == diverse(pair, cands.take(i), cap),
    decreases cands.len() - i,
{
    if i == cands.len() {
        assert(cands.take(i) =~= cands);
    } else {
        let next = cands.take(i + 1);
        assert(next.drop_last() =~= cands.take(i));
        assert(diverse(pair, next, cap) == diverse(pair, cands.take(i), cap));
        lemma_diverse_full(pair, cands, cap, i + 1);
    }
}

/// What is kept of candidates with distinct ids has distinct ids, and all of it was a candidate.
pub proof fn lemma_diverse_distinct(
    pair: spec_fn(usize, usize) -> u64,
    cands: Seq<Entry>,
    cap: nat,
)
    requires
        distinct_ids(cands),
    ensures
        distinct_ids(diverse(pair, cands, cap)),
        forall|e: Entry| #[trigger] diverse(pair, cands, cap).contains(e) ==> cands.contains(e),
{
    let at = lemma_diverse_from(pair, cands, cap);
    let kept = diverse(pair, cands, cap);
    assert forall|i: int, j: int| 0 <= i < j < kept.len() implies kept[i].1 != kept[j].1 by {
        assert(at[i] < at[j]);
        assert(cands[at[i]] == kept[i] && cands[at[j]] == kept[j]);
    }
    assert forall|e: Entry| #[trigger] kept.contains(e) implies cands.contains(e) by {
        let k = choose|k: int| 0 <= k < kept.len() && kept[k] == e;
        assert(cands[at[k]] == e);
    }
}

/// The neighbours chosen for a node are distinct candidates other than the node.
pub proof fn lemma_chosen(
    pair: spec_fn(usize, usize) -> u64,
    node: usize,
    cands: Seq<Entry>,
    cap: nat,
)
    requires
        distinct_ids(cands),
    ensures
        distinct_ids(chosen(pair, node, cands, cap)),
        chosen(pair, node, cands, cap).len() <= cap,
        forall|e: Entry| #[trigger]
            chosen(pair, node, cands, cap).contains(e) ==> cands.contains(e) && e.1 != node,
{
    let others = without(cands, node);
    let at = lemma_without(cands, node);
    assert forall|i: int, j: int| 0 <= i < j < others.len() implies others[i].1 != others[j].1 by {
        assert(at[i] < at[j]);
        assert(cands[at[i]] == others[i] && cands[at[j]] == others[j]);
    }
    lemma_sort_distinct(others);
    lemma_sort_entries(others);
    let sorted = sort_entries(others);
    lemma_diverse_distinct(pair, sorted, cap);
    law_diverse(pair, sorted, cap);
    assert forall|e: Entry| #[trigger] chosen(pair, node, cands, cap).contains(e) implies
        cands.contains(e) && e.1 != node by {
        assert(sorted.contains(e));
        assert(others.contains(e));
        let k = choose|k: int| 0 <= k < others.len() && others[k] == e;
        assert(cands[at[k]] == e);
    }
}

/// What is kept of a list and a new neighbour: no more than there were, all of them from the list or
/// new, and some where there were some.
pub proof fn lemma_pruned_from(
    pair: spec_fn(usize, usize) -> u64,
    node: usize,
    existing: Seq<usize>,
    new: usize,
)
    ensures
        pruned(pair, node, existing, new).len() <= existing.len(),
        forall|v: usize| #[trigger]
            pruned(pair, node, existing, new).contains(v) ==> v == new || existing.contains(v),
        existing.len() > 0 ==> pruned(pair, node, existing, new).len() > 0,
{
    let all = existing.push(new);
    let cands = keyed(pair, node, all);
    lemma_sort_entries(cands);
    let sorted = sort_entries(cands);
    let kept = diverse(pair, sorted, existing.len());
    law_diverse(pair, sorted, existing.len());
    let at = lemma_diverse_from(pair, sorted, existing.len());
    let r = pruned(pair, node, existing, new);
    assert forall|v: usize| #[trigger] r.contains(v) implies v == new || existing.contains(v) by {
        let k = choose|k: int| 0 <= k < r.len() && r[k] == v;
        assert(sorted[at[k]] == kept[k]);
        assert(sorted.contains(kept[k]));
        assert(cands.contains(kept[k]));
        let c = choose|c: int| 0 <= c < cands.len() && cands[c] == kept[k];
        assert(all[c] == v);
        if c < existing.len() {
            assert(existing[c] == v);
        }
    }
}

/// Where the neighbours are all different, those that are kept are too.
pub proof fn lemma_pruned(
    pair: spec_fn(usize, usize) -> u64,
    node: usize,
    existing: Seq<usize>,
    new: usize,
)
    requires
        existing.no_duplicates(),
        !existing.contains(new),
    ensures
        pruned(pair, node, existing, new).no_duplicates(),
        pruned(pair, node, existing, new).len() <= existing.len(),
        forall|v: usize| #[trigger]
            pruned(pair, node, existing, new).contains(v) ==> v == new || existing.contains(v),
        existing.len() > 0 ==> pruned(pair, node, existing, new).len() > 0,
{
    lemma_pruned_from(pair, node, existing, new);
    let all = existing.push(new);
    let cands = keyed(pair, node, all);
    assert forall|i: int, j: int| 0 <= i < j < cands.len() implies cands[i].1 != cands[j].1 by {
        assert(cands[i].1 == all[i] && cands[j].1 == all[j]);
        assert(existing.contains(existing[i]));
        if j < existing.len() {
            assert(existing[i] != existing[j]);
        }
    }
    lemma_sort_distinct(cands);
    let sorted = sort_entries(cands);
    let kept = diverse(pair, sorted, existing.len());
    lemma_diverse_distinct(pair, sorted, existing.len());
    let r = pruned(pair, node, existing, new);
    assert forall|i: int, j: int| 0 <= i < r.len() && 0 <= j < r.len() && i != j implies r[i]
        != r[j] by {
        assert(r[i] == kept[i].1 && r[j] == kept[j].1);
        if i < j {
            assert(kept[i].1 != kept[j].1);
        } else {
            assert(kept[j].1 != kept[i].1);
        }
    }
}

/// Choose near and diverse neighbours for `node`, at most `cap` of them.
pub fn select_neighbours_heuristic<D: PairKeys>(
    pairs: &D,
    node: usize,
    cands: &[Entry],
    cap: usize,
) -> (r: Vec<Entry>)
    requires
        pairs.wf(),
        forall|i: int| 0 <= i < cands@.len() ==> (#[trigger] cands@[i]).1 < pairs.size(),
    ensures
        r@ == chosen(|a: usize, b: usize| pairs.pair(a, b), node, cands@, cap as nat),
{
    let mut others: Vec<Entry> = Vec::new();
    let mut i: usize = 0;
    assert(cands@.take(0) =~= Seq::<Entry>::empty());
    while i < cands.len()
        invariant
            i <= cands@.len(),
            others@ == without(cands@.take(i as int), node),
        decreases cands.len() - i,
    {
        proof {
            assert(cands@.take(i + 1).drop_last() =~= cands@.take(i as int));
            assert(cands@.take(i + 1).last() == cands@[i as int]);
        }
        if cands[i].1 != node {
            others.push(cands[i]);
        }
        i += 1;
    }
    assert(cands@.take(i as int) =~= cands@);
    let sorted = sort(others.as_slice());
    proof {
        let at = lemma_without(cands@, node);
        lemma_sort_entries(others@);
        assert forall|i: int| 0 <= i < sorted@.len() implies (
        #[trigger] sorted@[i]).1 < pairs.size() by {
            assert(sorted@.contains(sorted@[i]));
            let k = choose|k: int| 0 <= k < others@.len() && others@[k] == sorted@[i];
            assert(cands@[at[k]] == sorted@[i]);
        }
    }
    keep_diverse(pairs, &sorted, cap)
}

/// Choose the neighbours that `node` keeps when `new` comes to the neighbours that it has.
pub fn compute_pruned<D: PairKeys>(
    pairs: &D,
    existing: &[u32],
    new: usize,
    node: usize,
) -> (r: Vec<usize>)
    requires
        pairs.wf(),
        node < pairs.size(),
        new < pairs.size(),
        forall|i: int| 0 <= i < existing@.len() ==> (#[trigger] existing@[i]) < pairs.size(),
    ensures
        r@ == pruned(
            |a: usize, b: usize| pairs.pair(a, b),
            node,
            existing@.map_values(|v: u32| v as usize),
            new,
        ),
{
    let ghost pair = |a: usize, b: usize| pairs.pair(a, b);
    let ghost list = existing@.map_values(|v: u32| v as usize);
    let mut cands: Vec<Entry> = Vec::new();
    let mut i: usize = 0;
    while i < existing.len()
        invariant
            i <= existing@.len(),
            pairs.wf(),
            node < pairs.size(),
            pair == (|a: usize, b: usize| pairs.pair(a, b)),
            list == existing@.map_values(|v: u32| v as usize),
            forall|j: int| 0 <= j < existing@.len() ==> (#[trigger] existing@[j]) < pairs.size(),
            cands@ == keyed(pair, node, list.take(i as int)),
        decreases existing.len() - i,
    {
        assert(existing@[i as int] < pairs.size());
        let v: usize = existing[i] as usize;
        let k: u64 = pairs.pair_of(node, v);
        cands.push((k, v));
        proof {
            assert(cands@ =~= keyed(pair, node, list.take(i + 1)));
        }
        i += 1;
    }
    let k: u64 = pairs.pair_of(node, new);
    cands.push((k, new));
    assert(cands@ =~= keyed(pair, node, list.push(new)));
    let sorted = sort(cands.as_slice());
    proof {
        lemma_sort_entries(cands@);
        assert forall|i: int| 0 <= i < sorted@.len() implies (
        #[trigger] sorted@[i]).1 < pairs.size() by {
            assert(sorted@.contains(sorted@[i]));
            let c = choose|c: int| 0 <= c < cands@.len() && cands@[c] == sorted@[i];
            assert(cands@[c].1 == list.push(new)[c]);
            if c < existing@.len() {
                assert(existing@[c] < pairs.size());
            }
        }
    }
    let kept = keep_diverse(pairs, &sorted, existing.len());
    let mut r: Vec<usize> = Vec::new();
    let mut j: usize = 0;
    while j < kept.len()
        invariant
            j <= kept@.len(),
            r@ == ids(kept@.take(j as int)),
        decreases kept.len() - j,
    {
        r.push(kept[j].1);
        proof {
            assert(r@ =~= ids(kept@.take(j + 1)));
        }
        j += 1;
    }
    assert(kept@.take(j as int) =~= kept@);
    r
}

} // verus!
