//! Best-first search in one layer of a graph.
use super::slots::{degree, ids_of, lemma_degree_bounds, LayerView, NodeKeys, EMPTY};
use crate::utils::ordered::{
    ascending, at_most, entry_le, insert_sorted, lemma_insert_sorted, Entry,
};
use crate::utils::search_state::{count_unset, lemma_set_one, SearchState};
use vstd::prelude::*;

verus! {

/// What a search runs on: the edges, the keys of the distances, the number of results to keep and
/// the key of the node that it starts from.
pub struct Probe {
    pub adj: spec_fn(usize) -> Seq<usize>,
    pub key: spec_fn(usize) -> u64,
    pub ef: nat,
    pub start: u64,
}

/// How far a search has come.
pub struct Beam {
    /// The nodes seen.
    pub visited: Seq<bool>,
    /// The nodes whose neighbours are still to be looked at, nearest first.
    pub frontier: Seq<Entry>,
    /// The nearest nodes found, nearest first.
    pub working: Seq<Entry>,
}

/// The key of the furthest result, or of the starting node where there is no result.
pub open spec fn furthest(p: Probe, b: Beam) -> u64 {
    if b.working.len() > 0 {
        b.working.last().0
    } else {
        p.start
    }
}

/// A node is of interest while results are missing, or where it is nearer than the furthest.
pub open spec fn admits(p: Probe, b: Beam, key: u64) -> bool {
    b.working.len() < p.ef || key < furthest(p, b)
}

/// Look at one node: a node seen for the first time that is of interest is queued and offered as a
/// result.
pub open spec fn visit(p: Probe, b: Beam, v: usize) -> Beam {
    let x: Entry = ((p.key)(v), v);
    if b.visited[v as int] {
        b
    } else if admits(p, b, x.0) {
        Beam {
            visited: b.visited.update(v as int, true),
            frontier: insert_sorted(b.frontier, x),
            working: at_most(insert_sorted(b.working, x), p.ef),
        }
    } else {
        Beam { visited: b.visited.update(v as int, true), ..b }
    }
}

/// Look at a list of nodes, one after the other.
pub open spec fn visit_all(p: Probe, b: Beam, list: Seq<usize>) -> Beam
    decreases list.len(),
{
    if list.len() == 0 {
        b
    } else {
        visit(p, visit_all(p, b, list.drop_last()), list.last())
    }
}

/// The search is over: nothing is queued, or all that is queued lies beyond a full result list.
pub open spec fn halted(p: Probe, b: Beam) -> bool {
    b.frontier.len() == 0 || (b.frontier[0].0 > furthest(p, b) && b.working.len() >= p.ef)
}

/// Take the nearest queued node and look at its neighbours.
pub open spec fn step(p: Probe, b: Beam) -> Beam {
    visit_all(
        p,
        Beam { frontier: b.frontier.drop_first(), ..b },
        (p.adj)(b.frontier[0].1),
    )
}

/// A bound on the steps that are left.
pub open spec fn remaining(b: Beam) -> nat {
    2 * count_unset(b.visited) + b.frontier.len()
}

/// Step until the search is over.
pub open spec fn run(p: Probe, b: Beam) -> Beam
    decreases remaining(b),
{
    if halted(p, b) || remaining(step(p, b)) >= remaining(b) {
        b
    } else {
        run(p, step(p, b))
    }
}

/// The state in which a search from `entry` begins.
pub open spec fn launch(p: Probe, n: nat, entry: usize) -> Beam {
    let x: Entry = ((p.key)(entry), entry);
    Beam {
        visited: Seq::new(n, |i: int| false).update(entry as int, true),
        frontier: seq![x],
        working: at_most(seq![x], p.ef),
    }
}

/// The nearest nodes that a search from `entry` finds, nearest first.
pub open spec fn search(
    adj: spec_fn(usize) -> Seq<usize>,
    key: spec_fn(usize) -> u64,
    ef: nat,
    n: nat,
    entry: usize,
) -> Seq<Entry> {
    let p = Probe { adj, key, ef, start: key(entry) };
    run(p, launch(p, n, entry)).working
}

/// Every edge leads to a node of a graph of `n` nodes.
pub open spec fn closed_in(adj: spec_fn(usize) -> Seq<usize>, n: nat) -> bool {
    forall|v: usize, j: int|
        v < n && 0 <= j < adj(v).len() ==> (#[trigger] adj(v)[j]) < n
}

/// What every state of a search in a graph of `n` nodes is like.
pub open spec fn beam_ok(p: Probe, b: Beam, n: nat) -> bool {
    &&& b.visited.len() == n
    &&& ascending(b.frontier)
    &&& ascending(b.working)
    &&& b.working.len() <= p.ef
    &&& forall|i: int| 0 <= i < b.frontier.len() ==> (#[trigger] b.frontier[i]).1 < n
}

/// A visit keeps the state in order and does not lengthen what is left.
pub proof fn lemma_visit(p: Probe, b: Beam, v: usize, n: nat)
    requires
        beam_ok(p, b, n),
        v < n,
    ensures
        beam_ok(p, visit(p, b, v), n),
        remaining(visit(p, b, v)) <= remaining(b),
{
    let x: Entry = ((p.key)(v), v);
    if !b.visited[v as int] {
        lemma_set_one(b.visited, v as int);
        if admits(p, b, x.0) {
            let fp = lemma_insert_sorted(b.frontier, x);
            let wp = lemma_insert_sorted(b.working, x);
            let t = visit(p, b, v);
            assert forall|i: int| 0 <= i < t.frontier.len() implies (
            #[trigger] t.frontier[i]).1 < n by {
                if i != fp {
                    let o = if i < fp { i } else { i - 1 };
                    assert(t.frontier[i] == b.frontier[o]);
                }
            }
        }
    }
}

/// The same for a list of visits.
pub proof fn lemma_visit_all(p: Probe, b: Beam, list: Seq<usize>, n: nat)
    requires
        beam_ok(p, b, n),
        forall|j: int| 0 <= j < list.len() ==> (#[trigger] list[j]) < n,
    ensures
        beam_ok(p, visit_all(p, b, list), n),
        remaining(visit_all(p, b, list)) <= remaining(b),
    decreases list.len(),
{
    if list.len() > 0 {
        let front = list.drop_last();
        assert forall|j: int| 0 <= j < front.len() implies (#[trigger] front[j]) < n by {
            assert(front[j] == list[j]);
        }
        lemma_visit_all(p, b, front, n);
        assert(list[list.len() - 1] < n);
        lemma_visit(p, visit_all(p, b, front), list.last(), n);
    }
}

/// A step keeps the state in order and shortens what is left.
pub proof fn lemma_step(p: Probe, b: Beam, n: nat)
    requires
        beam_ok(p, b, n),
        closed_in(p.adj, n),
        b.frontier.len() > 0,
    ensures
        beam_ok(p, step(p, b), n),
        remaining(step(p, b)) < remaining(b),
{
    let c = Beam { frontier: b.frontier.drop_first(), ..b };
    assert(ascending(c.frontier)) by {
        assert forall|i: int, j: int| 0 <= i < j < c.frontier.len() implies entry_le(
            c.frontier[i],
            c.frontier[j],
        ) by {
            assert(entry_le(b.frontier[i + 1], b.frontier[j + 1]));
        }
    }
    assert forall|i: int| 0 <= i < c.frontier.len() implies (#[trigger] c.frontier[i]).1 < n by {
        assert(c.frontier[i] == b.frontier[i + 1]);
    }
    let v = b.frontier[0].1;
    assert(v < n);
    lemma_visit_all(p, c, (p.adj)(v), n);
}

/// The abstract state that the buffers hold.
pub open spec fn beam_of(state: SearchState) -> Beam {
    Beam {
        visited: state.visited(),
        frontier: state.candidates@,
        working: state.working_sorted@,
    }
}

/// Look at one node.
fn visit_node<K: NodeKeys>(
    Ghost(p): Ghost<Probe>,
    state: &mut SearchState,
    keys: &K,
    v: usize,
    ef: usize,
    start: u64,
)
    requires
        keys.wf(),
        p.key == (|v: usize| keys.key(v)),
        p.ef == ef,
        p.start == start,
        v < keys.size(),
        beam_ok(p, beam_of(*old(state)), keys.size()),
    ensures
        beam_of(*final(state)) == visit(p, beam_of(*old(state)), v),
        beam_ok(p, beam_of(*final(state)), keys.size()),
{
    proof {
        lemma_visit(p, beam_of(*old(state)), v, keys.size());
    }
    if state.is_visited(v) {
        return ;
    }
    state.mark_visited(v);
    let key: u64 = keys.key_of(v);
    let bound: u64 = match state.working_sorted.top() {
        Some(e) => e.0,
        None => start,
    };
    if state.working_sorted.len() < ef || key < bound {
        state.candidates.push((key, v));
        state.working_sorted.insert((key, v), ef);
    }
}

/// Search one layer from `entry` for the `ef` nearest nodes. They are left in
/// `state.working_sorted`.
pub fn search_layer<L: LayerView, K: NodeKeys>(
    view: &L,
    keys: &K,
    entry: usize,
    ef: usize,
    n: usize,
    state: &mut SearchState,
)
    requires
        view.wf(),
        keys.wf(),
        view.size() == n,
        keys.size() == n,
        entry < n,
    ensures
        final(state).wf(),
        final(state).working_sorted@ == search(
            |v: usize| view.adj(v),
            |v: usize| keys.key(v),
            ef as nat,
            n as nat,
            entry,
        ),
{
    let start: u64 = keys.key_of(entry);
    let ghost p = Probe {
        adj: |v: usize| view.adj(v),
        key: |v: usize| keys.key(v),
        ef: ef as nat,
        start,
    };
    let ghost begin = launch(p, n as nat, entry);
    state.reset(n);
    state.mark_visited(entry);
    state.candidates.push((start, entry));
    let _ = state.working_sorted.insert((start, entry), ef);
    proof {
        let x: Entry = (start, entry);
        let none = Seq::<Entry>::empty();
        lemma_insert_sorted(none, x);
        assert(insert_sorted(none, x) =~= seq![x]);
        view.lemma_closed();
        assert(beam_of(*state) == begin);
    }
    loop
        invariant_except_break
            run(p, begin) == run(p, beam_of(*state)),
        invariant
            view.wf(),
            keys.wf(),
            view.size() == n,
            keys.size() == n,
            p.adj == (|v: usize| view.adj(v)),
            p.key == (|v: usize| keys.key(v)),
            p.ef == ef,
            p.start == start,
            closed_in(p.adj, n as nat),
            beam_ok(p, beam_of(*state), n as nat),
        ensures
            state.wf(),
            state.working_sorted@ == run(p, begin).working,
        decreases remaining(beam_of(*state)),
    {
        let ghost b = beam_of(*state);
        let current = match state.candidates.pop() {
            None => {
                break ;
            },
            Some(e) => e,
        };
        let bound: u64 = match state.working_sorted.top() {
            Some(e) => e.0,
            None => start,
        };
        if current.0 > bound && state.working_sorted.len() >= ef {
            break ;
        }
        assert(!halted(p, b));
        proof {
            lemma_step(p, b, n as nat);
        }
        let ghost c = beam_of(*state);
        assert(c == (Beam { frontier: b.frontier.drop_first(), ..b }));
        assert(beam_ok(p, c, n as nat)) by {
            assert forall|i: int| 0 <= i < c.frontier.len() implies (
            #[trigger] c.frontier[i]).1 < n by {
                assert(c.frontier[i] == b.frontier[i + 1]);
            }
        }
        let node: usize = current.1;
        let slots = view.slots(node);
        let ghost ids = view.adj(node);
        proof {
            lemma_degree_bounds(slots@);
            assert((p.adj)(node) == ids);
        }
        let mut j: usize = 0;
        assert(ids.take(0) =~= Seq::<usize>::empty());
        while j < slots.len() && slots[j] != EMPTY
            invariant
                keys.wf(),
                keys.size() == n,
                p.key == (|v: usize| keys.key(v)),
                p.ef == ef,
                p.start == start,
                ids == ids_of(slots@),
                j <= degree(slots@) <= slots@.len(),
                degree(slots@) < slots@.len() ==> slots@[degree(slots@) as int] == EMPTY,
                forall|i: int| 0 <= i < ids.len() ==> (#[trigger] ids[i]) < n,
                beam_ok(p, beam_of(*state), n as nat),
                beam_of(*state) == visit_all(p, c, ids.take(j as int)),
            decreases slots@.len() - j,
        {
            let v: usize = slots[j] as usize;
            assert(j < degree(slots@));
            assert(v == ids[j as int]);
            visit_node(Ghost(p), state, keys, v, ef, start);
            proof {
                assert(ids.take(j + 1).drop_last() =~= ids.take(j as int));
            }
            j += 1;
        }
        proof {
            if j < degree(slots@) {
                lemma_degree_bounds(slots@);
                assert(slots@[j as int] != EMPTY);
            }
            assert(ids.take(j as int) =~= ids);
            assert(beam_of(*state) == step(p, b));
        }
    }
}

} // verus!
