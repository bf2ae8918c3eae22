//! What a best-first search finds.
use super::beam::{
    admits, beam_ok, closed_in, furthest, halted, launch, lemma_step, lemma_visit, remaining, run,
    search, step, visit, visit_all, Beam, Probe,
};
use crate::utils::ordered::{
    ascending, at_most, entry_le, insert_sorted, law_nearest_kept, lemma_insert_sorted, Entry,
};
use vstd::prelude::*;

verus! {

/// `path` follows edges.
pub open spec fn is_path(adj: spec_fn(usize) -> Seq<usize>, path: Seq<usize>) -> bool {
    forall|i: int|
        #![trigger path[i]]
        0 <= i < path.len() - 1 ==> adj(path[i]).contains(path[i + 1])
}

/// Some path leads from `a` to `b`.
pub open spec fn reaches(adj: spec_fn(usize) -> Seq<usize>, a: usize, b: usize) -> bool {
    exists|path: Seq<usize>|
        #![trigger is_path(adj, path)]
        path.len() > 0 && path[0] == a && path.last() == b && is_path(adj, path)
}

/// A list holds the candidate of a node.
pub open spec fn holds(p: Probe, s: Seq<Entry>, v: usize) -> bool {
    s.contains(((p.key)(v), v))
}

/// All neighbours of a node were seen.
pub open spec fn expanded(p: Probe, b: Beam, v: usize) -> bool {
    forall|j: int|
        0 <= j < (p.adj)(v).len() ==> b.visited[#[trigger] (p.adj)(v)[j] as int]
}

/// A node that is not among the results was pushed out by nearer ones.
pub open spec fn settled(p: Probe, b: Beam, v: usize) -> bool {
    holds(p, b.working, v) || (b.working.len() == p.ef && (p.key)(v) >= furthest(p, b))
}

/// What holds throughout a search from `entry`, while the neighbours of `pending` are looked at.
pub open spec fn sound(p: Probe, b: Beam, n: nat, entry: usize, pending: Option<usize>) -> bool {
    &&& beam_ok(p, b, n)
    &&& b.working.len() >= 1
    &&& entry < n && b.visited[entry as int]
    &&& forall|e: Entry| #[trigger]
        b.working.contains(e) ==> e.1 < n && e.0 == (p.key)(e.1) && b.visited[e.1 as int]
    &&& forall|e: Entry| #[trigger]
        b.frontier.contains(e) ==> e.1 < n && e.0 == (p.key)(e.1) && b.visited[e.1 as int]
    &&& forall|i: int, j: int|
        0 <= i < j < b.working.len() ==> b.working[i].1 != b.working[j].1
    &&& forall|v: usize| v < n && #[trigger] b.visited[v as int] ==> settled(p, b, v)
    &&& forall|v: usize|
        v < n && #[trigger] b.visited[v as int] ==> reaches(p.adj, entry, v)
    &&& forall|v: usize|
        v < n && #[trigger] holds(p, b.working, v) ==> holds(p, b.frontier, v) || expanded(p, b, v)
            || pending == Some(v)
}

/// A path can be made longer by an edge.
pub proof fn lemma_reach_step(adj: spec_fn(usize) -> Seq<usize>, a: usize, b: usize, c: usize)
    requires
        reaches(adj, a, b),
        adj(b).contains(c),
    ensures
        reaches(adj, a, c),
{
    let path = choose|path: Seq<usize>|
        #![trigger is_path(adj, path)]
        path.len() > 0 && path[0] == a && path.last() == b && is_path(adj, path);
    let longer = path.push(c);
    assert forall|i: int|
        #![trigger longer[i]]
        0 <= i < longer.len() - 1 implies adj(longer[i]).contains(longer[i + 1]) by {
        assert(longer[i] == path[i]);
        if i < path.len() - 1 {
            assert(longer[i + 1] == path[i + 1]);
        }
    }
    assert(is_path(adj, longer));
}

/// Every node reaches itself.
pub proof fn lemma_reach_self(adj: spec_fn(usize) -> Seq<usize>, a: usize)
    ensures
        reaches(adj, a, a),
{
    let path = seq![a];
    assert(is_path(adj, path));
}

/// Where one path ends another can go on.
pub proof fn lemma_reach_join(adj: spec_fn(usize) -> Seq<usize>, a: usize, b: usize, c: usize)
    requires
        reaches(adj, a, b),
        reaches(adj, b, c),
    ensures
        reaches(adj, a, c),
{
    let path = choose|path: Seq<usize>|
        #![trigger is_path(adj, path)]
        path.len() > 0 && path[0] == b && path.last() == c && is_path(adj, path);
    lemma_reach_along(adj, a, path, path.len() - 1);
}

/// From where a path begins, every node of the path is reached.
proof fn lemma_reach_along(
    adj: spec_fn(usize) -> Seq<usize>,
    a: usize,
    path: Seq<usize>,
    i: int,
)
    requires
        is_path(adj, path),
        0 <= i < path.len(),
        reaches(adj, a, path[0]),
    ensures
        reaches(adj, a, path[i]),
    decreases i,
{
    if i > 0 {
        lemma_reach_along(adj, a, path, i - 1);
        assert(adj(path[i - 1]).contains(path[i - 1 + 1]));
        lemma_reach_step(adj, a, path[i - 1], path[i]);
    }
}

/// More edges reach at least as much.
pub proof fn lemma_reach_more(
    few: spec_fn(usize) -> Seq<usize>,
    many: spec_fn(usize) -> Seq<usize>,
    a: usize,
    b: usize,
)
    requires
        reaches(few, a, b),
        forall|u: usize, v: usize| #[trigger] few(u).contains(v) ==> many(u).contains(v),
    ensures
        reaches(many, a, b),
{
    let path = choose|path: Seq<usize>|
        #![trigger is_path(few, path)]
        path.len() > 0 && path[0] == a && path.last() == b && is_path(few, path);
    assert forall|i: int|
        #![trigger path[i]]
        0 <= i < path.len() - 1 implies many(path[i]).contains(path[i + 1]) by {
        assert(few(path[i]).contains(path[i + 1]));
    }
    assert(is_path(many, path));
}

/// What is left of an ascending list after an insertion and a cut to `ef`.
proof fn lemma_keep_nearest(w: Seq<Entry>, x: Entry, ef: nat)
    requires
        ascending(w),
        w.len() <= ef,
        w.len() == ef ==> w.len() > 0 && x.0 < w.last().0,
    ensures
        ({
            let r = at_most(insert_sorted(w, x), ef);
            &&& r.contains(x)
            &&& r.len() >= w.len()
            &&& r.len() >= 1
            &&& forall|e: Entry| #[trigger] r.contains(e) ==> e == x || w.contains(e)
            &&& w.len() < ef ==> forall|e: Entry| #[trigger] w.contains(e) ==> r.contains(e)
            &&& w.len() == ef ==> r.len() == ef && r.last().0 <= w.last().0 && forall|e: Entry|
                #[trigger]
                w.contains(e) ==> r.contains(e) || e.0 >= r.last().0
        }),
{
    let p = lemma_insert_sorted(w, x);
    let s = insert_sorted(w, x);
    let r = at_most(s, ef);
    assert(s[p] == x);
    if w.len() < ef {
        assert(r == s);
        assert(s.contains(x));
    } else {
        assert(!entry_le(w[w.len() - 1], x));
        assert(p < w.len());
        assert(r[p] == x);
        assert forall|e: Entry| #[trigger] r.contains(e) implies e == x || w.contains(e) by {
            let k = choose|k: int| 0 <= k < r.len() && r[k] == e;
            assert(s[k] == e);
            assert(s.contains(e));
        }
        assert forall|e: Entry| #[trigger] w.contains(e) implies r.contains(e) || e.0
            >= r.last().0 by {
            let k = choose|k: int| 0 <= k < w.len() && w[k] == e;
            let sk = if k < p { k } else { k + 1 };
            assert(s[sk] == e);
            if sk < ef {
                assert(r[sk] == e);
            } else {
                assert(r.last() == s[ef - 1]);
                assert(entry_le(s[ef - 1], s[sk]));
            }
        }
        assert(r.last() == s[ef - 1]);
        assert(s[ef as int] == w[w.len() - 1]);
        assert(entry_le(s[ef - 1], s[ef as int]));
    }
}

/// A visit keeps a search sound.
proof fn lemma_visit_sound(
    p: Probe,
    b: Beam,
    v: usize,
    n: nat,
    entry: usize,
    pending: Option<usize>,
)
    requires
        p.ef >= 1,
        sound(p, b, n, entry, pending),
        v < n,
        reaches(p.adj, entry, v),
        closed_in(p.adj, n),
    ensures
        sound(p, visit(p, b, v), n, entry, pending),
        visit(p, b, v).visited[v as int],
        forall|i: int| 0 <= i < n && b.visited[i] ==> #[trigger] visit(p, b, v).visited[i],
{
    let x: Entry = ((p.key)(v), v);
    let t = visit(p, b, v);
    lemma_visit(p, b, v, n);
    if !b.visited[v as int] {
        assert(!b.working.contains(x));
        assert(!b.frontier.contains(x));
        if admits(p, b, x.0) {
            lemma_keep_nearest(b.working, x, p.ef);
            let wp = lemma_insert_sorted(b.working, x);
            lemma_insert_sorted(b.frontier, x);
            assert(holds(p, t.working, v));
            assert forall|i: int, j: int| 0 <= i < j < t.working.len() implies t.working[i].1
                != t.working[j].1 by {
                let s = insert_sorted(b.working, x);
                assert(t.working[i] == s[i] && t.working[j] == s[j]);
                let oi = if i < wp { i } else { i - 1 };
                let oj = if j < wp { j } else { j - 1 };
                if i == wp {
                    assert(b.working.contains(b.working[oj]));
                } else if j == wp {
                    assert(b.working.contains(b.working[oi]));
                } else {
                    assert(b.working[oi].1 != b.working[oj].1);
                }
            }
            assert forall|u: usize| u < n && #[trigger] t.visited[u as int] implies settled(
                p,
                t,
                u,
            ) by {
                if u != v {
                    assert(b.visited[u as int]);
                    assert(settled(p, b, u));
                }
            }
        } else {
            assert(settled(p, t, v));
            assert forall|u: usize| u < n && #[trigger] t.visited[u as int] implies settled(
                p,
                t,
                u,
            ) by {
                if u != v {
                    assert(b.visited[u as int]);
                    assert(settled(p, b, u));
                }
            }
        }
        assert forall|u: usize| u < n && #[trigger] t.visited[u as int] implies reaches(
            p.adj,
            entry,
            u,
        ) by {
            if u != v {
                assert(b.visited[u as int]);
            }
        }
        assert forall|u: usize| u < n && #[trigger] holds(p, t.working, u) implies holds(
            p,
            t.frontier,
            u,
        ) || expanded(p, t, u) || pending == Some(u) by {
            if u != v {
                let e: Entry = ((p.key)(u), u);
                assert(t.working.contains(e));
                assert(b.working.contains(e));
                assert(holds(p, b.working, u));
                if holds(p, b.frontier, u) {
                    assert(b.frontier.contains(e));
                    assert(t.frontier.contains(e));
                } else if expanded(p, b, u) {
                    assert forall|j: int| 0 <= j < (p.adj)(u).len() implies t.visited[
                    #[trigger] (p.adj)(u)[j] as int] by {
                        assert(b.visited[(p.adj)(u)[j] as int]);
                        assert((p.adj)(u)[j] < n);
                    }
                }
            }
        }
    }
}

/// Looking at a list of nodes keeps a search sound, and all of them are then seen.
proof fn lemma_visit_all_sound(
    p: Probe,
    b: Beam,
    list: Seq<usize>,
    n: nat,
    entry: usize,
    pending: Option<usize>,
)
    requires
        p.ef >= 1,
        sound(p, b, n, entry, pending),
        closed_in(p.adj, n),
        forall|j: int|
            0 <= j < list.len() ==> (#[trigger] list[j]) < n && reaches(p.adj, entry, list[j]),
    ensures
        sound(p, visit_all(p, b, list), n, entry, pending),
        forall|j: int|
            0 <= j < list.len() ==> visit_all(p, b, list).visited[#[trigger] list[j] as int],
        forall|i: int| 0 <= i < n && b.visited[i] ==> #[trigger] visit_all(p, b, list).visited[i],
    decreases list.len(),
{
    if list.len() > 0 {
        let front = list.drop_last();
        assert forall|j: int| 0 <= j < front.len() implies (#[trigger] front[j]) < n && reaches(
            p.adj,
            entry,
            front[j],
        ) by {
            assert(front[j] == list[j]);
        }
        lemma_visit_all_sound(p, b, front, n, entry, pending);
        let c = visit_all(p, b, front);
        let last = list[list.len() - 1];
        assert(last < n && reaches(p.adj, entry, last));
        lemma_visit_sound(p, c, list.last(), n, entry, pending);
        assert forall|j: int| 0 <= j < list.len() implies visit_all(p, b, list).visited[
        #[trigger] list[j] as int] by {
            if j < front.len() {
                assert(front[j] == list[j]);
                assert(c.visited[front[j] as int]);
            }
        }
        assert forall|i: int| 0 <= i < n && b.visited[i] implies #[trigger] visit_all(
            p,
            b,
            list,
        ).visited[i] by {
            assert(c.visited[i]);
        }
    }
}

/// A step keeps a search sound.
proof fn lemma_step_sound(p: Probe, b: Beam, n: nat, entry: usize)
    requires
        p.ef >= 1,
        sound(p, b, n, entry, None),
        closed_in(p.adj, n),
        b.frontier.len() > 0,
    ensures
        sound(p, step(p, b), n, entry, None),
        expanded(p, step(p, b), b.frontier[0].1),
        forall|i: int| 0 <= i < n && b.visited[i] ==> #[trigger] step(p, b).visited[i],
{
    let head = b.frontier[0];
    let c = Beam { frontier: b.frontier.drop_first(), ..b };
    let pending = Some(head.1);
    assert(b.frontier.contains(head));
    lemma_step(p, b, n);
    assert(beam_ok(p, c, n)) by {
        assert forall|i: int, j: int| 0 <= i < j < c.frontier.len() implies entry_le(
            c.frontier[i],
            c.frontier[j],
        ) by {
            assert(entry_le(b.frontier[i + 1], b.frontier[j + 1]));
        }
        assert forall|i: int| 0 <= i < c.frontier.len() implies (
        #[trigger] c.frontier[i]).1 < n by {
            assert(c.frontier[i] == b.frontier[i + 1]);
        }
    }
    assert forall|e: Entry| #[trigger] c.frontier.contains(e) implies e.1 < n && e.0 == (p.key)(e.1)
        && c.visited[e.1 as int] by {
        let k = choose|k: int| 0 <= k < c.frontier.len() && c.frontier[k] == e;
        assert(b.frontier[k + 1] == e);
        assert(b.frontier.contains(e));
    }
    assert forall|v: usize| v < n && #[trigger] holds(p, c.working, v) implies holds(
        p,
        c.frontier,
        v,
    ) || expanded(p, c, v) || pending == Some(v) by {
        assert(holds(p, b.working, v));
        if holds(p, b.frontier, v) {
            let e: Entry = ((p.key)(v), v);
            let k = choose|k: int| 0 <= k < b.frontier.len() && b.frontier[k] == e;
            if k > 0 {
                assert(c.frontier[k - 1] == e);
                assert(c.frontier.contains(e));
            }
        } else {
            assert(expanded(p, b, v));
            assert(expanded(p, c, v));
        }
    }
    assert forall|v: usize| v < n && #[trigger] c.visited[v as int] implies settled(p, c, v) by {
        assert(b.visited[v as int]);
        assert(settled(p, b, v));
    }
    assert forall|v: usize| v < n && #[trigger] c.visited[v as int] implies reaches(
        p.adj,
        entry,
        v,
    ) by {
        assert(b.visited[v as int]);
    }
    assert(sound(p, c, n, entry, pending));
    let list = (p.adj)(head.1);
    assert forall|j: int| 0 <= j < list.len() implies (#[trigger] list[j]) < n && reaches(
        p.adj,
        entry,
        list[j],
    ) by {
        assert((p.adj)(head.1)[j] < n);
        assert(b.visited[head.1 as int]);
        assert(list.contains(list[j]));
        lemma_reach_step(p.adj, entry, head.1, list[j]);
    }
    lemma_visit_all_sound(p, c, list, n, entry, pending);
    let t = step(p, b);
    assert(expanded(p, t, head.1)) by {
        assert forall|j: int| 0 <= j < (p.adj)(head.1).len() implies t.visited[
        #[trigger] (p.adj)(head.1)[j] as int] by {
            assert(t.visited[list[j] as int]);
        }
    }
    assert forall|v: usize| v < n && #[trigger] holds(p, t.working, v) implies holds(
        p,
        t.frontier,
        v,
    ) || expanded(p, t, v) by {
        if pending == Some(v) {
            assert(expanded(p, t, v));
        }
    }
}

/// A run keeps a search sound and ends where nothing is left to do.
proof fn lemma_run_sound(p: Probe, b: Beam, n: nat, entry: usize)
    requires
        p.ef >= 1,
        sound(p, b, n, entry, None),
        closed_in(p.adj, n),
    ensures
        sound(p, run(p, b), n, entry, None),
        halted(p, run(p, b)),
        forall|i: int| 0 <= i < n && b.visited[i] ==> #[trigger] run(p, b).visited[i],
    decreases remaining(b),
{
    if !halted(p, b) {
        lemma_step(p, b, n);
        lemma_step_sound(p, b, n, entry);
        lemma_run_sound(p, step(p, b), n, entry);
        let r = run(p, b);
        assert forall|i: int| 0 <= i < n && b.visited[i] implies #[trigger] r.visited[i] by {
            assert(step(p, b).visited[i]);
        }
    }
}

/// The state in which a search begins is sound.
proof fn lemma_launch_sound(p: Probe, n: nat, entry: usize)
    requires
        p.ef >= 1,
        entry < n,
        p.start == (p.key)(entry),
    ensures
        sound(p, launch(p, n, entry), n, entry, None),
{
    let b = launch(p, n, entry);
    let x: Entry = ((p.key)(entry), entry);
    assert(b.working =~= seq![x]);
    lemma_reach_self(p.adj, entry);
    assert(b.working[0] == x);
    assert(b.frontier[0] == x);
    assert(holds(p, b.working, entry));
    assert forall|v: usize| v < n && #[trigger] b.visited[v as int] implies settled(p, b, v) by {
        assert(v == entry);
    }
    assert forall|v: usize| v < n && #[trigger] holds(p, b.working, v) implies holds(
        p,
        b.frontier,
        v,
    ) || expanded(p, b, v) by {
        assert(v == entry);
        assert(b.frontier.contains(x));
    }
    assert forall|v: usize| v < n && #[trigger] b.visited[v as int] implies reaches(
        p.adj,
        entry,
        v,
    ) by {
        assert(v == entry);
    }
}

/// The results of a search are at most `ef` different nodes of the graph, nearest first, each with
/// the key of its own distance and each reachable from the node where the search began. There is at
/// least one.
pub proof fn law_search_results(
    adj: spec_fn(usize) -> Seq<usize>,
    key: spec_fn(usize) -> u64,
    ef: nat,
    n: nat,
    entry: usize,
)
    requires
        ef >= 1,
        entry < n,
        closed_in(adj, n),
    ensures
        ({
            let w = search(adj, key, ef, n, entry);
            &&& 1 <= w.len() <= ef
            &&& ascending(w)
            &&& forall|i: int, j: int| 0 <= i < j < w.len() ==> w[i].1 != w[j].1
            &&& forall|i: int|
                0 <= i < w.len() ==> (#[trigger] w[i]).1 < n && w[i].0 == key(w[i].1) && reaches(
                    adj,
                    entry,
                    w[i].1,
                )
        }),
{
    let p = Probe { adj, key, ef, start: key(entry) };
    lemma_launch_sound(p, n, entry);
    lemma_run_sound(p, launch(p, n, entry), n, entry);
    let b = run(p, launch(p, n, entry));
    let w = b.working;
    assert forall|i: int| 0 <= i < w.len() implies (#[trigger] w[i]).1 < n && w[i].0 == key(w[i].1)
        && reaches(adj, entry, w[i].1) by {
        assert(b.working.contains(w[i]));
        assert(b.visited[w[i].1 as int]);
    }
}

/// The node where a search begins and its neighbours count: each is among the results, or the list
/// is full and it is no nearer than the furthest result.
pub proof fn law_neighbours_counted(
    adj: spec_fn(usize) -> Seq<usize>,
    key: spec_fn(usize) -> u64,
    ef: nat,
    n: nat,
    entry: usize,
    j: int,
)
    requires
        ef >= 1,
        entry < n,
        closed_in(adj, n),
        0 <= j < adj(entry).len(),
    ensures
        ({
            let w = search(adj, key, ef, n, entry);
            let v = adj(entry)[j];
            &&& w.contains((key(entry), entry)) || (w.len() == ef && key(entry) >= w.last().0)
            &&& w.contains((key(v), v)) || (w.len() == ef && key(v) >= w.last().0)
        }),
{
    let p = Probe { adj, key, ef, start: key(entry) };
    let b = launch(p, n, entry);
    let r = run(p, b);
    let v = adj(entry)[j];
    lemma_launch_sound(p, n, entry);
    lemma_run_sound(p, b, n, entry);
    let x: Entry = (key(entry), entry);
    assert(b.working =~= seq![x]);
    assert(b.frontier =~= seq![x]);
    assert(!halted(p, b));
    lemma_step(p, b, n);
    lemma_step_sound(p, b, n, entry);
    lemma_run_sound(p, step(p, b), n, entry);
    assert(r == run(p, step(p, b)));
    assert(v < n);
    assert(step(p, b).visited[(p.adj)(entry)[j] as int]);
    assert(r.visited[v as int]);
    assert(settled(p, r, v));
    assert(r.visited[entry as int]);
    assert(settled(p, r, entry));
}

/// No neighbour of a result, and not the starting node either, would improve the results: it is
/// among them, or the list is full and it is no nearer than the furthest result.
pub proof fn law_search_locally_optimal(
    adj: spec_fn(usize) -> Seq<usize>,
    key: spec_fn(usize) -> u64,
    ef: nat,
    n: nat,
    entry: usize,
)
    requires
        ef >= 1,
        entry < n,
        closed_in(adj, n),
    ensures
        ({
            let w = search(adj, key, ef, n, entry);
            &&& w.contains((key(entry), entry)) || (w.len() == ef && key(entry) >= w.last().0)
            &&& forall|i: int, j: int|
                0 <= i < w.len() && 0 <= j < adj(w[i].1).len() ==> {
                    let v = #[trigger] adj(w[i].1)[j];
                    w.contains((key(v), v)) || (w.len() == ef && key(v) >= w.last().0)
                }
        }),
{
    let p = Probe { adj, key, ef, start: key(entry) };
    lemma_launch_sound(p, n, entry);
    lemma_run_sound(p, launch(p, n, entry), n, entry);
    let b = run(p, launch(p, n, entry));
    let w = b.working;
    assert(b.visited[entry as int]);
    assert(settled(p, b, entry));
    assert forall|i: int, j: int| 0 <= i < w.len() && 0 <= j < adj(w[i].1).len() implies {
        let v = #[trigger] adj(w[i].1)[j];
        w.contains((key(v), v)) || (w.len() == ef && key(v) >= w.last().0)
    } by {
        lemma_result_expanded(p, b, n, entry, i);
        let v = adj(w[i].1)[j];
        assert(b.working.contains(w[i]));
        assert(v < n);
        assert(b.visited[(p.adj)(w[i].1)[j] as int]);
        assert(settled(p, b, v));
    }
}

/// When a search has come to its end, the neighbours of every result were seen.
proof fn lemma_result_expanded(p: Probe, b: Beam, n: nat, entry: usize, i: int)
    requires
        sound(p, b, n, entry, None),
        halted(p, b),
        0 <= i < b.working.len(),
    ensures
        expanded(p, b, b.working[i].1),
{
    let e = b.working[i];
    assert(b.working.contains(e));
    assert(holds(p, b.working, e.1));
    if holds(p, b.frontier, e.1) {
        let k = choose|k: int| 0 <= k < b.frontier.len() && b.frontier[k] == e;
        if k > 0 {
            assert(entry_le(b.frontier[0], b.frontier[k]));
        }
        if i < b.working.len() - 1 {
            assert(entry_le(b.working[i], b.working[b.working.len() - 1]));
        }
        assert(false);
    }
}

/// A search that comes back with fewer than `ef` results has found every node that can be reached.
pub proof fn law_search_exhaustive(
    adj: spec_fn(usize) -> Seq<usize>,
    key: spec_fn(usize) -> u64,
    ef: nat,
    n: nat,
    entry: usize,
    v: usize,
)
    requires
        entry < n,
        closed_in(adj, n),
        search(adj, key, ef, n, entry).len() < ef,
        reaches(adj, entry, v),
    ensures
        search(adj, key, ef, n, entry).contains((key(v), v)),
{
    let path = choose|path: Seq<usize>|
        #![trigger is_path(adj, path)]
        path.len() > 0 && path[0] == entry && path.last() == v && is_path(adj, path);
    lemma_path_found(adj, key, ef, n, entry, path, path.len() - 1);
}

/// Every node on a path from the starting node is found.
proof fn lemma_path_found(
    adj: spec_fn(usize) -> Seq<usize>,
    key: spec_fn(usize) -> u64,
    ef: nat,
    n: nat,
    entry: usize,
    path: Seq<usize>,
    i: int,
)
    requires
        entry < n,
        closed_in(adj, n),
        search(adj, key, ef, n, entry).len() < ef,
        0 <= i < path.len(),
        path[0] == entry,
        is_path(adj, path),
    ensures
        search(adj, key, ef, n, entry).contains((key(path[i]), path[i])),
    decreases i,
{
    law_search_locally_optimal(adj, key, ef, n, entry);
    if i > 0 {
        lemma_path_found(adj, key, ef, n, entry, path, i - 1);
        let w = search(adj, key, ef, n, entry);
        let u = path[i - 1];
        let k = choose|k: int| 0 <= k < w.len() && w[k] == (key(u), u);
        assert(adj(path[i - 1]).contains(path[i - 1 + 1]));
        let nbrs = adj(u);
        let v = path[i];
        let j = choose|j: int| 0 <= j < nbrs.len() && nbrs[j] == v;
        assert(adj(w[k].1)[j] == path[i]);
    }
}

/// The results stand nearest first, and there are at most `ef` of them; also where `ef` is zero.
pub proof fn lemma_search_bounded(
    adj: spec_fn(usize) -> Seq<usize>,
    key: spec_fn(usize) -> u64,
    ef: nat,
    n: nat,
    entry: usize,
)
    requires
        entry < n,
        closed_in(adj, n),
    ensures
        search(adj, key, ef, n, entry).len() <= ef,
        ascending(search(adj, key, ef, n, entry)),
{
    let p = Probe { adj, key, ef, start: key(entry) };
    let b = launch(p, n, entry);
    lemma_run_ok(p, b, n);
}

/// Every state of a run is in order.
proof fn lemma_run_ok(p: Probe, b: Beam, n: nat)
    requires
        beam_ok(p, b, n),
        closed_in(p.adj, n),
    ensures
        beam_ok(p, run(p, b), n),
    decreases remaining(b),
{
    if !halted(p, b) {
        lemma_step(p, b, n);
        lemma_run_ok(p, step(p, b), n);
    }
}

/// A path does not leave a set of nodes that no edge leaves.
pub proof fn lemma_reaches_within(
    adj: spec_fn(usize) -> Seq<usize>,
    a: usize,
    b: usize,
    within: spec_fn(usize) -> bool,
)
    requires
        reaches(adj, a, b),
        within(a),
        forall|v: usize, j: int|
            within(v) && 0 <= j < adj(v).len() ==> within(#[trigger] adj(v)[j]),
    ensures
        within(b),
{
    let path = choose|path: Seq<usize>|
        #![trigger is_path(adj, path)]
        path.len() > 0 && path[0] == a && path.last() == b && is_path(adj, path);
    lemma_path_within(adj, path, path.len() - 1, within);
}

/// Every node of a path lies in a set that no edge leaves and that the path begins in.
proof fn lemma_path_within(
    adj: spec_fn(usize) -> Seq<usize>,
    path: Seq<usize>,
    i: int,
    within: spec_fn(usize) -> bool,
)
    requires
        is_path(adj, path),
        0 <= i < path.len(),
        within(path[0]),
        forall|v: usize, j: int|
            within(v) && 0 <= j < adj(v).len() ==> within(#[trigger] adj(v)[j]),
    ensures
        within(path[i]),
    decreases i,
{
    if i > 0 {
        lemma_path_within(adj, path, i - 1, within);
        let nbrs = adj(path[i - 1]);
        let v = path[i];
        assert(adj(path[i - 1]).contains(path[i - 1 + 1]));
        let j = choose|j: int| 0 <= j < nbrs.len() && nbrs[j] == v;
        assert(within(adj(path[i - 1])[j]));
    }
}

/// A look at a node marks it and no other. A node that was seen before changes nothing. Where the
/// list has room, or the node is nearer than the furthest of the list, the node is put into the
/// list, which keeps the nearest, and onto those to look at; otherwise both stay.
pub proof fn law_visit(p: Probe, b: Beam, v: usize)
    requires
        v < b.visited.len(),
        ascending(b.working),
        ascending(b.frontier),
        0 < b.working.len() <= p.ef,
    ensures
        ({
            let after = visit(p, b, v);
            let e: Entry = ((p.key)(v), v);
            let near = b.working.len() < p.ef || (p.key)(v) < b.working.last().0;
            &&& b.visited[v as int] ==> after == b
            &&& after.visited.len() == b.visited.len()
            &&& forall|u: int|
                0 <= u < b.visited.len() ==> #[trigger] after.visited[u] == (b.visited[u] || u == v)
            &&& !b.visited[v as int] && !near ==> after.working == b.working && after.frontier
                == b.frontier
            &&& !b.visited[v as int] && near ==> {
                &&& after.frontier.to_multiset() == b.frontier.to_multiset().insert(e)
                &&& after.frontier.len() == b.frontier.len() + 1
                &&& after.working.contains(e)
                &&& b.working.len() < p.ef ==> after.working.len() == b.working.len() + 1
                &&& b.working.len() >= p.ef ==> after.working.len() == p.ef
                &&& forall|x: Entry|
                    b.working.contains(x) && !(#[trigger] after.working.contains(x)) ==> forall|
                        i: int,
                    |
                        0 <= i < after.working.len() ==> (#[trigger] after.working[i]).0 <= x.0
            }
        }),
{
    broadcast use vstd::seq_lib::group_to_multiset_ensures;

    let e: Entry = ((p.key)(v), v);
    let after = visit(p, b, v);
    let q = lemma_insert_sorted(b.frontier, e);
    let grown = b.frontier.insert(q, e);
    assert(grown.remove(q) =~= b.frontier);
    assert(grown[q] == e);
    assert(grown.contains(e));
    assert(grown.to_multiset() =~= b.frontier.to_multiset().insert(e));
    law_nearest_kept(b.working, e, p.ef);
    let near = b.working.len() < p.ef || (p.key)(v) < b.working.last().0;
    if !b.visited[v as int] && near {
        let kept = after.working;
        lemma_keep_nearest(b.working, e, p.ef);
        assert forall|x: Entry|
            b.working.contains(x) && !(#[trigger] kept.contains(x)) implies forall|i: int|
            0 <= i < kept.len() ==> (#[trigger] kept[i]).0 <= x.0 by {
            assert forall|i: int| 0 <= i < kept.len() implies (#[trigger] kept[i]).0 <= x.0 by {
                assert(!kept.contains(x) && (x == e || b.working.contains(x)));
            }
        }
    }
}

/// The nodes of a list are looked at one after the other.
pub proof fn law_visit_in_turn(p: Probe, b: Beam, list: Seq<usize>, v: usize)
    ensures
        visit_all(p, b, Seq::<usize>::empty()) == b,
        visit_all(p, b, list.push(v)) == visit(p, visit_all(p, b, list), v),
{
    assert(list.push(v).drop_last() =~= list);
}

/// A search goes on with the nearest node that is still to be looked at: that node is taken off,
/// and its neighbours are looked at.
pub proof fn law_nearest_next(p: Probe, b: Beam) -> (at: int)
    requires
        ascending(b.frontier),
        b.frontier.len() > 0,
    ensures
        0 <= at < b.frontier.len(),
        forall|i: int|
            0 <= i < b.frontier.len() ==> b.frontier[at].0 < (#[trigger] b.frontier[i]).0 || (
            b.frontier[at].0 == b.frontier[i].0 && b.frontier[at].1 <= b.frontier[i].1),
        step(p, b) == visit_all(
            p,
            (Beam { frontier: b.frontier.remove(at), visited: b.visited, working: b.working }),
            (p.adj)(b.frontier[at].1),
        ),
{
    assert(b.frontier.remove(0) =~= b.frontier.drop_first());
    assert forall|i: int| 0 <= i < b.frontier.len() implies b.frontier[0].0 < (
    #[trigger] b.frontier[i]).0 || (b.frontier[0].0 == b.frontier[i].0 && b.frontier[0].1
        <= b.frontier[i].1) by {
        if i > 0 {
            assert(entry_le(b.frontier[0], b.frontier[i]));
        }
    }
    0
}

/// A search is over when nothing is left to look at, or when the list is full and the nearest that
/// is left is farther than the furthest of the list, and not before.
pub proof fn law_search_over(p: Probe, b: Beam)
    requires
        b.working.len() > 0,
    ensures
        b.frontier.len() == 0 ==> halted(p, b),
        b.working.len() < p.ef && b.frontier.len() > 0 ==> !halted(p, b),
        b.working.len() >= p.ef && b.frontier.len() > 0 ==> (halted(p, b) <==> b.frontier[0].0
            > b.working.last().0),
{
}

/// A search begins with the node that it is given: only that one is seen, listed and to be looked
/// at.
pub proof fn law_search_begins(p: Probe, n: nat, entry: usize)
    requires
        entry < n,
        p.ef > 0,
    ensures
        ({
            let b = launch(p, n, entry);
            &&& b.visited.len() == n
            &&& forall|u: int| 0 <= u < n ==> #[trigger] b.visited[u] == (u == entry)
            &&& b.frontier.len() == 1
            &&& b.frontier[0] == ((p.key)(entry), entry)
            &&& b.working.len() == 1
            &&& b.working[0] == ((p.key)(entry), entry)
        }),
{
}

} // verus!
