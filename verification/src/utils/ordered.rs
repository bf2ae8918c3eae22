//! Ordered candidate lists.
//!
//! A candidate is a pair `(key, id)`: the rank of its distance and the vector it belongs to.
//! Candidates are ordered by key, and by id where keys agree.
use vstd::prelude::*;

verus! {

/// A candidate: the order key of a distance, and the id of the vector.
pub type Entry = (u64, usize);

/// `a` comes before `b`, or is `b`.
pub open spec fn entry_le(a: Entry, b: Entry) -> bool {
    a.0 < b.0 || (a.0 == b.0 && a.1 <= b.1)
}

/// Every candidate comes after the ones in front of it.
pub open spec fn ascending(s: Seq<Entry>) -> bool {
    forall|i: int, j: int| 0 <= i < j < s.len() ==> entry_le(s[i], s[j])
}

/// `s` with `x` put behind every candidate that does not come after it.
pub open spec fn insert_sorted(s: Seq<Entry>, x: Entry) -> Seq<Entry>
    decreases s.len(),
{
    if s.len() == 0 || entry_le(s.last(), x) {
        s.push(x)
    } else {
        insert_sorted(s.drop_last(), x).push(s.last())
    }
}

/// The candidates of `s`, nearest first.
pub open spec fn sort_entries(s: Seq<Entry>) -> Seq<Entry>
    decreases s.len(),
{
    if s.len() == 0 {
        s
    } else {
        insert_sorted(sort_entries(s.drop_last()), s.last())
    }
}

/// The first `limit` elements of `s`, or all of them where there are fewer.
pub open spec fn at_most<A>(s: Seq<A>, limit: nat) -> Seq<A> {
    if s.len() <= limit {
        s
    } else {
        s.take(limit as int)
    }
}

/// Where an insertion lands: behind the candidates that come before it, in front of the rest.
pub proof fn lemma_insert_position(s: Seq<Entry>, x: Entry, p: int)
    requires
        0 <= p <= s.len(),
        forall|i: int| 0 <= i < p ==> entry_le(#[trigger] s[i], x),
        forall|i: int| p <= i < s.len() ==> !entry_le(#[trigger] s[i], x),
    ensures
        insert_sorted(s, x) =~= s.insert(p, x),
    decreases s.len(),
{
    if p < s.len() {
        assert(!entry_le(s[s.len() - 1], x));
        let t = s.drop_last();
        assert forall|i: int| 0 <= i < p implies entry_le(#[trigger] t[i], x) by {
            assert(t[i] == s[i]);
        }
        assert forall|i: int| p <= i < t.len() implies !entry_le(#[trigger] t[i], x) by {
            assert(t[i] == s[i]);
        }
        lemma_insert_position(t, x, p);
        assert(t.insert(p, x).push(s.last()) =~= s.insert(p, x));
    } else {
        if s.len() > 0 {
            assert(entry_le(s[s.len() - 1], x));
        }
        assert(s.push(x) =~= s.insert(p, x));
    }
}

/// An insertion into an ascending list keeps it ascending and adds exactly the new candidate.
pub proof fn lemma_insert_sorted(s: Seq<Entry>, x: Entry) -> (p: int)
    requires
        ascending(s),
    ensures
        0 <= p <= s.len(),
        insert_sorted(s, x) == s.insert(p, x),
        ascending(insert_sorted(s, x)),
        insert_sorted(s, x).len() == s.len() + 1,
        forall|i: int| 0 <= i < p ==> entry_le(#[trigger] s[i], x),
        forall|i: int| p <= i < s.len() ==> !entry_le(#[trigger] s[i], x),
        forall|e: Entry| #[trigger]
            insert_sorted(s, x).contains(e) <==> e == x || s.contains(e),
    decreases s.len(),
{
    let p: int = if s.len() == 0 || entry_le(s.last(), x) {
        s.len() as int
    } else {
        let t = s.drop_last();
        assert(ascending(t)) by {
            assert forall|i: int, j: int| 0 <= i < j < t.len() implies entry_le(t[i], t[j]) by {
                assert(t[i] == s[i] && t[j] == s[j]);
            }
        }
        lemma_insert_sorted(t, x)
    };
    assert forall|i: int| 0 <= i < p implies entry_le(#[trigger] s[i], x) by {
        if s.len() > 0 && entry_le(s.last(), x) {
            assert(entry_le(s[i], s.last()));
        } else {
            assert(s.drop_last()[i] == s[i]);
        }
    }
    assert forall|i: int| p <= i < s.len() implies !entry_le(#[trigger] s[i], x) by {
        if i < s.len() - 1 {
            assert(s.drop_last()[i] == s[i]);
        }
    }
    lemma_insert_position(s, x, p);
    let r = s.insert(p, x);
    assert forall|i: int, j: int| 0 <= i < j < r.len() implies entry_le(r[i], r[j]) by {
        let oi = if i < p { i } else { i - 1 };
        let oj = if j < p { j } else { j - 1 };
        if i == p {
            assert(!entry_le(s[oj], x));
        } else if j == p {
            assert(entry_le(s[oi], x));
        } else {
            assert(entry_le(s[oi], s[oj]));
        }
    }
    assert forall|e: Entry| #[trigger] r.contains(e) <==> e == x || s.contains(e) by {
        if s.contains(e) {
            let k = choose|k: int| 0 <= k < s.len() && s[k] == e;
            let rk = if k < p { k } else { k + 1 };
            assert(r[rk] == e);
        }
        if e == x {
            assert(r[p] == e);
        }
        if r.contains(e) {
            let k = choose|k: int| 0 <= k < r.len() && r[k] == e;
            if k < p {
                assert(s[k] == e);
            } else if k > p {
                assert(s[k - 1] == e);
            }
        }
    }
    p
}

/// Sorting keeps the candidates and puts them in order.
pub proof fn lemma_sort_entries(s: Seq<Entry>)
    ensures
        ascending(sort_entries(s)),
        sort_entries(s).len() == s.len(),
        forall|e: Entry| #[trigger] sort_entries(s).contains(e) <==> s.contains(e),
    decreases s.len(),
{
    if s.len() > 0 {
        let t = s.drop_last();
        lemma_sort_entries(t);
        lemma_insert_sorted(sort_entries(t), s.last());
        assert forall|e: Entry| #[trigger] sort_entries(s).contains(e) <==> s.contains(e) by {
            if s.contains(e) && e != s.last() {
                let k = choose|k: int| 0 <= k < s.len() && s[k] == e;
                assert(t[k] == e);
            }
            if t.contains(e) {
                let k = choose|k: int| 0 <= k < t.len() && t[k] == e;
                assert(s[k] == e);
            }
            assert(s[s.len() - 1] == s.last());
        }
    }
}

/// No two candidates have the same id.
pub open spec fn distinct_ids(s: Seq<Entry>) -> bool {
    forall|i: int, j: int| 0 <= i < j < s.len() ==> s[i].1 != s[j].1
}

/// Sorting keeps ids distinct.
pub proof fn lemma_sort_distinct(s: Seq<Entry>)
    requires
        distinct_ids(s),
    ensures
        distinct_ids(sort_entries(s)),
    decreases s.len(),
{
    if s.len() > 0 {
        let t = s.drop_last();
        let x = s.last();
        assert forall|i: int, j: int| 0 <= i < j < t.len() implies t[i].1 != t[j].1 by {
            assert(t[i] == s[i] && t[j] == s[j]);
        }
        lemma_sort_distinct(t);
        lemma_sort_entries(t);
        let u = sort_entries(t);
        let p = lemma_insert_sorted(u, x);
        let r = sort_entries(s);
        assert forall|i: int| 0 <= i < u.len() implies (#[trigger] u[i]).1 != x.1 by {
            assert(u.contains(u[i]));
            let k = choose|k: int| 0 <= k < t.len() && t[k] == u[i];
            assert(s[k] == u[i]);
            assert(s[s.len() - 1] == x);
        }
        assert forall|i: int, j: int| 0 <= i < j < r.len() implies r[i].1 != r[j].1 by {
            let oi = if i < p { i } else { i - 1 };
            let oj = if j < p { j } else { j - 1 };
            if i == p {
                assert(u[oj].1 != x.1);
            } else if j == p {
                assert(u[oi].1 != x.1);
            } else {
                assert(u[oi].1 != u[oj].1);
            }
        }
    }
}

/// Sorting leaves a list alone that is sorted.
pub proof fn lemma_sort_sorted(s: Seq<Entry>)
    requires
        ascending(s),
    ensures
        sort_entries(s) == s,
    decreases s.len(),
{
    if s.len() > 0 {
        let t = s.drop_last();
        assert forall|i: int, j: int| 0 <= i < j < t.len() implies entry_le(t[i], t[j]) by {
            assert(t[i] == s[i] && t[j] == s[j]);
        }
        lemma_sort_sorted(t);
        if t.len() > 0 {
            assert(entry_le(s[t.len() - 1], s[s.len() - 1]));
        }
        assert(t.push(s.last()) =~= s);
    }
}

/// Sorting gives back the same candidates, each as often as it was there, by key and where keys
/// agree by id.
pub proof fn law_sorted(s: Seq<Entry>)
    ensures
        sort_entries(s).to_multiset() == s.to_multiset(),
        sort_entries(s).len() == s.len(),
        forall|i: int, j: int|
            0 <= i < j < s.len() ==> {
                let (a, b) = (#[trigger] sort_entries(s)[i], #[trigger] sort_entries(s)[j]);
                a.0 < b.0 || (a.0 == b.0 && a.1 <= b.1)
            },
    decreases s.len(),
{
    broadcast use vstd::seq_lib::group_to_multiset_ensures;

    lemma_sort_entries(s);
    let r = sort_entries(s);
    assert forall|i: int, j: int| 0 <= i < j < s.len() implies {
        let (a, b) = (#[trigger] r[i], #[trigger] r[j]);
        a.0 < b.0 || (a.0 == b.0 && a.1 <= b.1)
    } by {
        assert(entry_le(r[i], r[j]));
    }
    if s.len() > 0 {
        let t = s.drop_last();
        law_sorted(t);
        lemma_sort_entries(t);
        let p = lemma_insert_sorted(sort_entries(t), s.last());
        let u = sort_entries(t);
        assert(r.remove(p) =~= u);
        assert(r[p] == s.last());
        assert(r.contains(s.last()));
        assert(r.to_multiset() =~= u.to_multiset().insert(s.last()));
        assert(s =~= t.push(s.last()));
    }
}

/// A list of limited length that takes in a candidate keeps the nearest: what is kept stands in
/// order and was there before or is the candidate, the list is full unless everything is kept, and
/// what is not kept comes behind all that is.
pub proof fn law_nearest_kept(s: Seq<Entry>, x: Entry, limit: nat)
    requires
        ascending(s),
    ensures
        ({
            let kept = at_most(insert_sorted(s, x), limit);
            &&& kept.len() == if s.len() < limit {
                s.len() + 1
            } else {
                limit
            }
            &&& forall|i: int, j: int|
                0 <= i < j < kept.len() ==> {
                    let (a, b) = (#[trigger] kept[i], #[trigger] kept[j]);
                    a.0 < b.0 || (a.0 == b.0 && a.1 <= b.1)
                }
            &&& forall|i: int|
                0 <= i < kept.len() ==> #[trigger] kept[i] == x || s.contains(kept[i])
            &&& forall|e: Entry, i: int|
                #![trigger kept.contains(e), kept[i]]
                (e == x || s.contains(e)) && !kept.contains(e) && 0 <= i < kept.len() ==> kept[i].0
                    < e.0 || (kept[i].0 == e.0 && kept[i].1 <= e.1)
        }),
{
    let all = insert_sorted(s, x);
    let kept = at_most(all, limit);
    lemma_insert_sorted(s, x);
    assert forall|i: int, j: int| 0 <= i < j < kept.len() implies {
        let (a, b) = (#[trigger] kept[i], #[trigger] kept[j]);
        a.0 < b.0 || (a.0 == b.0 && a.1 <= b.1)
    } by {
        assert(kept[i] == all[i] && kept[j] == all[j]);
        assert(entry_le(all[i], all[j]));
    }
    assert forall|i: int| 0 <= i < kept.len() implies #[trigger] kept[i] == x || s.contains(
        kept[i],
    ) by {
        assert(kept[i] == all[i]);
        assert(all.contains(all[i]));
    }
    assert forall|e: Entry, i: int|
        #![trigger kept.contains(e), kept[i]]
        (e == x || s.contains(e)) && !kept.contains(e) && 0 <= i < kept.len() implies kept[i].0
        < e.0 || (kept[i].0 == e.0 && kept[i].1 <= e.1) by {
        assert(all.contains(e));
        let k = choose|k: int| 0 <= k < all.len() && all[k] == e;
        if k < kept.len() {
            assert(kept[k] == e);
        }
        assert(kept[i] == all[i]);
        assert(entry_le(all[i], all[k]));
    }
}

/// Whether `a` comes before `b` or is `b`.
pub fn precedes(a: Entry, b: Entry) -> (r: bool)
    ensures
        r == entry_le(a, b),
        r == (a.0 < b.0 || (a.0 == b.0 && a.1 <= b.1)),
{
    a.0 < b.0 || (a.0 == b.0 && a.1 <= b.1)
}

/// Put `x` into the ascending list `v`.
pub fn insert_into(v: &mut Vec<Entry>, x: Entry)
    requires
        ascending(old(v)@),
    ensures
        final(v)@ == insert_sorted(old(v)@, x),
{
    let mut lo: usize = 0;
    let mut hi: usize = v.len();
    while lo < hi
        invariant
            lo <= hi <= v.len(),
            ascending(v@),
            v@ == old(v)@,
            forall|i: int| 0 <= i < lo ==> entry_le(#[trigger] v@[i], x),
            forall|i: int| hi <= i < v@.len() ==> !entry_le(#[trigger] v@[i], x),
        decreases hi - lo,
    {
        let mid: usize = lo + (hi - lo) / 2;
        if precedes(v[mid], x) {
            assert forall|i: int| 0 <= i < mid + 1 implies entry_le(#[trigger] v@[i], x) by {
                if i < mid {
                    assert(entry_le(v@[i], v@[mid as int]));
                }
            }
            lo = mid + 1;
        } else {
            assert forall|i: int| mid <= i < v@.len() implies !entry_le(#[trigger] v@[i], x) by {
                if i > mid {
                    assert(entry_le(v@[mid as int], v@[i]));
                }
            }
            hi = mid;
        }
    }
    proof {
        lemma_insert_position(v@, x, lo as int);
    }
    v.insert(lo, x);
}

/// The candidates of `s`, nearest first.
pub fn sort(s: &[Entry]) -> (r: Vec<Entry>)
    ensures
        r@ == sort_entries(s@),
{
    let mut r: Vec<Entry> = Vec::new();
    let mut i: usize = 0;
    assert(s@.take(0) =~= Seq::<Entry>::empty());
    while i < s.len()
        invariant
            i <= s.len(),
            r@ == sort_entries(s@.take(i as int)),
        decreases s.len() - i,
    {
        proof {
            lemma_sort_entries(s@.take(i as int));
            assert(s@.take(i + 1).drop_last() =~= s@.take(i as int));
            assert(s@.take(i + 1).last() == s@[i as int]);
        }
        insert_into(&mut r, s[i]);
        i += 1;
    }
    assert(s@.take(i as int) =~= s@);
    r
}

/// A list of the nearest candidates seen so far, nearest first.
pub struct SortedBuffer {
    data: Vec<Entry>,
}

impl View for SortedBuffer {
    type V = Seq<Entry>;

    closed spec fn view(&self) -> Seq<Entry> {
        self.data@
    }
}

impl Default for SortedBuffer {
    fn default() -> (r: Self)
        ensures
            r@ == Seq::<Entry>::empty(),
    {
        SortedBuffer::new()
    }
}

impl SortedBuffer {
    /// The candidates stand in order.
    pub open spec fn wf(&self) -> bool {
        ascending(self@)
    }

    /// An empty buffer.
    pub fn new() -> (r: Self)
        ensures
            r@ == Seq::<Entry>::empty(),
            r.wf(),
    {
        SortedBuffer { data: Vec::new() }
    }

    /// Forget all candidates.
    pub fn clear(&mut self)
        ensures
            final(self)@ == Seq::<Entry>::empty(),
            final(self).wf(),
    {
        self.data.clear();
    }

    /// How many candidates are held.
    pub fn len(&self) -> (r: usize)
        ensures
            r == self@.len(),
    {
        self.data.len()
    }

    /// The furthest candidate held.
    pub fn top(&self) -> (r: Option<Entry>)
        ensures
            self@.len() == 0 <==> r is None,
            r matches Some(e) ==> e == self@.last(),
    {
        if self.data.len() == 0 {
            None
        } else {
            Some(self.data[self.data.len() - 1])
        }
    }

    /// Offer a candidate to a buffer of `limit` places.
    ///
    /// The buffer ends up with the `limit` nearest of what it held and the newcomer. The result
    /// says whether the newcomer is among them.
    pub fn insert(&mut self, item: Entry, limit: usize) -> (r: bool)
        requires
            old(self).wf(),
            old(self)@.len() <= limit,
        ensures
            final(self).wf(),
            final(self)@ == at_most(insert_sorted(old(self)@, item), limit as nat),
            r == (old(self)@.len() < limit || (limit > 0 && !entry_le(old(self)@.last(), item))),
    {
        proof {
            lemma_insert_sorted(old(self)@, item);
        }
        let len: usize = self.data.len();
        if len < limit {
            insert_into(&mut self.data, item);
            return true;
        }
        if limit == 0 || precedes(self.data[len - 1], item) {
            assert(at_most(insert_sorted(old(self)@, item), limit as nat) =~= old(self)@);
            return false;
        }
        insert_into(&mut self.data, item);
        self.data.truncate(limit);
        true
    }

    /// The candidates, nearest first.
    pub fn data(&self) -> (r: &[Entry])
        ensures
            r@ == self@,
    {
        self.data.as_slice()
    }
}

/// A queue of candidates that gives out the nearest first.
pub struct MinQueue {
    /// Furthest first, so that the nearest is at the end.
    items: Vec<Entry>,
}

impl View for MinQueue {
    type V = Seq<Entry>;

    closed spec fn view(&self) -> Seq<Entry> {
        self.items@.reverse()
    }
}

impl MinQueue {
    /// The candidates stand in order.
    pub open spec fn wf(&self) -> bool {
        ascending(self@)
    }

    /// An empty queue.
    pub fn new() -> (r: Self)
        ensures
            r@ == Seq::<Entry>::empty(),
            r.wf(),
    {
        let r = MinQueue { items: Vec::new() };
        assert(r@ =~= Seq::<Entry>::empty());
        r
    }

    /// Forget all candidates.
    pub fn clear(&mut self)
        ensures
            final(self)@ == Seq::<Entry>::empty(),
            final(self).wf(),
    {
        self.items.clear();
        assert(self@ =~= Seq::<Entry>::empty());
    }

    /// Take the nearest candidate out.
    pub fn pop(&mut self) -> (r: Option<Entry>)
        requires
            old(self).wf(),
        ensures
            final(self).wf(),
            old(self)@.len() == 0 <==> r is None,
            r is None ==> final(self)@ == old(self)@,
            r matches Some(e) ==> e == old(self)@[0] && final(self)@ == old(self)@.drop_first(),
    {
        let ghost before = self@;
        let r = self.items.pop();
        if r.is_some() {
            assert(self@ =~= before.drop_first());
            assert forall|i: int, j: int| 0 <= i < j < self@.len() implies entry_le(
                self@[i],
                self@[j],
            ) by {
                assert(entry_le(before[i + 1], before[j + 1]));
            }
        }
        r
    }

    /// Put a candidate in.
    pub fn push(&mut self, x: Entry)
        requires
            old(self).wf(),
        ensures
            final(self).wf(),
            final(self)@ == insert_sorted(old(self)@, x),
    {
        let ghost before = self@;
        let ghost n: int = before.len() as int;
        let mut lo: usize = 0;
        let mut hi: usize = self.items.len();
        assert forall|i: int| 0 <= i < n implies #[trigger] self.items@[i] == before[n - 1 - i] by {}
        while lo < hi
            invariant
                lo <= hi <= self.items.len(),
                self.items@.len() == n,
                before == self@,
                n == before.len(),
                ascending(before),
                forall|i: int| 0 <= i < n ==> #[trigger] self.items@[i] == before[n - 1 - i],
                forall|i: int| 0 <= i < lo ==> !entry_le(#[trigger] self.items@[i], x),
                forall|i: int| hi <= i < n ==> entry_le(#[trigger] self.items@[i], x),
            decreases hi - lo,
        {
            let mid: usize = lo + (hi - lo) / 2;
            if precedes(self.items[mid], x) {
                assert forall|i: int| mid <= i < n implies entry_le(
                    #[trigger] self.items@[i],
                    x,
                ) by {
                    if i > mid {
                        assert(entry_le(before[n - 1 - i], before[n - 1 - mid]));
                    }
                }
                hi = mid;
            } else {
                assert forall|i: int| 0 <= i < mid + 1 implies !entry_le(
                    #[trigger] self.items@[i],
                    x,
                ) by {
                    if i < mid {
                        assert(entry_le(before[n - 1 - mid], before[n - 1 - i]));
                    }
                }
                lo = mid + 1;
            }
        }
        proof {
            let p: int = n - lo;
            assert forall|i: int| 0 <= i < p implies entry_le(#[trigger] before[i], x) by {
                assert(self.items@[n - 1 - i] == before[i]);
            }
            assert forall|i: int| p <= i < n implies !entry_le(#[trigger] before[i], x) by {
                assert(self.items@[n - 1 - i] == before[i]);
            }
            lemma_insert_position(before, x, p);
            lemma_insert_sorted(before, x);
        }
        self.items.insert(lo, x);
        assert(self@ =~= before.insert(n - lo, x));
    }
}

} // verus!
