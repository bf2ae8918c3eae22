//! Vectors grouped by cluster.
//!
//! The vectors of a cluster stand side by side, the clusters one behind the other, and within a
//! cluster vectors keep their order.
use crate::utils::dist::Dist;
use crate::utils::float::{plain_norm, sequential_norm, Real};
use crate::utils::matrix::{flat_row, lemma_row_bounds};
use vstd::prelude::*;
use vstd::slice::slice_subrange;

verus! {

/// How many vectors belong to clusters below `c`.
pub open spec fn n_below(a: Seq<usize>, c: int) -> nat
    decreases a.len(),
{
    if a.len() == 0 {
        0
    } else {
        n_below(a.drop_last(), c) + if a.last() < c {
            1nat
        } else {
            0nat
        }
    }
}

/// How many vectors belong to cluster `c`.
pub open spec fn n_equal(a: Seq<usize>, c: int) -> nat
    decreases a.len(),
{
    if a.len() == 0 {
        0
    } else {
        n_equal(a.drop_last(), c) + if a.last() == c {
            1nat
        } else {
            0nat
        }
    }
}

/// The place of vector `i`: behind the vectors of lower clusters and the earlier ones of its own.
pub open spec fn place(a: Seq<usize>, i: int) -> int {
    (n_below(a, a[i] as int) + n_equal(a.take(i), a[i] as int)) as int
}

/// The cluster ranges: entry `c` is where cluster `c` begins.
pub open spec fn offsets_of(a: Seq<usize>, nlist: nat) -> Seq<usize> {
    Seq::new(nlist + 1, |c: int| n_below(a, c) as usize)
}

/// `indices` lists the vectors by place.
pub open spec fn ordered_by_place(a: Seq<usize>, indices: Seq<usize>) -> bool {
    &&& indices.len() == a.len()
    &&& forall|i: int|
        #![trigger place(a, i)]
        0 <= i < a.len() ==> 0 <= place(a, i) < a.len() && indices[place(a, i)] == i
    &&& forall|pos: int|
        0 <= pos < a.len() ==> (#[trigger] indices[pos]) < a.len() && place(
            a,
            indices[pos] as int,
        ) == pos
}

/// Counts are consistent with each other.
pub proof fn lemma_counts(a: Seq<usize>, c: int)
    ensures
        n_below(a, c) + n_equal(a, c) == n_below(a, c + 1),
        n_below(a, c + 1) <= a.len(),
        c <= 0 ==> n_below(a, c) == 0,
    decreases a.len(),
{
    if a.len() > 0 {
        lemma_counts(a.drop_last(), c);
    }
}

/// Higher clusters have more vectors below them.
pub proof fn lemma_below_monotone(a: Seq<usize>, c: int, d: int)
    requires
        c <= d,
    ensures
        n_below(a, c) <= n_below(a, d),
    decreases a.len(),
{
    if a.len() > 0 {
        lemma_below_monotone(a.drop_last(), c, d);
    }
}

/// Where all clusters are below a bound, all vectors are.
pub proof fn lemma_below_all(a: Seq<usize>, c: int)
    requires
        forall|i: int| 0 <= i < a.len() ==> (#[trigger] a[i]) < c,
    ensures
        n_below(a, c) == a.len(),
    decreases a.len(),
{
    if a.len() > 0 {
        let t = a.drop_last();
        assert forall|i: int| 0 <= i < t.len() implies (#[trigger] t[i]) < c by {
            assert(t[i] == a[i]);
        }
        lemma_below_all(t, c);
        assert(a[a.len() - 1] < c);
    }
}

/// A longer prefix holds at least as many vectors of a cluster, and more where it holds one more.
pub proof fn lemma_equal_prefix(a: Seq<usize>, c: int, i: int, j: int)
    requires
        0 <= i <= j <= a.len(),
    ensures
        n_equal(a.take(i), c) <= n_equal(a.take(j), c),
        i < j && a[i] == c ==> n_equal(a.take(i), c) < n_equal(a.take(j), c),
    decreases j - i,
{
    if i < j {
        lemma_equal_prefix(a, c, i + 1, j);
        assert(a.take(i + 1).drop_last() =~= a.take(i));
        assert(a.take(i + 1).last() == a[i]);
    }
}

/// A vector stands within the range of its cluster.
pub proof fn lemma_place(a: Seq<usize>, i: int)
    requires
        0 <= i < a.len(),
    ensures
        n_below(a, a[i] as int) <= place(a, i) < n_below(a, a[i] + 1) <= a.len(),
{
    let c = a[i] as int;
    lemma_counts(a, c);
    lemma_equal_prefix(a, c, i, a.len() as int);
    assert(a.take(a.len() as int) =~= a);
}

/// Vectors stand in the order of their clusters, and in their own order within a cluster.
pub proof fn law_place_order(a: Seq<usize>, i: int, j: int)
    requires
        0 <= i < a.len(),
        0 <= j < a.len(),
    ensures
        place(a, i) < place(a, j) <==> a[i] < a[j] || (a[i] == a[j] && i < j),
{
    lemma_place(a, i);
    lemma_place(a, j);
    if a[i] < a[j] {
        lemma_below_monotone(a, a[i] + 1, a[j] as int);
    } else if a[j] < a[i] {
        lemma_below_monotone(a, a[j] + 1, a[i] as int);
    } else if i < j {
        lemma_equal_prefix(a, a[i] as int, i, j);
    } else if j < i {
        lemma_equal_prefix(a, a[i] as int, j, i);
    }
}

/// What stands in the range of a cluster belongs to the cluster, and the other way round. Every
/// vector stands at one place.
pub proof fn law_partition(a: Seq<usize>, indices: Seq<usize>, nlist: nat, pos: int, c: int)
    requires
        ordered_by_place(a, indices),
        forall|i: int| 0 <= i < a.len() ==> (#[trigger] a[i]) < nlist,
        0 <= c < nlist,
        0 <= pos < a.len(),
    ensures
        n_below(a, c) <= pos < n_below(a, c + 1) <==> a[indices[pos] as int] == c,
        indices.no_duplicates(),
{
    let i = indices[pos] as int;
    assert(place(a, i) == pos);
    lemma_place(a, i);
    if a[i] < c {
        lemma_below_monotone(a, a[i] + 1, c);
    } else if a[i] > c {
        lemma_below_monotone(a, c + 1, a[i] as int);
    }
    assert forall|p: int, q: int|
        0 <= p < indices.len() && 0 <= q < indices.len() && p != q implies indices[p]
        != indices[q] by {
        assert(place(a, indices[p] as int) == p);
        assert(place(a, indices[q] as int) == q);
    }
}

/// The cluster whose range holds a place.
proof fn lemma_cluster_at(a: Seq<usize>, pos: int, c: int) -> (r: int)
    requires
        0 <= pos < n_below(a, c),
        c >= 0,
    ensures
        0 <= r < c,
        n_below(a, r) <= pos < n_below(a, r + 1),
    decreases c,
{
    lemma_counts(a, 0);
    if c > 0 && pos < n_below(a, c - 1) {
        lemma_cluster_at(a, pos, c - 1)
    } else {
        c - 1
    }
}

/// Where the clusters begin.
pub fn cluster_starts(assignments: &[usize], nlist: usize) -> (r: Vec<usize>)
    requires
        nlist < usize::MAX,
        forall|i: int| 0 <= i < assignments@.len() ==> (#[trigger] assignments@[i]) < nlist,
    ensures
        r@ == offsets_of(assignments@, nlist as nat),
{
    let ghost a = assignments@;
    let mut counts: Vec<usize> = vec![0;nlist];
    let mut i: usize = 0;
    assert(a.take(0) =~= Seq::<usize>::empty());
    while i < assignments.len()
        invariant
            i <= a.len(),
            a == assignments@,
            counts@.len() == nlist,
            forall|k: int| 0 <= k < a.len() ==> (#[trigger] a[k]) < nlist,
            forall|c: int| 0 <= c < nlist ==> #[trigger] counts@[c] == n_equal(a.take(i as int), c),
            forall|c: int| 0 <= c < nlist ==> (#[trigger] counts@[c]) <= i,
        decreases assignments.len() - i,
    {
        let cluster: usize = assignments[i];
        assert(a[i as int] < nlist);
        proof {
            assert(a.take(i + 1).drop_last() =~= a.take(i as int));
            assert(a.take(i + 1).last() == cluster);
        }
        let count: usize = counts[cluster];
        counts.set(cluster, count + 1);
        i += 1;
    }
    assert(a.take(i as int) =~= a);
    let len: usize = assignments.len();
    let mut offsets: Vec<usize> = Vec::new();
    offsets.push(0);
    proof {
        lemma_counts(a, 0);
        assert(offsets@ =~= offsets_of(a, nlist as nat).take(1));
    }
    let mut c: usize = 0;
    while c < nlist
        invariant
            c <= nlist,
            nlist < usize::MAX,
            len == a.len(),
            counts@.len() == nlist,
            forall|k: int| 0 <= k < nlist ==> #[trigger] counts@[k] == n_equal(a, k),
            offsets@ == offsets_of(a, nlist as nat).take(c + 1),
        decreases nlist - c,
    {
        proof {
            lemma_counts(a, c as int);
            assert(offsets@[c as int] == n_below(a, c as int) as usize);
        }
        let next: usize = offsets[c] + counts[c];
        offsets.push(next);
        proof {
            assert(offsets@ =~= offsets_of(a, nlist as nat).take(c + 2));
        }
        c += 1;
    }
    assert(offsets@ =~= offsets_of(a, nlist as nat));
    offsets
}

/// Group vectors by cluster: the vectors, their indices, where the clusters begin, and the norms of
/// the vectors for the cosine metric.
pub fn reorganise_by_cluster<T: Real>(
    vectors_flat: &[T],
    dim: usize,
    n: usize,
    assignments: &[usize],
    nlist: usize,
    metric: &Dist,
) -> (r: (Vec<T>, Vec<usize>, Vec<usize>, Vec<T>))
    requires
        vectors_flat@.len() == n * dim,
        assignments@.len() == n,
        nlist < usize::MAX,
        forall|i: int| 0 <= i < n ==> (#[trigger] assignments@[i]) < nlist,
    ensures
        r.0@.len() == n * dim,
        ordered_by_place(assignments@, r.1@),
        forall|pos: int|
            0 <= pos < n ==> #[trigger] flat_row(r.0@, dim as int, pos) == flat_row(
                vectors_flat@,
                dim as int,
                r.1@[pos] as int,
            ),
        r.2@ == offsets_of(assignments@, nlist as nat),
        *metric == Dist::Cosine ==> r.3@.len() == n && forall|pos: int|
            0 <= pos < n ==> #[trigger] r.3@[pos] == plain_norm(
                flat_row(vectors_flat@, dim as int, r.1@[pos] as int),
            ),
        *metric != Dist::Cosine ==> r.3@.len() == 0,
{
    let ghost a = assignments@;
    let ghost v = vectors_flat@;
    let total: usize = vectors_flat.len();
    let offsets = cluster_starts(assignments, nlist);
    let mut vectors: Vec<T> = vec![T::zero();total];
    let mut indices: Vec<usize> = vec![0;n];
    let mut norms: Vec<T> = Vec::new();
    if *metric == Dist::Cosine {
        norms = vec![T::zero();n];
    }
    let mut write_pos: Vec<usize> = cluster_starts(assignments, nlist);
    let mut i: usize = 0;
    proof {
        assert(a.take(0) =~= Seq::<usize>::empty());
        assert forall|c: int| 0 <= c < nlist implies #[trigger] write_pos@[c] == n_below(a, c)
            + n_equal(a.take(0), c) by {
            lemma_counts(a, c - 1);
            assert(write_pos@[c] == offsets_of(a, nlist as nat)[c]);
        }
    }
    while i < n
        invariant
            i <= n,
            n == a.len(),
            a == assignments@,
            v == vectors_flat@,
            total == n * dim,
            v.len() == total,
            forall|k: int| 0 <= k < n ==> (#[trigger] a[k]) < nlist,
            vectors@.len() == total,
            indices@.len() == n,
            norms@.len() == if *metric == Dist::Cosine {
                n as nat
            } else {
                0
            },
            nlist < usize::MAX,
            write_pos@.len() == nlist + 1,
            forall|c: int|
                0 <= c < nlist ==> #[trigger] write_pos@[c] == n_below(a, c) + n_equal(
                    a.take(i as int),
                    c,
                ),
            forall|k: int|
                #![trigger place(a, k)]
                0 <= k < i ==> indices@[place(a, k)] == k,
            forall|k: int|
                #![trigger place(a, k)]
                0 <= k < i ==> flat_row(vectors@, dim as int, place(a, k)) == flat_row(
                    v,
                    dim as int,
                    k,
                ),
            *metric == Dist::Cosine ==> forall|k: int|
                #![trigger place(a, k)]
                0 <= k < i ==> norms@[place(a, k)] == plain_norm(flat_row(v, dim as int, k)),
            forall|c: int, pos: int|
                0 <= c < nlist && n_below(a, c) <= pos < n_below(a, c) + n_equal(
                    a.take(i as int),
                    c,
                ) ==> (#[trigger] indices@[pos]) < i && #[trigger] n_below(a, c) >= 0 && place(
                    a,
                    indices@[pos] as int,
                ) == pos,
        decreases n - i,
    {
        let cluster: usize = assignments[i];
        assert(a[i as int] < nlist);
        proof {
            lemma_place(a, i as int);
            lemma_row_bounds(i as int, n as int, dim as int);
            lemma_row_bounds(place(a, i as int), n as int, dim as int);
            assert(write_pos@[cluster as int] == place(a, i as int));
            assert(a.take(i + 1).drop_last() =~= a.take(i as int));
            assert(a.take(i + 1).last() == cluster);
        }
        let pos: usize = write_pos[cluster];
        write_pos.set(cluster, pos + 1);
        let ghost old_indices = indices@;
        let ghost old_vectors = vectors@;
        let ghost old_norms = norms@;
        indices.set(pos, i);
        let src: usize = i * dim;
        let dst: usize = pos * dim;
        let mut d: usize = 0;
        while d < dim
            invariant
                d <= dim,
                src + dim <= total,
                dst + dim <= total,
                v == vectors_flat@,
                v.len() == total,
                vectors@.len() == total,
                old_vectors.len() == total,
                forall|k: int|
                    0 <= k < total && !(dst <= k < dst + d) ==> vectors@[k] == old_vectors[k],
                forall|k: int| 0 <= k < d ==> #[trigger] vectors@[dst + k] == v[src + k],
            decreases dim - d,
        {
            vectors.set(dst + d, vectors_flat[src + d]);
            d += 1;
        }
        if *metric == Dist::Cosine {
            let row = slice_subrange(vectors_flat, src, src + dim);
            norms.set(pos, sequential_norm(row));
        }
        proof {
            assert forall|k: int| #![trigger place(a, k)] 0 <= k < i + 1 implies indices@[place(
                a,
                k,
            )] == k && flat_row(vectors@, dim as int, place(a, k)) == flat_row(v, dim as int, k)
                && (*metric == Dist::Cosine ==> norms@[place(a, k)] == plain_norm(
                flat_row(v, dim as int, k),
            )) by {
                lemma_place(a, k);
                if k < i {
                    law_place_order(a, k, i as int);
                    law_place_order(a, i as int, k);
                    let p = place(a, k);
                    lemma_row_bounds(p, n as int, dim as int);
                    let (lo, hi) = if p < pos {
                        (p, pos as int)
                    } else {
                        (pos as int, p)
                    };
                    lemma_row_bounds(lo, hi, dim as int);
                    assert(flat_row(vectors@, dim as int, p) =~= flat_row(
                        old_vectors,
                        dim as int,
                        p,
                    ));
                } else {
                    let r = flat_row(vectors@, dim as int, pos as int);
                    assert forall|j: int| 0 <= j < dim implies r[j] == flat_row(
                        v,
                        dim as int,
                        i as int,
                    )[j] by {
                        assert(vectors@[dst + j] == v[src + j]);
                    }
                    assert(r =~= flat_row(v, dim as int, i as int));
                }
            }
            assert forall|c: int, p: int|
                0 <= c < nlist && n_below(a, c) <= p < n_below(a, c) + n_equal(a.take(i + 1), c)
                    implies (#[trigger] indices@[p]) < i + 1 && #[trigger] n_below(a, c) >= 0
                && place(a, indices@[p] as int) == p by {
                if p != pos {
                    if p < n_below(a, c) + n_equal(a.take(i as int), c) {
                        assert(old_indices[p] < i);
                    }
                }
            }
        }
        i += 1;
    }
    proof {
        assert(a.take(i as int) =~= a);
        lemma_below_all(a, nlist as int);
        assert forall|k: int| #![trigger place(a, k)] 0 <= k < a.len() implies 0 <= place(a, k)
            < a.len() && indices@[place(a, k)] == k by {
            lemma_place(a, k);
        }
        assert forall|pos: int| 0 <= pos < a.len() implies (#[trigger] indices@[pos]) < a.len()
            && place(a, indices@[pos] as int) == pos by {
            let c = lemma_cluster_at(a, pos, nlist as int);
            lemma_counts(a, c);
            assert(n_below(a, c) >= 0);
        }
        assert forall|pos: int| 0 <= pos < n implies #[trigger] flat_row(
            vectors@,
            dim as int,
            pos,
        ) == flat_row(v, dim as int, indices@[pos] as int) && (*metric == Dist::Cosine
            ==> norms@[pos] == plain_norm(flat_row(v, dim as int, indices@[pos] as int))) by {
            let k = indices@[pos] as int;
            assert(place(a, k) == pos);
        }
        if *metric == Dist::Cosine {
            assert forall|pos: int| 0 <= pos < n implies #[trigger] norms@[pos] == plain_norm(
                flat_row(v, dim as int, indices@[pos] as int),
            ) by {
                let k = indices@[pos] as int;
                assert(place(a, k) == pos);
            }
        }
    }
    (vectors, indices, offsets, norms)
}

} // verus!
