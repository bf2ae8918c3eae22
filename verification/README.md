# ann_search

Approximate nearest neighbour indices, verified with Verus.

- `src/cpu`: hierarchical navigable small world graphs (HNSW). Construction, pruning, search, scalar
  quantisation, and what holds of every graph and every query.
- `src/gpu`: the host side of an inverted file index (IVF) on a compute device. Grouping of vectors by
  cluster, choice of clusters, division of work, batches, reading of results.
- `src/api`: entry points for all indices, over traits that an index implements.
- `src/parallel.rs`: queries for many samples at once.
- `src/utils`: numbers, matrices, metrics, ordered lists, random words, memory.
- `app`: `f32` and `f64`, `faer` matrices, drivers for devices, reports.
- `tests`: the library on concrete values.

Numbers are reached through the traits of `src/utils/float.rs`. Contracts say which operations are applied to
what, in which order; what an operation computes is up to the number type.

An HNSW index is built by one node after the other. `ConstructionGraph` also offers an update in three steps (look,
decide, write), whose result is right when another update came in between.
