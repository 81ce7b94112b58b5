# graphrs

A graph library — directed and undirected graphs, multi-graphs, and algorithms over them —
whose combinatorial core is verified with Verus.

## Layout

- `src/` — the verified library.
  - `graph/` — the `Graph` type and its model `GraphView` (nodes in insertion order, edges keyed by
    pairs of node indexes); building, querying, degrees, subgraphs, reversal and conversion to an
    undirected graph. `laws.rs` and `handshake.rs` hold properties of the graph as a whole.
  - `algorithms/` — connected, strongly and weakly connected components, breadth-first shortest
    paths, edge boundaries, triangle and square counts, group degree counts, partitions of nodes.
  - `ext/` — small helpers on sets, vectors and sequences.
- `tests/` — tests of the library on concrete graphs.
- `app/` — the measures that are floating-point numbers (centralities, clustering coefficients,
  weighted shortest paths, community detection, spectral gap), random graph generation and the
  adjacency matrices, written around the verified library.

Node names are `u64`; an edge keeps its weight as the bit pattern of an `f64`.
