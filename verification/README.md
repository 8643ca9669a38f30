# graph

Weighted graphs over identified vertices, an indexed d-ary priority queue and
Prim's minimum spanning tree, written in Verus. The library's functions carry
contracts that Verus proves; what stays outside the library (floating-point
distances and totals, file input, printing) lives in `app/` and is not
verified.

Layout:

- `src/id.rs` — vertex identifiers and their conversions.
- `src/graph.rs` — `Edge`, the `GraphTrait` operations and `DenseMatrixGraph`,
  an adjacency matrix of ordered maps: reading, inserting and removing edges,
  the complete graph over a set of vertices, and the graph that links each
  vertex to its neighbours by position.
- `src/mst.rs` — Prim's algorithm: the tree it grows, the order in which
  vertices join, the cut property of every joining edge, and the number of
  steps the search takes.
- `src/optimal.rs` — the proof that Prim's tree weighs no more than any other
  spanning tree of a graph whose edges weigh the same in both directions.
- `src/plot.rs` — the order in which a spanning tree's vertices are drawn as a
  chain.
- `src/pqi.rs` — the indexed priority queue, the exact effect of each of its
  operations, and checks that tell beforehand whether an operation may run.
- `app/` — the program: points in the plane, their floating-point distances
  (turned into order keys for the library), reading points from a file, and
  printing the tree and its total weight.

Weights in the library are order keys (`u64`): the algorithms only compare and
carry them. The program maps non-negative floating-point lengths to keys that
order the same way, and back.
