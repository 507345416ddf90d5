# fast-transit-network-analytics

Graph analytics for large transit networks given as edge lists
(`<src> <dst>` per line): breadth-first distances, weakly connected
components and PageRank, each sequential and parallel, plus an Erdős–Rényi
edge-list generator.

The library in `src/` is written in Verus and proved against its contracts:

- `graph/parse.rs` — reading edge-list lines (`u64` fields, Unicode white
  space, blank lines skipped, the first bad line reported).
- `graph/construct.rs`, `graph/remap.rs` — CSR construction by counting sort,
  with ids taken as they are or renumbered in increasing order; the result is
  specified as the exact CSR form of the edge list.
- `graph/reach.rs` — walks, reachability, and the specifications of
  breadth-first distances and component labels.
- `algorithms/` — BFS and WCC, sequential and level-synchronous parallel
  (frontiers expanded on the rayon pool); both variants meet the same exact
  contracts, and `algorithms/laws.rs` proves that they agree and that on
  graphs with reverse arrays the labels are exactly connectivity.
- `generator/er.rs` — the random edge generator and its task split.

`app/` holds the command-line tool (file I/O, argument parsing, output) and
PageRank, which computes in floating point.
