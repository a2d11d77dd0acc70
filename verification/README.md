# dijkstra

Directed weighted graphs with a shortest-path search, verified with Verus.

- `src/vertex.rs`: vertices and their arcs; the text form of one vertex.
- `src/graph.rs`: the graph, the frontier list and its cursor, the search
  (`Graph::shortest`), and reading and writing graphs as text.
- `src/search.rs`: the invariant of the search and the lemmas that carry it.
- `src/roundtrip.rs`: the proof that reading what `export` writes gives the
  graph back.
- `src/list.rs`: a singly linked priority list that keeps equal distances in
  arrival order.
- `src/order.rs`: the priority order of entries and vertices.
- `src/paths.rs`: laws of the distances a search leaves behind.
- `src/text.rs`: trimming, splitting, and decimal reading and writing of
  integers.
- `app/`: the program that builds a sample graph and prints its shortest path,
  and reading graphs from files.

The text format has one vertex per line: its id, then its arcs as
`to,distance`, separated by spaces.

`Graph::shortest` needs the source to be a vertex and, for the paths a search
can follow from it (every part short of the end weighing less than the
unreached mark `i64::MAX`): every vertex they reach other than the source
carries its index as id, every such vertex has arcs into the graph, and no such
path weighs less than `i64::MIN` (so no cycle of negative weight lies in reach).
Arcs may be negative. No sum of a distance and an arc that the search forms may
pass `i64::MAX`; `Graph::sums_fit` tells whether that holds. `Graph::can_search`
checks a simpler condition that implies the layout and the lower bound: every
vertex carries its index as id, every arc leads to a vertex, and no arc is
negative.
