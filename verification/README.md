# graphrust

A social-graph viewer's core, written in Verus and verified: Verus checks
every function in `src/`, and the public ones state in their contracts what
they return or change. The trusted declarations of outside functions are
gathered in `src/third_party.rs`.

## Layout

- `src/graph_format/`: the binary graph file (colours, nodes with their
  links, id and name tables), its reader and writer, proved to be inverse to
  each other, and the neighbour lists of a stored graph.
- `src/graph_storage.rs`: turning a stored graph into persons with
  neighbour lists, ids and names.
- `src/algorithms/`: community detection by the Louvain method and shortest
  paths by a bidirectional breadth-first search.
- `src/subgraph.rs`, `src/communities.rs`, `src/stats.rs`, `src/search.rs`:
  neighbourhoods and community subgraphs, community assignment, the
  statistics and renderer data shown beside the graph, and the id index.
- `src/import.rs`: building a graph file from a person database.
- `src/ui_state.rs`, `src/threading.rs`: the state machines of the panels
  and of progress reporting.
- `src/third_party.rs`: the trusted declarations of the outside types and
  functions that the verified code calls (`ahash`, `bit-set`, `rand`, and a
  few std functions).
- `app/`: a command-line front end (file and network I/O, floating-point
  geometry, threads) around the library.
- `tests/`: tests of the library on concrete graphs.
