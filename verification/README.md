# kannolo

Proximity graphs for approximate nearest-neighbour search, verified with Verus.

- `src/graph/` holds the graphs: how neighbour lists are stored (`neighbors`, `stream_vbyte`,
  `elias_fano`, `zeta`), the graphs themselves (`graph`, `growable`), the interface that they share
  with the searches on it (`graph_trait`), how a new node chooses its neighbours (`pruning`), and
  how nodes are renamed by a bisection (`egb`). `search` says what the searches compute;
  `search_laws` and `graph_laws` say what holds of them.
- `src/heap.rs`, `src/visited.rs`, `src/sorted.rs` and `src/blocks.rs` are the collections that
  these rest on.
- `src/datasets.rs` and `src/hnsw_utils.rs` bring vectors into another order.
- `src/npy/` and `src/permutation_file.rs` read and write permutations in `.npy` files.
- `src/options.rs`, `src/seismic.rs` and `src/report.rs` decide what command lines ask for, and
  what is reported.
- `app/` holds the command-line programs. They need the `vectorium` vector engine, the `toolkit`
  encoders, the `hnsw` index that is built on these graphs, the `seismic` index and a graph
  bisection.
- `tests/` holds the tests.

Distances are `u64`, and come from functions that the searches are given. A search asks about
external ids, and works on local ones.

Blocks of differences, offsets and mappings are held as plain numbers. How many bytes they take in
an encoded form comes from functions too: `graph/encoded` says what these are asked.
