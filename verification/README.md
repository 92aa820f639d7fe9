# hnsw_index

Layered proximity graph of an HNSW index: search within and across layers, and
linking of new points. The library under `src/` is verified with Verus.

- `types`: point numbers and scores; the score of a 32-bit float.
- `ranking`, `priority_queue`: sequences ordered by priority, and a queue that keeps
  the best of what is pushed into it.
- `scorer`: scoring functions with their mathematical models.
- `visited_pool`, `search_context`, `entry_points`: the state of a search, and where
  it enters the graph.
- `model`: what search and linking compute, as mathematical functions.
- `graph_layers`: the graph itself.
- `search_lemmas`, `linking_lemmas`: facts that the proofs use.
- `search_laws`, `linking_laws`, `building_laws`: what can be relied on of a search, of
  linking a point, and of a graph built by linking many.

`app/` wraps the graph for floating-point similarities, picks random levels, and
stores the graph in a file.
