# net_ensembles

Graphs and random graph ensembles for scientific simulations, with the topology and the
algorithms on it specified and proved in Verus.

## Layout

* `src/` — the library, verified:
  * `graph_spec.rs`, `seq_util.rs`: the model — adjacency lists as `Seq<Seq<usize>>`,
    edges, walks, reachability, and the lemmas about them
  * `generic_graph.rs`, `graph.rs`, `sw_graph.rs`, `traits.rs`: the graph types, their
    containers and the edge operations
  * `search.rs`, `bfs.rs`, `iterators.rs`, `dfs_mut.rs`: depth first and breadth first
    search, connected components, distances, diameter
  * `qcore.rs`, `biconnected.rs`, `measures.rs`, `edge_list.rs`, `histogram.rs`: measures
  * `dot.rs`: the Graphviz text of a graph
  * `dual_adj.rs`, `dual_graph.rs`, `dual_iterators.rs`: two graphs with edges between them
  * `er_m.rs`, `er_c.rs`, `ba.rs`, `sw.rs`, `latin_hypercube.rs`, `random.rs`,
    `sampling.rs`, `graph_iterators.rs`, `measurable.rs`: the ensembles, their Markov
    steps and the random draws, made with `rand`, and the searches and measures of their
    graphs
* `tests/` — tests of the library
* `app/` — what runs on floating point numbers (the ensembles with a probability, the
  transitivity, closeness centrality and vertex load), graphviz output, and serializable
  copies of the small value types
