use net_ensembles::{
    Bfs, BfsDualIndex, CountingNode, Dfs, DfsDualContained, DfsDualIndex, DfsWithIndex, DualIndex, EmptyNode, Graph,
    MultiDualGraph,
};

fn ring(n: usize) -> Graph<CountingNode> {
    let mut g = Graph::<CountingNode>::new(n);
    g.init_ring(1).unwrap();
    g
}

#[test]
fn dfs_iterator_matches_dfs_order() {
    let g = ring(9);
    let mut it = DfsWithIndex::new(&g, 4);
    let mut order = Vec::new();
    while let Some((i, node)) = it.next() {
        assert_eq!(node.number(), i);
        order.push(i);
    }
    assert_eq!(order, g.dfs_order(4));
    assert!(it.next().is_none());

    let mut it = Dfs::new(&g, 0);
    let mut sum = 0;
    while let Some(node) = it.next() {
        sum += node.number();
    }
    assert_eq!(sum, 36);

    let mut it = Dfs::new(&g, 9);
    assert!(it.next().is_none());
}

#[test]
fn bfs_iterator_depths_and_reuse() {
    let g = ring(8);
    let mut it = Bfs::new(&g, 0);
    let mut seen = Vec::new();
    while let Some((i, node, depth)) = it.next() {
        assert_eq!(node.number(), i);
        seen.push((i, depth));
    }
    assert_eq!(seen.len(), 8);
    assert_eq!(seen[0], (0, 0));
    let depth_of = |v: usize| seen.iter().find(|p| p.0 == v).unwrap().1;
    assert_eq!(depth_of(4), 4);
    assert_eq!(depth_of(7), 1);
    assert_eq!(depth_of(6), 2);
    let expected: Vec<(usize, usize)> = g.bfs_index_depth(0).iter().map(|(i, _, d)| (*i, *d)).collect();
    assert_eq!(seen, expected);

    it.reuse(4);
    let (first, _, d) = it.next().unwrap();
    assert_eq!((first, d), (4, 0));
    let mut last_depth = 0;
    while let Some((_, _, depth)) = it.next() {
        assert!(depth >= last_depth);
        last_depth = depth;
    }
    assert_eq!(last_depth, 4);
}

#[test]
fn bfs_mut_changes_what_vertices_hold() {
    let mut g = ring(6);
    {
        let mut it = g.bfs_index_depth_mut(0);
        while let Some((_, node, depth)) = it.next() {
            node.index = depth;
        }
    }
    let depths: Vec<usize> = g.contained_iter().into_iter().map(|c| c.number()).collect();
    assert_eq!(depths, vec![0, 1, 2, 3, 2, 1]);
    assert_eq!(g.edge_count(), 6);
}

#[test]
fn bfs_filtered_walks_kept_vertices() {
    let g = ring(8);
    assert!(g.bfs_filtered(8, |_: &CountingNode, _: usize| true).is_none());
    assert!(g.bfs_filtered(3, |_: &CountingNode, i: usize| i != 3).is_none());

    // without vertex 7 the ring is a path 0 - 1 - ... - 6
    let mut it = g.bfs_filtered(0, |_: &CountingNode, i: usize| i != 7).unwrap();
    assert!(it.is_handled(0));
    assert!(!it.is_handled(3));
    let mut seen = Vec::new();
    while let Some((i, node, depth)) = it.next() {
        assert_eq!(node.number(), i);
        seen.push((i, depth));
    }
    assert_eq!(seen.len(), 7);
    assert!(seen.contains(&(6, 6)));
    assert!(!seen.iter().any(|p| p.0 == 7));
    assert!(!it.is_handled(7));
    assert!(it.is_handled(6));

    let it = match it.reuse(7) {
        Ok(_) => panic!("vertex 7 is filtered out"),
        Err(it) => it,
    };
    let it = match it.reuse(20) {
        Ok(_) => panic!("vertex 20 is out of bounds"),
        Err(it) => it,
    };
    let mut it = match it.reuse(6) {
        Ok(it) => it,
        Err(_) => panic!("vertex 6 is kept"),
    };
    let (first, _, depth) = it.next().unwrap();
    assert_eq!((first, depth), (6, 0));
    let mut count = 1;
    let mut deepest = 0;
    while let Some((_, _, depth)) = it.next() {
        count += 1;
        deepest = depth;
    }
    assert_eq!(count, 7);
    assert_eq!(deepest, 6);
}

#[test]
fn dual_iterators() {
    let mut graph_1 = Graph::<CountingNode>::new(4);
    graph_1.init_ring(1).unwrap();
    let mut graph_2 = Graph::<CountingNode>::new(3);
    graph_2.add_edge(0, 1).unwrap();
    let mut dual = MultiDualGraph::new(graph_1, graph_2);

    let mut it = DfsDualIndex::new(&dual, DualIndex::Graph1(0));
    let mut count = 0;
    while let Some(x) = it.next() {
        assert!(matches!(x, DualIndex::Graph1(_)));
        count += 1;
    }
    assert_eq!(count, 4);

    dual.add_edge(2, 1).unwrap();
    let mut it = DfsDualIndex::new(&dual, DualIndex::Graph1(0));
    let mut visited = Vec::new();
    while let Some(x) = it.next() {
        visited.push(x);
    }
    assert_eq!(visited, dual.dfs_index(DualIndex::Graph1(0)));
    assert_eq!(visited.len(), 6);
    assert!(!visited.contains(&DualIndex::Graph2(2)));

    let mut it = DfsDualContained::new(&dual, DualIndex::Graph2(0));
    let mut sum = 0;
    while let Some(node) = it.next() {
        sum += node.number();
    }
    // 0 + 1 + 2 + 3 in the first graph, 0 + 1 in the second
    assert_eq!(sum, 7);

    let mut it = BfsDualIndex::new(&dual, DualIndex::Graph1(0));
    let mut pairs = Vec::new();
    while let Some(p) = it.next() {
        pairs.push(p);
    }
    assert_eq!(pairs, dual.bfs_index(DualIndex::Graph1(0)));
    assert_eq!(pairs[0], (DualIndex::Graph1(0), 0));
    assert!(pairs.contains(&(DualIndex::Graph2(1), 3)));
    assert!(pairs.contains(&(DualIndex::Graph2(0), 4)));

    it.reuse(DualIndex::Graph2(2));
    assert_eq!(it.next(), Some((DualIndex::Graph2(2), 0)));
    assert_eq!(it.next(), None);
    it.reuse(DualIndex::Graph2(3));
    assert_eq!(it.next(), None);
}

#[test]
fn dfs_on_empty_graph_nodes() {
    let g = Graph::<EmptyNode>::new(3);
    let mut it = DfsWithIndex::new(&g, 1);
    assert_eq!(it.next().map(|p| p.0), Some(1));
    assert!(it.next().is_none());
}
