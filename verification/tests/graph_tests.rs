use net_ensembles::{AdjContainer, AdjList, CountingNode, EmptyNode, GenericGraph, Graph, Histogram, HistogramVal, Node, NodeContainer, SwGraph, TestNode};

#[test]
fn correct_complete_graphs() {
    let g = Graph::<EmptyNode>::complete_graph(50);
    for index in 0..50 {
        let container = g.container(index);
        for neigbor in 0..50 {
            if neigbor == index {
                assert!(!container.is_adjacent(neigbor));
            } else {
                assert!(container.is_adjacent(neigbor));
            }
        }
    }
    assert_eq!(g.vertex_count(), 50);
}

#[test]
fn subgraph() {
    let graph = Graph::<EmptyNode>::complete_graph(10);

    let subgraph = graph.cloned_subgraph(vec![3, 2, 1, 9, 3]).unwrap();

    assert_eq!(subgraph.vertex_count(), 4);
    assert_eq!(subgraph.edge_count(), (4 * 3) / 2);

    let c = subgraph.container(1);
    let neighbors = c.neighbors();
    let mut iter = neighbors.iter();
    assert_eq!(iter.next(), Some(&0));
    assert_eq!(iter.next(), Some(&2));
    assert_eq!(iter.next(), Some(&3));
    assert_eq!(iter.next(), None);
    drop(subgraph);
    let subgraph = graph.cloned_subgraph(vec![0]).unwrap();
    assert_eq!(subgraph.edge_count(), 0);
    assert_eq!(subgraph.vertex_count(), 1);
    drop(graph);

    let mut graph = Graph::<EmptyNode>::new(7);

    graph.add_edge(0, 3).unwrap();
    graph.add_edge(0, 1).unwrap();
    graph.add_edge(2, 3).unwrap();
    graph.add_edge(0, 5).unwrap();

    let mut subgraph = graph.cloned_subgraph(vec![0, 1, 3]).unwrap();
    subgraph.sort_adj();

    assert_eq!(subgraph.vertex_count(), 3);
    assert_eq!(subgraph.edge_count(), 2);

    let c = subgraph.container(0);
    assert_eq!(c.degree(), 2);
    let neighbors = c.neighbors();
    let mut iter = neighbors.iter();
    assert_eq!(iter.next(), Some(&1));
    assert_eq!(iter.next(), Some(&2));
    assert_eq!(iter.next(), None);

    let c = subgraph.container(1);
    assert_eq!(c.degree(), 1);

    let neighbors = c.neighbors();
    let mut iter = neighbors.iter();
    assert_eq!(iter.next(), Some(&0));
    assert_eq!(iter.next(), None);

    let c = subgraph.container(2);
    let neighbors = c.neighbors();
    let mut iter = neighbors.iter();
    assert_eq!(c.degree(), 1);
    assert_eq!(iter.next(), Some(&0));
    assert_eq!(iter.next(), None);

    assert!(graph.cloned_subgraph(vec![]).is_none());
    assert!(graph.cloned_subgraph(vec![199, 199, 329029]).is_none());
}

#[test]
fn t1() {
    TestNode::new_from_index(1);
}

#[test]
fn degree_dist() {
    let mut network = GenericGraph::<EmptyNode, NodeContainer<EmptyNode>>::new(10);

    network.init_ring(1).unwrap();

    let hist = network.degree_histogram();

    assert_eq!(hist.hist().len(), 1);
    assert_eq!(hist.hist()[0], 10);
    assert_eq!(hist.borders()[0], 2);
    assert_eq!(hist.borders()[hist.borders().len() - 2], 2);

    let network = GenericGraph::<EmptyNode, NodeContainer<EmptyNode>>::new(1);

    let hist = network.degree_histogram();
    let mut iter = hist
        .borders()
        .into_iter()
        .zip(hist.hist().iter().copied());
    assert_eq!(iter.next(), Some((0, 1)));
    assert_eq!(iter.next(), None);
}

#[test]
fn sw_ring_2() {
    let size = 300;
    let mut graph = SwGraph::<EmptyNode>::new(size);
    graph.init_ring_2();

    assert_eq!(graph.vertex_count(), size);
    assert_eq!(graph.edge_count(), size * 2);

    for i in 0..size {
        assert_eq!(2, graph.container(i).count_root());
    }

    graph.sort_adj();

    for i in 0..size {
        let container = graph.container(i);
        assert_eq!(container.id(), i);
        let m2 = if i >= 2 { i - 2 } else { (i + size - 2) % size };
        let m1 = if i >= 1 { i - 1 } else { (i + size - 1) % size };
        let p1 = (i + 1) % size;
        let p2 = (i + 2) % size;
        let mut v = vec![(m2, None), (m1, None), (p1, Some(p1)), (p2, Some(p2))];
        v.sort_unstable_by_key(|x| x.0);

        let iter = container.edges().iter();
        for (edge, other_edge) in iter.zip(v.iter()) {
            assert_eq!(edge.to(), &other_edge.0);
        }
    }
}

#[test]
fn dfs_counting_sum() {
    let mut graph = Graph::<CountingNode>::new(5);
    graph.init_ring(2).unwrap();
    let sum: usize = graph.dfs(0).into_iter().map(|c| c.number()).sum();
    assert_eq!(sum, 10);
}

#[test]
fn test_dfs_mut_magic() {
    let mut graph = Graph::<CountingNode>::complete_graph(10);

    let mut iter = graph.dfs_mut(0);

    let first = iter.next().unwrap();
    first.index = 3;
    iter.next();
    let third = iter.next().unwrap();
    third.index = 23;
    graph.at_mut(3).index = 4;
}

#[test]
fn test_graph_container_push() {
    // create two nodes
    let mut c = NodeContainer::new(0, EmptyNode::new_from_index(0));
    let mut c2 = NodeContainer::new(1, EmptyNode::new_from_index(1));
    // create edge -> should not result in error!
    let res = c.push(&mut c2);
    if let Err(e) = res {
        panic!("error: {}", e.to_str());
    }
    // now edge exists, should not be able to add it again:
    let res = c.push(&mut c2);
    assert!(res.is_err());

    assert_eq!(0, c.id());
}

#[test]
fn graph_from_small_world_graph_keeps_the_edges() {
    let mut sw = SwGraph::<CountingNode>::new(12);
    sw.init_ring_2();
    let g = Graph::from(&sw);
    assert_eq!(g.vertex_count(), 12);
    assert_eq!(g.edge_count(), 24);
    for i in 0..12 {
        assert_eq!(g.container(i).neighbors(), sw.container(i).neighbors_sw());
        assert_eq!(g.at(i).number(), i);
    }
}

#[test]
fn dot_text_of_a_path() {
    let mut g = Graph::<EmptyNode>::new(3);
    g.add_edge(0, 1).unwrap();
    g.add_edge(1, 2).unwrap();
    let labels = vec!["a".to_string(), "b".to_string(), "c".to_string()];
    let text = net_ensembles::dot::dot_text(&g, "splines=true;", &labels);
    assert_eq!(
        text,
        "graph G{\n\tsplines=true;\n\t0 1 2 ;\n\t\"0\" [label=\"a\"];\n\t\"1\" [label=\"b\"];\n\t\"2\" [label=\"c\"];\n\t0 -- 1\n\t1 -- 2\n}"
    );
}

#[test]
fn topology_dot_text_writes_two_digit_indices() {
    let mut g = Graph::<EmptyNode>::new(12);
    g.add_edge(10, 11).unwrap();
    g.add_edge(3, 10).unwrap();
    let text = net_ensembles::dot::topology_dot_text(&g);
    assert_eq!(text, "graph{\n\t0 1 2 3 4 5 6 7 8 9 10 11 \n\t3 -- 10\n\t10 -- 11\n}");
}

#[test]
fn dfs_hands_out_a_neighbor_of_an_earlier_vertex() {
    let mut g = Graph::<EmptyNode>::new(9);
    for (a, b) in [(0, 4), (4, 7), (7, 2), (2, 8), (0, 3), (3, 6), (6, 1), (1, 5), (5, 8)] {
        g.add_edge(a, b).unwrap();
    }
    let order = g.dfs_order(0);
    assert_eq!(order.len(), 9);
    assert_eq!(order[0], 0);
    for k in 1..order.len() {
        assert!((0..k).any(|j| g.container(order[j]).is_adjacent(order[k])));
    }
}

#[test]
fn get_contained_mut_changes_only_that_vertex() {
    let mut g = Graph::<CountingNode>::new(5);
    g.add_edge(1, 3).unwrap();
    assert!(g.get_contained_mut(5).is_none());
    let c = g.get_contained_mut(3).unwrap();
    assert_eq!(c.number(), 3);
    c.index = 42;
    for i in 0..5 {
        let expected = if i == 3 { 42 } else { i };
        assert_eq!(g.at(i).number(), expected);
    }
    assert_eq!(g.edge_count(), 1);
    assert!(g.container(1).is_adjacent(3));
    let copy = g.clone();
    assert_eq!(copy.at(3).number(), 42);
    assert_eq!(copy.container(3).neighbors(), vec![1]);
}
