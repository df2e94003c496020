use net_ensembles::{CountingNode, DualGraph, DualIndex, EmptyNode, Graph, MultiDualGraph, SingleDualGraph, SwGraph};

#[test]
fn dual_graph_basic_test() {
    let mut graph_1 = Graph::<EmptyNode>::new(5);
    graph_1.add_edge(0, 1).unwrap();
    graph_1.add_edge(1, 2).unwrap();
    graph_1.add_edge(3, 4).unwrap();

    assert_eq!(graph_1.is_connected(), Some(false));

    let mut graph_2 = SwGraph::<CountingNode>::new(5);

    graph_2.init_ring_2();
    assert_eq!(graph_2.is_connected(), Some(true));

    let mut dual = SingleDualGraph::new(graph_1, graph_2);

    assert!(!dual.is_connected());

    dual.add_edge(1, 0).unwrap();
    assert!(!dual.is_connected());
    dual.add_edge(3, 4).unwrap();
    assert!(dual.is_connected());
}

#[test]
fn dual_graph_dfs_test() {
    let mut graph_1 = Graph::<CountingNode>::new(5);
    graph_1.init_ring(2).unwrap();
    let sum_1: usize = graph_1.dfs(0).into_iter().map(CountingNode::number).sum();
    assert_eq!(sum_1, 10);

    let mut graph_2 = Graph::<CountingNode>::new(11);
    graph_2.init_ring(1).unwrap();

    let sum_2: usize = graph_2.dfs(0).into_iter().map(CountingNode::number).sum();

    assert_eq!(sum_2, 55);

    let mut dual = MultiDualGraph::new(graph_1, graph_2);

    let sum_dual_1: usize = dual.dfs_1_contained(0).into_iter().map(CountingNode::number).sum();
    assert_eq!(sum_1, sum_dual_1);

    let sum_dual_2: usize = dual.dfs_2_contained(0).into_iter().map(CountingNode::number).sum();
    assert_eq!(sum_2, sum_dual_2);

    dual.add_edge(0, 0).unwrap();

    let sum_of_sum: usize = dual
        .dfs_contained(DualIndex::Graph1(0))
        .into_iter()
        .map(CountingNode::number)
        .sum();

    assert_eq!(sum_1 + sum_2, sum_of_sum);
}

#[test]
fn dual_graph_bfs_test() {
    let is_connected = |dual_graph: &MultiDualGraph<_, _, _, _>| {
        dual_graph.bfs_index(DualIndex::Graph1(0)).len() == dual_graph.total_vertices()
    };

    let mut graph_1 = Graph::<EmptyNode>::new(5);
    graph_1.add_edge(0, 1).unwrap();
    graph_1.add_edge(1, 2).unwrap();
    graph_1.add_edge(3, 4).unwrap();

    assert_eq!(graph_1.is_connected(), Some(false));

    let mut graph_2 = SwGraph::<CountingNode>::new(5);

    graph_2.init_ring_2();
    assert_eq!(graph_2.is_connected(), Some(true));

    let mut dual = DualGraph::new(graph_1, graph_2);

    assert!(!is_connected(&dual));
    is_connected(&dual);

    dual.add_edge(1, 0).unwrap();
    assert!(!is_connected(&dual));

    dual.add_edge(3, 4).unwrap();
    // now it should be connected
    assert!(is_connected(&dual));
}

#[test]
fn dual_graph_bfs_depth_test() {
    let mut graph_1 = Graph::<EmptyNode>::new(6);
    graph_1.init_ring(1).unwrap();
    let graph_2 = graph_1.clone();

    let mut dual = MultiDualGraph::new(graph_1, graph_2);

    // connect them
    dual.add_edge(0, 0).unwrap();

    let depth = dual.bfs_index(DualIndex::Graph1(3)).last().unwrap().1;
    assert!(dual.is_connected());
    assert_eq!(depth, 7);

    assert_eq!(dual.diameter(), Some(7));
}

#[test]
fn which_graph_access() {
    let mut x: DualIndex = DualIndex::Graph2(7);
    assert_eq!(*x, 7);
    assert_eq!(*x.inner(), 7);
    *x.inner_mut() = 9;
    assert_eq!(x, DualIndex::Graph2(9));
    assert_eq!(x.into_inner(), 9);
    let y: DualIndex = DualIndex::Graph1(3);
    assert_eq!(*y, 3);
}
