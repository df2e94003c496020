use net_ensembles::{AdjContainer, EmptyNode, Graph, HistogramFast, HistogramUsize, Histogram, HistogramVal, HistErrors};
use net_ensembles::histogram::HistogramIntervalDistance;

fn ring(n: usize) -> Graph<EmptyNode> {
    let mut g = Graph::<EmptyNode>::new(n);
    g.init_ring(1).unwrap();
    g
}

#[test]
fn bfs_depths_on_ring() {
    let g = ring(6);
    let bfs = g.bfs_index_depth(0);
    let depths: Vec<(usize, usize)> = bfs.iter().map(|(i, _, d)| (*i, *d)).collect();
    assert_eq!(depths.len(), 6);
    assert_eq!(depths[0], (0, 0));
    for w in depths.windows(2) {
        assert!(w[0].1 <= w[1].1);
    }
    let d3 = depths.iter().find(|(i, _)| *i == 3).unwrap().1;
    assert_eq!(d3, 3);
    let d5 = depths.iter().find(|(i, _)| *i == 5).unwrap().1;
    assert_eq!(d5, 1);
    assert!(g.bfs_index_depth(6).is_empty());
}

#[test]
fn longest_shortest_path_and_diameter() {
    let g = ring(7);
    assert_eq!(g.longest_shortest_path_from_index(0), Some(3));
    assert_eq!(g.longest_shortest_path_from_index(7), None);
    assert_eq!(g.diameter(), Some(3));

    let mut path = Graph::<EmptyNode>::new(5);
    for i in 0..4 {
        path.add_edge(i, i + 1).unwrap();
    }
    assert_eq!(path.diameter(), Some(4));
    assert_eq!(path.longest_shortest_path_from_index(2), Some(2));

    let mut split = Graph::<EmptyNode>::new(4);
    split.add_edge(0, 1).unwrap();
    assert_eq!(split.diameter(), None);
    assert_eq!(Graph::<EmptyNode>::new(0).diameter(), None);
    assert_eq!(Graph::<EmptyNode>::new(1).diameter(), Some(0));
}

#[test]
fn q_core_examples() {
    let graph: Graph<EmptyNode> = Graph::new(0);
    assert_eq!(graph.q_core(1), None);
    assert_eq!(graph.q_core(2), None);

    let graph2: Graph<EmptyNode> = Graph::new(1);
    assert_eq!(graph2.q_core(1), None);
    assert_eq!(graph2.q_core(2), Some(0));

    let mut graph3: Graph<EmptyNode> = Graph::new(20);
    for i in 0..graph3.vertex_count() {
        for j in i + 1..graph3.vertex_count() {
            graph3.add_edge(i, j).unwrap();
        }
    }
    for i in 2..20 {
        assert_eq!(graph3.q_core(i), Some(20));
    }
    assert_eq!(graph3.q_core(20), Some(0));
}

#[test]
fn q_core_peels_leaves_and_splits() {
    // two triangles joined by a path 2-3-4, plus a pendant vertex 7 on vertex 0
    let mut g = Graph::<EmptyNode>::new(9);
    for (a, b) in [(0, 1), (1, 2), (2, 0), (2, 3), (3, 4), (4, 5), (5, 6), (6, 4), (0, 7)] {
        g.add_edge(a, b).unwrap();
    }
    // the 2-core is both triangles and the path between them
    assert_eq!(g.q_core(2), Some(7));
    // no vertex keeps 3 neighbors
    assert_eq!(g.q_core(3), Some(0));

    let mut h = Graph::<EmptyNode>::new(6);
    for (a, b) in [(0, 1), (1, 2), (2, 0), (3, 4), (4, 5), (5, 3)] {
        h.add_edge(a, b).unwrap();
    }
    // two separate triangles: the 2-core holds all 6 vertices
    assert_eq!(h.q_core(2), Some(6));

    // two separate complete graphs of 4 vertices: every vertex keeps 3 neighbors
    let mut k = Graph::<EmptyNode>::new(8);
    for base in [0, 4] {
        for a in 0..4 {
            for b in a + 1..4 {
                k.add_edge(base + a, base + b).unwrap();
            }
        }
    }
    assert_eq!(k.q_core(3), Some(8));
    assert_eq!(k.q_core(4), Some(0));
}

#[test]
fn connected_components_and_suggestions() {
    let mut g = Graph::<EmptyNode>::new(6);
    g.add_edge(0, 1).unwrap();
    g.add_edge(1, 2).unwrap();
    g.add_edge(4, 5).unwrap();
    assert_eq!(g.connected_components(), vec![3, 2, 1]);
    let (num, ids) = g.connected_components_ids();
    assert_eq!(num, 3);
    assert_eq!(ids, vec![0, 0, 0, 1, 2, 2]);
    assert_eq!(g.is_connected(), Some(false));
    assert_eq!(Graph::<EmptyNode>::new(0).is_connected(), None);
}

#[test]
fn biconnected_components_sizes() {
    let mut path = Graph::<EmptyNode>::new(3);
    path.add_edge(0, 1).unwrap();
    path.add_edge(1, 2).unwrap();
    assert_eq!(path.clone().vertex_biconnected_components(false), vec![2, 2]);
    assert_eq!(path.vertex_biconnected_components(true), Vec::<usize>::new());

    let mut g = Graph::<EmptyNode>::new(4);
    for (a, b) in [(0, 1), (1, 2), (2, 0), (2, 3)] {
        g.add_edge(a, b).unwrap();
    }
    assert_eq!(g.clone().vertex_biconnected_components(false), vec![3, 2]);
    assert_eq!(g.vertex_biconnected_components(true), vec![3]);

    let mut bowtie = Graph::<EmptyNode>::new(5);
    for (a, b) in [(0, 1), (1, 2), (2, 0), (2, 3), (3, 4), (4, 2)] {
        bowtie.add_edge(a, b).unwrap();
    }
    assert_eq!(bowtie.vertex_biconnected_components(false), vec![3, 3]);

    let complete = Graph::<EmptyNode>::complete_graph(6);
    assert_eq!(complete.vertex_biconnected_components(false), vec![6]);
}

#[test]
fn biconnected_block_left_on_the_stack_stays_apart() {
    // the cycle 0-1-2-3-4-0 with the chord 2-4 is one block, the edge 1-5 another; the
    // search finishes the subtree below 2 before it reaches 5, leaving edges of the big
    // block on the stack above the tree edge into 1
    let mut g = Graph::<EmptyNode>::new(6);
    for (a, b) in [(0, 1), (2, 3), (3, 4), (4, 2), (4, 0), (1, 5), (1, 2)] {
        g.add_edge(a, b).unwrap();
    }
    assert_eq!(g.clone().vertex_biconnected_components(false), vec![5, 2]);
    assert_eq!(g.vertex_biconnected_components(true), vec![5]);

    let mut two_triangles_and_a_tail = Graph::<EmptyNode>::new(7);
    for (a, b) in [(0, 1), (1, 2), (2, 0), (2, 3), (3, 4), (4, 2), (4, 5), (5, 6)] {
        two_triangles_and_a_tail.add_edge(a, b).unwrap();
    }
    assert_eq!(two_triangles_and_a_tail.vertex_biconnected_components(false), vec![3, 3, 2, 2]);
}

#[test]
fn degree_histogram_counts() {
    let mut g = Graph::<EmptyNode>::new(5);
    g.add_edge(0, 1).unwrap();
    g.add_edge(0, 2).unwrap();
    g.add_edge(0, 3).unwrap();
    let hist = g.degree_histogram();
    // degrees 3, 1, 1, 1, 0
    assert_eq!(hist.get_left(), 0);
    assert_eq!(hist.get_right(), 4);
    assert_eq!(hist.hist(), &vec![1, 3, 0, 1]);
}

#[test]
fn histogram_usize_bins() {
    assert!(HistogramUsize::new(0, 10, 3).is_none());
    let mut h = HistogramUsize::new(10, 20, 5).unwrap();
    assert_eq!(h.borders(), &vec![10, 12, 14, 16, 18, 20]);
    assert_eq!(h.get_bin_index(10), Ok(0));
    assert_eq!(h.get_bin_index(13), Ok(1));
    assert_eq!(h.get_bin_index(19), Ok(4));
    assert_eq!(h.get_bin_index(20), Err(HistErrors::OutsideHist));
    assert_eq!(h.get_bin_index(9), Err(HistErrors::OutsideHist));
    assert_eq!(h.count_val(15), Ok(2));
    assert_eq!(h.count_val(15), Ok(2));
    assert_eq!(h.count_index(4), Ok(4));
    assert_eq!(h.count_index(5), Err(HistErrors::OutsideHist));
    assert_eq!(h.hist(), &vec![0, 0, 2, 0, 1]);
    assert!(h.any_bin_zero());
    assert_eq!(h.bin_count(), 5);
    assert_eq!(h.distance(8), 9);
    assert_eq!(h.distance(12), 0);
    assert_eq!(h.distance(22), 3);
    assert_eq!(h.interval_distance_overlap(15, 2), 0);
    assert_eq!(h.interval_distance_overlap(25, 2), 1 + 5 / 2);
    h.reset();
    assert_eq!(h.hist(), &vec![0, 0, 0, 0, 0]);
}

#[test]
fn histogram_fast_bins() {
    assert_eq!(HistogramFast::new(3, 3).err(), Some(HistErrors::OutsideHist));
    let mut h = HistogramFast::new_inclusive(2, 5).unwrap();
    assert_eq!(h.borders(), vec![2, 3, 4, 5, 6]);
    assert_eq!(h.get_bin_index(1), Err(HistErrors::OutsideHist));
    assert_eq!(h.get_bin_index(5), Ok(3));
    assert_eq!(h.count_val(4), Ok(2));
    assert_eq!(h.hist(), &vec![0, 0, 1, 0]);
    assert_eq!(h.distance(0), 1);
    assert_eq!(h.distance(8), 3);
    assert!(h.is_inside(2) && h.not_inside(6));
}

#[test]
fn degrees_of_complete_graph() {
    let g = Graph::<EmptyNode>::complete_graph(5);
    assert_eq!(g.edge_count(), 10);
    assert_eq!(g.degree_vec(), vec![4, 4, 4, 4, 4]);
    assert_eq!(g.degree(5), None);
    assert_eq!(g.container(2).degree(), 4);
}

#[test]
fn transitivity_counts_of_small_graphs() {
    let k4 = Graph::<EmptyNode>::complete_graph(4);
    assert_eq!(k4.transitivity_counts(), (24, 24));

    let mut star = Graph::<EmptyNode>::new(4);
    star.add_edge(0, 1).unwrap();
    star.add_edge(0, 2).unwrap();
    star.add_edge(0, 3).unwrap();
    assert_eq!(star.transitivity_counts(), (0, 6));

    // a triangle with a pendant vertex
    let mut g = Graph::<EmptyNode>::new(4);
    g.add_edge(0, 1).unwrap();
    g.add_edge(1, 2).unwrap();
    g.add_edge(2, 0).unwrap();
    g.add_edge(2, 3).unwrap();
    let (closed, all) = g.transitivity_counts();
    assert_eq!(closed, 6);
    assert_eq!(all, 10);

    assert_eq!(Graph::<EmptyNode>::new(3).transitivity_counts(), (0, 0));
}

#[test]
fn distance_sums_of_small_graphs() {
    let mut path = Graph::<EmptyNode>::new(3);
    path.add_edge(0, 1).unwrap();
    path.add_edge(1, 2).unwrap();
    assert_eq!(path.distance_sums(), vec![3, 2, 3]);

    let r = ring(6);
    assert_eq!(r.distance_sums(), vec![9; 6]);

    // unreachable vertices add nothing
    let mut g = Graph::<EmptyNode>::new(4);
    g.add_edge(0, 1).unwrap();
    assert_eq!(g.distance_sums(), vec![1, 1, 0, 0]);
}

#[test]
fn edge_list_each_edge_once() {
    let mut g = Graph::<EmptyNode>::new(5);
    g.add_edge(3, 1).unwrap();
    g.add_edge(0, 4).unwrap();
    g.add_edge(1, 0).unwrap();
    g.add_edge(4, 2).unwrap();
    assert_eq!(g.edge_list(), vec![(0, 4), (0, 1), (1, 3), (2, 4)]);
    let k = Graph::<EmptyNode>::complete_graph(4);
    assert_eq!(k.edge_list(), vec![(0, 1), (0, 2), (0, 3), (1, 2), (1, 3), (2, 3)]);
    assert!(Graph::<EmptyNode>::new(3).edge_list().is_empty());
}

#[test]
fn shortest_path_predecessors_on_a_ring() {
    let g = ring(6);
    let (order, pred) = g.shortest_path_predecessors(0);
    assert_eq!(order.len(), 6);
    assert_eq!(order[0], (0, 0));
    assert!(pred[0].is_empty());
    assert_eq!(pred[1], vec![0]);
    assert_eq!(pred[5], vec![0]);
    let mut p3 = pred[3].clone();
    p3.sort_unstable();
    // the vertex opposite the source is reached on two shortest paths
    assert_eq!(p3, vec![2, 4]);

    let mut h = Graph::<EmptyNode>::new(4);
    h.add_edge(0, 1).unwrap();
    let (order, pred) = h.shortest_path_predecessors(2);
    assert_eq!(order, vec![(2, 0)]);
    assert!(pred.iter().all(|p| p.is_empty()));
}

#[test]
fn degrees_and_containers() {
    let g = ring(5);
    assert_eq!(g.degree_iter(), vec![2; 5]);
    assert_eq!(g.container_iter().len(), 5);
    assert_eq!(g.container_iter()[3].degree(), 2);
}
