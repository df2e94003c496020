use net_ensembles::{AdjContainer, BAensemble, LatinHypercubeSampling2D, ErEnsembleM, EmptyNode, Graph, HasRng, SwGraph, WangLandauMode, WithGraph, ErStepC, GraphErrors, GraphIterators, MeasurableGraphQuantities};
use net_ensembles::random::draw_two_from_range;
use net_ensembles::sw::ring_pairs_to_join;
use rand::SeedableRng;
use std::borrow::Borrow;
use rand_pcg::Pcg64;

fn edge_list<R>(e: &ErEnsembleM<EmptyNode, R>) -> Vec<(usize, usize)> {
    let g = e.graph();
    let mut edges = Vec::new();
    for i in 0..g.vertex_count() {
        for j in g.container(i).neighbors() {
            if i < j {
                edges.push((i, j));
            }
        }
    }
    edges.sort_unstable();
    edges
}

#[test]
fn er_m_keeps_edge_count() {
    let rng = Pcg64::seed_from_u64(95);
    let mut e = ErEnsembleM::<EmptyNode, Pcg64>::new(20, 30, rng);
    assert_eq!(e.get_m(), 30);
    assert_eq!(e.graph().edge_count(), 30);
    assert_eq!(e.graph().vertex_count(), 20);
    for _ in 0..200 {
        e.m_step();
        assert_eq!(e.graph().edge_count(), 30);
    }
    e.randomize();
    assert_eq!(e.graph().edge_count(), 30);
}

#[test]
fn er_m_undo_restores_edges() {
    let rng = Pcg64::seed_from_u64(1234);
    let mut e = ErEnsembleM::<EmptyNode, Pcg64>::new(12, 20, rng);
    let before = edge_list(&e);
    let step = e.m_step();
    let after = edge_list(&e);
    assert_ne!(before, after);
    e.undo_step(step);
    assert_eq!(edge_list(&e), before);

    let mut steps = Vec::new();
    for _ in 0..10 {
        steps.push(e.m_step());
    }
    while let Some(s) = steps.pop() {
        e.undo_step_quiet(s);
    }
    assert_eq!(edge_list(&e), before);
}

#[test]
fn er_m_full_and_empty() {
    let rng = Pcg64::seed_from_u64(7);
    let e = ErEnsembleM::<EmptyNode, Pcg64>::new(6, 15, rng);
    assert_eq!(edge_list(&e).len(), 15);
    let rng = Pcg64::seed_from_u64(8);
    let mut e = ErEnsembleM::<EmptyNode, Pcg64>::new(6, 0, rng);
    assert_eq!(e.graph().edge_count(), 0);
    let mut other = Pcg64::seed_from_u64(9);
    e.swap_rng(&mut other);
    let _ = e.rng();
    e.sort_adj();
    let _ = e.at(3);
}

#[test]
fn er_step_c_validity() {
    assert!(ErStepC::Nothing.is_valid());
    assert!(ErStepC::AddedEdge((1, 2)).is_valid());
    assert!(ErStepC::RemovedEdge((1, 2)).is_valid());
    assert!(!ErStepC::GError(GraphErrors::EdgeExists).is_valid());
    ErStepC::Nothing.valid_or_panic();
    ErStepC::AddedEdge((0, 1)).valid_or_panic_msg("test");
}

fn has_isolated<T, A: AdjContainer<T>>(g: &net_ensembles::GenericGraph<T, A>) -> bool {
    g.degree_vec().iter().any(|d| *d == 0)
}

fn check_ba<R>(e: &BAensemble<EmptyNode, R>, n: usize, m: usize) {
    let s = e.source_graph();
    let g = e.graph();
    let n0 = s.vertex_count();
    assert_eq!(g.vertex_count(), n);
    assert_eq!(g.edge_count(), s.edge_count() + (n - n0) * m);
    for v in n0..n {
        assert!(g.container(v).degree() >= m);
    }
    for u in 0..n0 {
        for v in 0..n0 {
            assert_eq!(g.container(u).is_adjacent(v), s.container(u).is_adjacent(v));
        }
    }
}

#[test]
fn creation() {
    let rng = Pcg64::seed_from_u64(12);
    let e: BAensemble<EmptyNode, _> = BAensemble::new(100, rng, 1, 2);
    check_ba(&e, 100, 1);
    assert_eq!(e.source_graph().edge_count(), 1);

    // a source graph from an Erdős-Rényi ensemble without isolated vertices
    let rng = Pcg64::seed_from_u64(122321232);
    let mut er = ErEnsembleM::<EmptyNode, Pcg64>::new(10, 15, rng);
    while has_isolated(er.graph()) {
        er.randomize();
    }
    let rng = Pcg64::seed_from_u64(1878321232);
    let ba = BAensemble::new_from_graph(20, rng, 2, er.graph());
    check_ba(&ba, 20, 2);

    // a source graph with another container type
    let mut sw = SwGraph::<EmptyNode>::new(10);
    sw.init_ring_2();
    let rng = Pcg64::seed_from_u64(78321232);
    let ba2: BAensemble<EmptyNode, _> = BAensemble::new_from_generic_graph(50, rng, 2, &sw);
    check_ba(&ba2, 50, 2);
}

#[test]
fn ba_randomize_and_access() {
    let rng = Pcg64::seed_from_u64(4);
    let mut e: BAensemble<EmptyNode, _> = BAensemble::new(30, rng, 3, 4);
    check_ba(&e, 30, 3);
    assert_eq!(e.source_graph().edge_count(), 6);
    for _ in 0..5 {
        e.randomize();
        check_ba(&e, 30, 3);
    }
    e.sort_adj();
    check_ba(&e, 30, 3);
    for v in 0..30 {
        let nb = e.graph().container(v).neighbors();
        for w in nb.windows(2) {
            assert!(w[0] < w[1]);
        }
    }
    let _ = e.at(0);
    let _ = e.at_mut(29);
}

#[test]
fn ba_with_as_many_edges_as_source_vertices() {
    // every arriving vertex must attach to all vertices of the source graph or earlier ones
    let rng = Pcg64::seed_from_u64(77);
    let e: BAensemble<EmptyNode, _> = BAensemble::new(6, rng, 2, 2);
    check_ba(&e, 6, 2);
    assert_eq!(e.graph().edge_count(), 1 + 4 * 2);
}

#[test]
fn er_c_draw_2() {
    let mut rng = Pcg64::seed_from_u64(762132);
    for _i in 0..100 {
        let (first, second) = draw_two_from_range(&mut rng, 2);
        assert!(first != second);
    }
    for i in 2..100 {
        let (first, second) = draw_two_from_range(&mut rng, i);
        assert!(first != second);
        assert!(first < i && second < i);
    }
}

#[test]
fn er_c_step_and_undo() {
    let mut g = Graph::<EmptyNode>::new(5);
    let step = g.er_c_step((1, 3), true);
    assert!(matches!(step, ErStepC::AddedEdge((1, 3))));
    assert_eq!(g.edge_count(), 1);
    assert!(matches!(g.er_c_step((3, 1), true), ErStepC::Nothing));
    let undo = g.er_c_undo_step(step);
    assert!(matches!(undo, ErStepC::RemovedEdge((1, 3))));
    assert_eq!(g.edge_count(), 0);
    assert!(matches!(g.er_c_step((1, 3), false), ErStepC::Nothing));
    g.add_edge(0, 4).unwrap();
    let step = g.er_c_step((4, 0), false);
    assert!(matches!(step, ErStepC::RemovedEdge((4, 0))));
    assert!(matches!(g.er_c_undo_step(step), ErStepC::AddedEdge((4, 0))));
    assert!(g.container(0).is_adjacent(4));
    assert!(matches!(g.er_c_undo_step(ErStepC::AddedEdge((1, 2))), ErStepC::GError(GraphErrors::EdgeDoesNotExist)));
    assert!(matches!(g.er_c_undo_step(ErStepC::Nothing), ErStepC::Nothing));
}

#[test]
fn make_connected_joins_components() {
    let mut g = Graph::<EmptyNode>::new(7);
    g.add_edge(0, 1).unwrap();
    g.add_edge(2, 3).unwrap();
    g.add_edge(5, 6).unwrap();
    assert_eq!(g.is_connected(), Some(false));
    g.make_connected();
    assert_eq!(g.is_connected(), Some(true));
    // the old edges stay
    assert!(g.container(0).is_adjacent(1));
    assert!(g.container(2).is_adjacent(3));
    assert!(g.container(5).is_adjacent(6));
    // four components need three more edges
    assert_eq!(g.edge_count(), 6);
    g.make_connected();
    assert_eq!(g.edge_count(), 6);
}

#[test]
fn wang_landau_modes() {
    assert!(WangLandauMode::RefineOriginal.is_mode_original());
    assert!(!WangLandauMode::RefineOriginal.is_mode_1_t());
    assert!(WangLandauMode::Refine1T.is_mode_1_t());
    assert!(!WangLandauMode::Refine1T.is_mode_original());
}

#[test]
fn latin_hypercube_uses_each_row_and_column_once() {
    let rng = Pcg64::seed_from_u64(5);
    let mut lhs = LatinHypercubeSampling2D::new(10, rng);
    assert_eq!(lhs.len(), 10);
    let mut rows = Vec::new();
    let mut cols = Vec::new();
    while let Some((x, y)) = lhs.next() {
        rows.push(x);
        cols.push(y);
        assert_eq!(lhs.len(), 10 - rows.len());
    }
    assert!(lhs.next().is_none());
    // the drawn rows are not simply in order
    assert_ne!(rows, (0..10).collect::<Vec<_>>());
    rows.sort_unstable();
    cols.sort_unstable();
    assert_eq!(rows, (0..10).collect::<Vec<_>>());
    assert_eq!(cols, (0..10).collect::<Vec<_>>());
}

#[test]
fn ring_pairs_to_join_one_per_component() {
    // components: {0, 1}, {2, 3, 4}, {5}
    let ids: Vec<isize> = vec![0, 0, 1, 1, 1, 2];
    // pairs (1, 2), (4, 5) and (5, 0) lie in different components;
    // (5, 0) has the smaller id 0, which (1, 2) took already
    assert_eq!(ring_pairs_to_join(&ids, 3), vec![1, 4]);
    assert!(ring_pairs_to_join(&vec![0, 0, 0], 1).is_empty());
    assert!(ring_pairs_to_join(&Vec::new(), 0).is_empty());
}

#[test]
fn ensemble_iterations_match_graph() {
    let rng = Pcg64::seed_from_u64(31);
    let e = ErEnsembleM::<EmptyNode, Pcg64>::new(12, 14, rng);
    let mut from_ensemble = Vec::new();
    let mut it = GraphIterators::dfs_with_index(&e, 0);
    while let Some((i, _)) = it.next() {
        from_ensemble.push(i);
    }
    assert_eq!(from_ensemble, e.graph().dfs_order(0));

    let mut bfs = GraphIterators::bfs_index_depth(&e, 3);
    let mut pairs = Vec::new();
    while let Some((i, _, d)) = bfs.next() {
        pairs.push((i, d));
    }
    let expected: Vec<(usize, usize)> = e.graph().bfs_index_depth(3).iter().map(|(i, _, d)| (*i, *d)).collect();
    assert_eq!(pairs, expected);

    let mut count = 0;
    let mut dfs = GraphIterators::dfs(&e, 5);
    while dfs.next().is_some() {
        count += 1;
    }
    assert_eq!(count, e.graph().dfs_order(5).len());

    assert_eq!(GraphIterators::contained_iter(&e).len(), 12);
    assert_eq!(GraphIterators::container_iter(&e).len(), 12);
    assert_eq!(GraphIterators::contained_iter_neighbors(&e, 2).len(), e.graph().container(2).degree());
    let nb: Vec<usize> = GraphIterators::contained_iter_neighbors_with_index(&e, 2).iter().map(|p| p.0).collect();
    assert_eq!(nb, e.graph().container(2).neighbors());
    assert_eq!(GraphIterators::container_iter_neighbors(&e, 2).len(), nb.len());
}

#[test]
fn ensemble_measures_match_graph() {
    let rng = Pcg64::seed_from_u64(77);
    let e = ErEnsembleM::<EmptyNode, Pcg64>::new(20, 26, rng);
    let g = e.graph();
    assert_eq!(MeasurableGraphQuantities::vertex_count(&e), 20);
    assert_eq!(MeasurableGraphQuantities::edge_count(&e), 26);
    for i in 0..21 {
        assert_eq!(MeasurableGraphQuantities::degree(&e, i), g.degree(i));
        assert_eq!(MeasurableGraphQuantities::longest_shortest_path_from_index(&e, i), g.longest_shortest_path_from_index(i));
    }
    assert_eq!(MeasurableGraphQuantities::connected_components(&e), g.connected_components());
    assert_eq!(MeasurableGraphQuantities::diameter(&e), g.diameter());
    assert_eq!(MeasurableGraphQuantities::is_connected(&e), g.is_connected());
    assert_eq!(MeasurableGraphQuantities::leaf_count(&e), g.leaf_count());
    for q in 0..5 {
        assert_eq!(MeasurableGraphQuantities::q_core(&e, q), g.q_core(q));
    }
    let sizes: usize = MeasurableGraphQuantities::connected_components(&e).iter().sum();
    assert_eq!(sizes, 20);
}

#[test]
fn ensembles_lend_their_graph() {
    let e = ErEnsembleM::<EmptyNode, Pcg64>::new(10, 12, Pcg64::seed_from_u64(5));
    let by_ref: &Graph<EmptyNode> = e.as_ref();
    let by_borrow: &Graph<EmptyNode> = e.borrow();
    assert_eq!(by_ref.edge_count(), 12);
    assert_eq!(by_borrow.edge_count(), e.graph().edge_count());
    for i in 0..10 {
        assert_eq!(by_ref.container(i).neighbors(), e.graph().container(i).neighbors());
    }
    let mut source = Graph::<EmptyNode>::new(3);
    source.add_edge(0, 1).unwrap();
    source.add_edge(1, 2).unwrap();
    source.add_edge(2, 0).unwrap();
    let ba = BAensemble::<EmptyNode, Pcg64>::new_from_graph(20, Pcg64::seed_from_u64(6), 2, &source);
    let g: &Graph<EmptyNode> = ba.as_ref();
    let h: &Graph<EmptyNode> = ba.borrow();
    assert_eq!(g.vertex_count(), 20);
    assert_eq!(g.edge_count(), h.edge_count());
    assert_eq!(g.edge_count(), 3 + 17 * 2);
}

#[test]
fn ensembles_sort_their_adjacency_lists() {
    let mut e = ErEnsembleM::<EmptyNode, Pcg64>::new(15, 30, Pcg64::seed_from_u64(11));
    let before = edge_list(&e);
    e.sort_adj();
    assert_eq!(edge_list(&e), before);
    for i in 0..15 {
        let nb = e.graph().container(i).neighbors();
        assert!(nb.windows(2).all(|w| w[0] <= w[1]));
    }
    let mut source = Graph::<EmptyNode>::new(3);
    source.add_edge(0, 1).unwrap();
    source.add_edge(1, 2).unwrap();
    source.add_edge(2, 0).unwrap();
    let mut ba = BAensemble::<EmptyNode, Pcg64>::new_from_graph(25, Pcg64::seed_from_u64(12), 2, &source);
    let edges = ba.graph().edge_count();
    ba.sort_adj();
    assert_eq!(ba.graph().edge_count(), edges);
    for i in 0..25 {
        let nb = ba.graph().container(i).neighbors();
        assert!(nb.windows(2).all(|w| w[0] <= w[1]));
    }
}
