//! The measures of the graph of an ensemble, called on the ensemble itself:
//! `ensemble.q_core(2)` measures the same graph as `ensemble.graph().q_core(2)`.
use vstd::prelude::*;
use crate::traits::AdjContainer;
use crate::generic_graph::GenericGraph;
use crate::graph_spec::reachable;
use crate::sampling::WithGraph;
use crate::search::component_sizes;
use crate::bfs::{is_diameter, is_eccentricity};
use crate::qcore::is_q_core;
use crate::seq_util::sorted_down;

verus! {

/// Measures of the graph of an ensemble
pub trait MeasurableGraphQuantities<T, A: AdjContainer<T>> {
    /// the graph measured
    spec fn measured_graph(&self) -> GenericGraph<T, A>;

    /// the graph measured is well formed
    spec fn measure_ready(&self) -> bool;

    /// number of neighbors of vertex `index`; `None` if there is no such vertex
    fn degree(&self, index: usize) -> (r: Option<usize>)
        requires
            self.measure_ready(),
        ensures
            index < self.measured_graph().spec_vertex_count() ==> r == Some(
                self.measured_graph().spec_adj()[index as int].len() as usize,
            ),
            index >= self.measured_graph().spec_vertex_count() ==> r.is_none(),
    ;

    /// the sizes of the connected components, the largest first
    fn connected_components(&self) -> (r: Vec<usize>)
        requires
            self.measure_ready(),
            self.measured_graph().spec_vertex_count() <= isize::MAX,
        ensures
            r@.to_multiset() == component_sizes(self.measured_graph().spec_adj()).to_multiset(),
            sorted_down(r@),
    ;

    /// the greatest number of edges on a shortest path; `None` if the graph is empty or
    /// not connected
    fn diameter(&self) -> (r: Option<usize>)
        requires
            self.measure_ready(),
        ensures
            r.is_some() <==> (self.measured_graph().spec_vertex_count() > 0 && forall|v: usize|
                v < self.measured_graph().spec_vertex_count() ==> reachable(
                    self.measured_graph().spec_adj(),
                    0,
                    v,
                )),
            r matches Some(d) ==> is_diameter(self.measured_graph().spec_adj(), d as nat),
    ;

    /// number of edges
    fn edge_count(&self) -> (r: usize)
        ensures
            r == self.measured_graph().view_edge_count(),
    ;

    /// whether every vertex can be reached from every other; `None` if there are no
    /// vertices
    fn is_connected(&self) -> (r: Option<bool>)
        requires
            self.measure_ready(),
        ensures
            self.measured_graph().spec_vertex_count() == 0 ==> r.is_none(),
            self.measured_graph().spec_vertex_count() > 0 ==> r == Some(
                forall|v: usize|
                    v < self.measured_graph().spec_vertex_count() ==> reachable(
                        self.measured_graph().spec_adj(),
                        0,
                        v,
                    ),
            ),
    ;

    /// number of vertices with exactly one neighbor
    fn leaf_count(&self) -> (r: usize)
        ensures
            r == Set::new(
                |v: usize|
                    v < self.measured_graph().spec_vertex_count()
                        && self.measured_graph().spec_adj()[v as int].len() == 1,
            ).len(),
    ;

    /// the greatest distance from vertex `index` to a vertex it reaches; `None` if there
    /// is no such vertex
    fn longest_shortest_path_from_index(&self, index: usize) -> (r: Option<usize>)
        requires
            self.measure_ready(),
        ensures
            r.is_none() <==> index >= self.measured_graph().spec_vertex_count(),
            r matches Some(d) ==> is_eccentricity(self.measured_graph().spec_adj(), index, d as nat),
    ;

    /// size of the `q`-core; `None` if `q < 2` or the graph is empty
    fn q_core(&self, q: usize) -> (r: Option<usize>)
        requires
            self.measure_ready(),
        ensures
            r.is_none() <==> (q < 2 || self.measured_graph().spec_vertex_count() == 0),
            r matches Some(size) ==> exists|k: Set<usize>|
                #[trigger] is_q_core(self.measured_graph().spec_adj(), q as nat, k) && k.finite() && k.len()
                    == size,
    ;

    /// number of vertices
    fn vertex_count(&self) -> (r: usize)
        requires
            self.measure_ready(),
        ensures
            r == self.measured_graph().spec_vertex_count(),
    ;
}

impl<T, A: AdjContainer<T>, E: WithGraph<T, GenericGraph<T, A>>> MeasurableGraphQuantities<T, A> for E {
    open spec fn measured_graph(&self) -> GenericGraph<T, A> {
        self.spec_with_graph()
    }

    open spec fn measure_ready(&self) -> bool {
        self.spec_with_graph().wf()
    }

    fn degree(&self, index: usize) -> (r: Option<usize>) {
        self.graph().degree(index)
    }

    fn connected_components(&self) -> (r: Vec<usize>) {
        self.graph().connected_components()
    }

    fn diameter(&self) -> (r: Option<usize>) {
        self.graph().diameter()
    }

    fn edge_count(&self) -> (r: usize) {
        self.graph().edge_count()
    }

    fn is_connected(&self) -> (r: Option<bool>) {
        self.graph().is_connected()
    }

    fn leaf_count(&self) -> (r: usize) {
        self.graph().leaf_count()
    }

    fn longest_shortest_path_from_index(&self, index: usize) -> (r: Option<usize>) {
        self.graph().longest_shortest_path_from_index(index)
    }

    fn q_core(&self, q: usize) -> (r: Option<usize>) {
        self.graph().q_core(q)
    }

    fn vertex_count(&self) -> (r: usize) {
        self.graph().vertex_count()
    }
}

} // verus!
