//! Searches and iterations over the graph of an ensemble, called on the ensemble itself:
//! `ensemble.dfs(0)` searches the same graph as `ensemble.graph().dfs(0)`.
use vstd::prelude::*;
use crate::traits::AdjContainer;
use crate::generic_graph::GenericGraph;
use crate::sampling::WithGraph;
use crate::iterators::{Bfs, Dfs, DfsWithIndex};

verus! {

/// Iterations over the graph of an ensemble
pub trait GraphIterators<T, G, A: AdjContainer<T>> {
    /// the graph iterated over
    spec fn iter_graph(&self) -> GenericGraph<T, A>;

    /// the ensemble and its graph are well formed
    spec fn iter_ready(&self) -> bool;

    /// what each vertex holds, in the order of the indices
    fn contained_iter<'a>(&'a self) -> (r: Vec<&'a T>) where A: 'a
        requires
            self.iter_ready(),
        ensures
            r@.len() == self.iter_graph().spec_vertex_count(),
            forall|k: int| 0 <= k < r@.len() ==> *r@[k] == self.iter_graph().spec_contained()[k],
    ;

    /// what the neighbors of vertex `index` hold, in the order of its adjacency list
    fn contained_iter_neighbors<'a>(&'a self, index: usize) -> (r: Vec<&'a T>) where A: 'a
        requires
            self.iter_ready(),
            index < self.iter_graph().spec_vertex_count(),
        ensures
            r@.len() == self.iter_graph().spec_adj()[index as int].len(),
            forall|k: int|
                0 <= k < r@.len() ==> *r@[k] == self.iter_graph().spec_contained()[self.iter_graph().spec_adj()[index as int][k] as int],
    ;

    /// the neighbors of vertex `index` with what they hold, in the order of its adjacency list
    fn contained_iter_neighbors_with_index<'a>(&'a self, index: usize) -> (r: Vec<(usize, &'a T)>) where A: 'a
        requires
            self.iter_ready(),
            index < self.iter_graph().spec_vertex_count(),
        ensures
            r@.len() == self.iter_graph().spec_adj()[index as int].len(),
            forall|k: int|
                0 <= k < r@.len() ==> r@[k].0 == self.iter_graph().spec_adj()[index as int][k] && *r@[k].1
                    == self.iter_graph().spec_contained()[r@[k].0 as int],
    ;

    /// the `AdjContainer` of each vertex, in the order of the indices
    fn container_iter<'a>(&'a self) -> (r: &'a [A]) where T: 'a
        requires
            self.iter_ready(),
        ensures
            r@ == self.iter_graph().view_vertices(),
    ;

    /// the `AdjContainer` of the neighbors of vertex `index`, in the order of its list
    fn container_iter_neighbors<'a>(&'a self, index: usize) -> (r: Vec<&'a A>) where T: 'a
        requires
            self.iter_ready(),
            index < self.iter_graph().spec_vertex_count(),
        ensures
            r@.len() == self.iter_graph().spec_adj()[index as int].len(),
            forall|k: int|
                0 <= k < r@.len() ==> *r@[k] == self.iter_graph().view_vertices()[self.iter_graph().spec_adj()[index as int][k] as int],
    ;

    /// depth first search over the graph, beginning at vertex `index`
    fn dfs(&self, index: usize) -> (r: Dfs<'_, T, A>)
        requires
            self.iter_ready(),
        ensures
            r.iter_wf(),
            r.spec_graph() == self.iter_graph(),
            r.start() == index,
            r.visited() == Seq::<usize>::empty(),
    ;

    /// depth first search over the graph with the indices, beginning at vertex `index`
    fn dfs_with_index(&self, index: usize) -> (r: DfsWithIndex<'_, T, A>)
        requires
            self.iter_ready(),
        ensures
            r.iter_wf(),
            r.spec_graph() == self.iter_graph(),
            r.start() == index,
            r.visited() == Seq::<usize>::empty(),
    ;

    /// breadth first search over the graph with indices and depths, beginning at vertex
    /// `index`
    fn bfs_index_depth(&self, index: usize) -> (r: Bfs<'_, T, A>)
        requires
            self.iter_ready(),
        ensures
            r.iter_wf(),
            r.spec_graph() == self.iter_graph(),
            r.start() == index,
            r.visited() == Seq::<(usize, usize)>::empty(),
    ;
}

impl<T, A: AdjContainer<T>, E: WithGraph<T, GenericGraph<T, A>>> GraphIterators<T, GenericGraph<T, A>, A> for E {
    open spec fn iter_graph(&self) -> GenericGraph<T, A> {
        self.spec_with_graph()
    }

    open spec fn iter_ready(&self) -> bool {
        self.spec_with_graph().wf()
    }

    fn contained_iter<'a>(&'a self) -> (r: Vec<&'a T>) where A: 'a {
        self.graph().contained_iter()
    }

    fn contained_iter_neighbors<'a>(&'a self, index: usize) -> (r: Vec<&'a T>) where A: 'a {
        self.graph().contained_iter_neighbors(index)
    }

    fn contained_iter_neighbors_with_index<'a>(&'a self, index: usize) -> (r: Vec<(usize, &'a T)>) where A: 'a {
        self.graph().contained_iter_neighbors_with_index(index)
    }

    fn container_iter<'a>(&'a self) -> (r: &'a [A]) where T: 'a {
        self.graph().container_iter()
    }

    fn container_iter_neighbors<'a>(&'a self, index: usize) -> (r: Vec<&'a A>) where T: 'a {
        self.graph().container_iter_neighbors(index)
    }

    fn dfs(&self, index: usize) -> (r: Dfs<'_, T, A>) {
        Dfs::new(self.graph(), index)
    }

    fn dfs_with_index(&self, index: usize) -> (r: DfsWithIndex<'_, T, A>) {
        DfsWithIndex::new(self.graph(), index)
    }

    fn bfs_index_depth(&self, index: usize) -> (r: Bfs<'_, T, A>) {
        Bfs::new(self.graph(), index)
    }
}

} // verus!
