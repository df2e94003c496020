//! Searches over both graphs of a [`DualGraph`] that hand out one vertex per call of
//! `next`, in depth first or breadth first order.
use vstd::prelude::*;
use crate::traits::AdjContainer;
use crate::dual_adj::{AdjTrait, DualIndex};
use crate::dual_graph::DualGraph;
use crate::search::{DfsState, lists_component, dfs_linked, is_dfs_order};
use crate::bfs::{BfsState, bfs_result};

verus! {

/// Depth first search over both graphs of a dual graph, handing out the index of each
/// vertex together with the graph it belongs to
pub struct DfsDualIndex<'a, ADJ, T1, A1, T2, A2> {
    graph: &'a DualGraph<ADJ, T1, A1, T2, A2>,
    state: DfsState,
}

impl<'a, ADJ: AdjTrait, T1, A1: AdjContainer<T1>, T2, A2: AdjContainer<T2>> DfsDualIndex<
    'a,
    ADJ,
    T1,
    A1,
    T2,
    A2,
> {
    /// the dual graph is well formed and the search belongs to it
    pub closed spec fn iter_wf(&self) -> bool {
        self.graph.wf() && self.state.dfs_inv(self.graph.dual_adj())
    }

    /// the dual graph searched
    pub closed spec fn spec_graph(&self) -> DualGraph<ADJ, T1, A1, T2, A2> {
        *self.graph
    }

    /// the vertex of the joint graph the search began at
    pub closed spec fn start(&self) -> usize {
        self.state.start()
    }

    /// the vertices of the joint graph handed out so far
    pub closed spec fn visited(&self) -> Seq<usize> {
        self.state.emitted()
    }

    /// a depth first search beginning at vertex `index`; it reaches nothing if `index`
    /// is out of bounds
    pub fn new(graph: &'a DualGraph<ADJ, T1, A1, T2, A2>, index: DualIndex) -> (r: Self)
        requires
            graph.wf(),
        ensures
            r.iter_wf(),
            r.spec_graph() == *graph,
            r.start() == graph.encode(index),
            r.visited() == Seq::<usize>::empty(),
    {
        let start = graph.encode_index(index);
        DfsDualIndex { graph, state: DfsState::new(graph, start) }
    }

    /// the next vertex in depth first search order; `None` once every vertex that the
    /// start reaches, in either graph, was handed out, each once
    pub fn next(&mut self) -> (r: Option<DualIndex>)
        requires
            old(self).iter_wf(),
        ensures
            final(self).iter_wf(),
            final(self).spec_graph() == old(self).spec_graph(),
            final(self).start() == old(self).start(),
            r is None ==> final(self).visited() == old(self).visited() && lists_component(
                old(self).spec_graph().dual_adj(),
                old(self).start(),
                old(self).visited(),
            ),
            r matches Some(x) ==> old(self).spec_graph().valid_index(x) && final(self).visited() == old(
                self,
            ).visited().push(old(self).spec_graph().encode(x)),
            dfs_linked(old(self).spec_graph().dual_adj(), final(self).visited()),
            is_dfs_order(old(self).spec_graph().dual_adj(), final(self).visited()),
    {
        match self.state.step(self.graph) {
            Some(v) => {
                proof {
                    self.state.lemma_emitted(self.graph.dual_adj());
                    assert(self.state.emitted()[self.state.emitted().len() - 1] == v);
                }
                Some(self.graph.decode_index(v))
            },
            None => None,
        }
    }
}

/// Depth first search over both graphs of a dual graph whose vertices hold the same type,
/// handing out what the vertices hold
pub struct DfsDualContained<'a, ADJ, T, A1, A2> {
    graph: &'a DualGraph<ADJ, T, A1, T, A2>,
    state: DfsState,
}

impl<'a, ADJ: AdjTrait, T, A1: AdjContainer<T>, A2: AdjContainer<T>> DfsDualContained<'a, ADJ, T, A1, A2> {
    /// the dual graph is well formed and the search belongs to it
    pub closed spec fn iter_wf(&self) -> bool {
        self.graph.wf() && self.state.dfs_inv(self.graph.dual_adj())
    }

    /// the dual graph searched
    pub closed spec fn spec_graph(&self) -> DualGraph<ADJ, T, A1, T, A2> {
        *self.graph
    }

    /// the vertex of the joint graph the search began at
    pub closed spec fn start(&self) -> usize {
        self.state.start()
    }

    /// the vertices of the joint graph handed out so far
    pub closed spec fn visited(&self) -> Seq<usize> {
        self.state.emitted()
    }

    /// a depth first search beginning at vertex `index`; it reaches nothing if `index`
    /// is out of bounds
    pub fn new(graph: &'a DualGraph<ADJ, T, A1, T, A2>, index: DualIndex) -> (r: Self)
        requires
            graph.wf(),
        ensures
            r.iter_wf(),
            r.spec_graph() == *graph,
            r.start() == graph.encode(index),
            r.visited() == Seq::<usize>::empty(),
    {
        let start = graph.encode_index(index);
        DfsDualContained { graph, state: DfsState::new(graph, start) }
    }

    /// what the next vertex in depth first search order holds; `None` once every vertex
    /// that the start reaches, in either graph, was handed out, each once
    pub fn next(&mut self) -> (r: Option<&'a T>)
        requires
            old(self).iter_wf(),
        ensures
            final(self).iter_wf(),
            final(self).spec_graph() == old(self).spec_graph(),
            final(self).start() == old(self).start(),
            r is None ==> final(self).visited() == old(self).visited() && lists_component(
                old(self).spec_graph().dual_adj(),
                old(self).start(),
                old(self).visited(),
            ),
            r matches Some(x) ==> final(self).visited().drop_last() == old(self).visited()
                && final(self).visited().len() == old(self).visited().len() + 1
                && *x == old(self).spec_graph().dual_contained(final(self).visited().last() as int),
            dfs_linked(old(self).spec_graph().dual_adj(), final(self).visited()),
            is_dfs_order(old(self).spec_graph().dual_adj(), final(self).visited()),
    {
        let ghost v0 = self.state.emitted();
        match self.state.step(self.graph) {
            Some(v) => {
                proof {
                    self.state.lemma_emitted(self.graph.dual_adj());
                    assert(self.state.emitted()[self.state.emitted().len() - 1] == v);
                    assert(self.state.emitted().drop_last() =~= v0);
                }
                Some(self.graph.at_dual(v))
            },
            None => None,
        }
    }
}

/// Breadth first search over both graphs of a dual graph, handing out the index of each
/// vertex with the graph it belongs to, and its depth
pub struct BfsDualIndex<'a, ADJ, T1, A1, T2, A2> {
    graph: &'a DualGraph<ADJ, T1, A1, T2, A2>,
    state: BfsState,
}

impl<'a, ADJ: AdjTrait, T1, A1: AdjContainer<T1>, T2, A2: AdjContainer<T2>> BfsDualIndex<
    'a,
    ADJ,
    T1,
    A1,
    T2,
    A2,
> {
    /// the dual graph is well formed and the search belongs to it
    pub closed spec fn iter_wf(&self) -> bool {
        self.graph.wf() && self.state.bfs_inv(self.graph.dual_adj())
    }

    /// the dual graph searched
    pub closed spec fn spec_graph(&self) -> DualGraph<ADJ, T1, A1, T2, A2> {
        *self.graph
    }

    /// the vertex of the joint graph the search began at
    pub closed spec fn start(&self) -> usize {
        self.state.start()
    }

    /// the pairs `(vertex of the joint graph, depth)` handed out so far
    pub closed spec fn visited(&self) -> Seq<(usize, usize)> {
        self.state.emitted()
    }

    /// a breadth first search beginning at vertex `index`; it reaches nothing if `index`
    /// is out of bounds
    pub fn new(graph: &'a DualGraph<ADJ, T1, A1, T2, A2>, index: DualIndex) -> (r: Self)
        requires
            graph.wf(),
        ensures
            r.iter_wf(),
            r.spec_graph() == *graph,
            r.start() == graph.encode(index),
            r.visited() == Seq::<(usize, usize)>::empty(),
    {
        let start = graph.encode_index(index);
        BfsDualIndex { graph, state: BfsState::new(graph, start) }
    }

    /// starts the search over, now at vertex `index`
    pub fn reuse(&mut self, index: DualIndex)
        requires
            old(self).iter_wf(),
        ensures
            final(self).iter_wf(),
            final(self).spec_graph() == old(self).spec_graph(),
            final(self).start() == old(self).spec_graph().encode(index),
            final(self).visited() == Seq::<(usize, usize)>::empty(),
    {
        let start = self.graph.encode_index(index);
        self.state = BfsState::new(self.graph, start);
    }

    /// the next vertex in breadth first search order with its depth, the number of edges
    /// on a shortest path from the start; `None` once every vertex that the start
    /// reaches, in either graph, was handed out, each once
    pub fn next(&mut self) -> (r: Option<(DualIndex, usize)>)
        requires
            old(self).iter_wf(),
        ensures
            final(self).iter_wf(),
            final(self).spec_graph() == old(self).spec_graph(),
            final(self).start() == old(self).start(),
            r is None ==> final(self).visited() == old(self).visited() && bfs_result(
                old(self).spec_graph().dual_adj(),
                old(self).start(),
                old(self).visited(),
            ),
            r matches Some(p) ==> old(self).spec_graph().valid_index(p.0) && final(self).visited() == old(
                self,
            ).visited().push((old(self).spec_graph().encode(p.0), p.1)),
    {
        match self.state.step(self.graph) {
            Some(p) => {
                proof {
                    self.state.lemma_emitted(self.graph.dual_adj());
                    assert(self.state.emitted()[self.state.emitted().len() - 1] == p);
                }
                Some((self.graph.decode_index(p.0), p.1))
            },
            None => None,
        }
    }
}

} // verus!
