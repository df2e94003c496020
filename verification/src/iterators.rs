//! Searches over a [`GenericGraph`] that hand out one vertex per call of `next`,
//! in depth first or breadth first order.
use vstd::prelude::*;
use crate::traits::AdjContainer;
use crate::generic_graph::GenericGraph;
use crate::search::{DfsState, Searchable, lists_component, dfs_linked, is_dfs_order};
use crate::bfs::{BfsState, bfs_result};
use crate::qcore::{InducedGraph, induced_graph, is_induced, alive};
use crate::graph_spec::reachable;

verus! {

/// Depth first search over a graph, handing out what the vertices hold
pub struct Dfs<'a, T, A> {
    graph: &'a GenericGraph<T, A>,
    state: DfsState,
}

impl<'a, T, A: AdjContainer<T>> Dfs<'a, T, A> {
    /// the graph is well formed and the search belongs to it
    pub closed spec fn iter_wf(&self) -> bool {
        self.graph.wf() && self.state.dfs_inv(self.graph.spec_adj())
    }

    /// the graph searched
    pub closed spec fn spec_graph(&self) -> GenericGraph<T, A> {
        *self.graph
    }

    /// the vertex the search began at
    pub closed spec fn start(&self) -> usize {
        self.state.start()
    }

    /// the indices of the vertices handed out so far
    pub closed spec fn visited(&self) -> Seq<usize> {
        self.state.emitted()
    }

    /// a depth first search beginning at vertex `index`; it reaches nothing if `index`
    /// is out of bounds
    pub fn new(graph: &'a GenericGraph<T, A>, index: usize) -> (r: Self)
        requires
            graph.wf(),
        ensures
            r.iter_wf(),
            r.spec_graph() == *graph,
            r.start() == index,
            r.visited() == Seq::<usize>::empty(),
    {
        Dfs { graph, state: DfsState::new(graph, index) }
    }

    /// what the next vertex in depth first search order holds; `None` once every vertex
    /// that the start reaches was handed out, each once
    pub fn next(&mut self) -> (r: Option<&'a T>)
        requires
            old(self).iter_wf(),
        ensures
            final(self).iter_wf(),
            final(self).spec_graph() == old(self).spec_graph(),
            final(self).start() == old(self).start(),
            r is None ==> final(self).visited() == old(self).visited() && lists_component(
                old(self).spec_graph().spec_adj(),
                old(self).start(),
                old(self).visited(),
            ),
            r matches Some(x) ==> final(self).visited().drop_last() == old(self).visited()
                && final(self).visited().len() == old(self).visited().len() + 1
                && *x == old(self).spec_graph().spec_contained()[final(self).visited().last() as int],
            dfs_linked(old(self).spec_graph().spec_adj(), final(self).visited()),
            is_dfs_order(old(self).spec_graph().spec_adj(), final(self).visited()),
    {
        let ghost v0 = self.state.emitted();
        match self.state.step(self.graph) {
            Some(v) => {
                proof {
                    self.state.lemma_emitted(self.graph.spec_adj());
                    assert(self.state.emitted()[self.state.emitted().len() - 1] == v);
                    assert(self.state.emitted().drop_last() =~= v0);
                }
                Some(self.graph.at(v))
            },
            None => None,
        }
    }
}

/// Depth first search over a graph, handing out the index of each vertex with what it holds
pub struct DfsWithIndex<'a, T, A> {
    graph: &'a GenericGraph<T, A>,
    state: DfsState,
}

impl<'a, T, A: AdjContainer<T>> DfsWithIndex<'a, T, A> {
    /// the graph is well formed and the search belongs to it
    pub closed spec fn iter_wf(&self) -> bool {
        self.graph.wf() && self.state.dfs_inv(self.graph.spec_adj())
    }

    /// the graph searched
    pub closed spec fn spec_graph(&self) -> GenericGraph<T, A> {
        *self.graph
    }

    /// the vertex the search began at
    pub closed spec fn start(&self) -> usize {
        self.state.start()
    }

    /// the indices of the vertices handed out so far
    pub closed spec fn visited(&self) -> Seq<usize> {
        self.state.emitted()
    }

    /// a depth first search beginning at vertex `index`; it reaches nothing if `index`
    /// is out of bounds
    pub fn new(graph: &'a GenericGraph<T, A>, index: usize) -> (r: Self)
        requires
            graph.wf(),
        ensures
            r.iter_wf(),
            r.spec_graph() == *graph,
            r.start() == index,
            r.visited() == Seq::<usize>::empty(),
    {
        DfsWithIndex { graph, state: DfsState::new(graph, index) }
    }

    /// the next vertex in depth first search order with what it holds; `None` once every
    /// vertex that the start reaches was handed out, each once
    pub fn next(&mut self) -> (r: Option<(usize, &'a T)>)
        requires
            old(self).iter_wf(),
        ensures
            final(self).iter_wf(),
            final(self).spec_graph() == old(self).spec_graph(),
            final(self).start() == old(self).start(),
            r is None ==> final(self).visited() == old(self).visited() && lists_component(
                old(self).spec_graph().spec_adj(),
                old(self).start(),
                old(self).visited(),
            ),
            r matches Some(p) ==> final(self).visited() == old(self).visited().push(p.0)
                && *p.1 == old(self).spec_graph().spec_contained()[p.0 as int],
            dfs_linked(old(self).spec_graph().spec_adj(), final(self).visited()),
            is_dfs_order(old(self).spec_graph().spec_adj(), final(self).visited()),
    {
        match self.state.step(self.graph) {
            Some(v) => {
                proof {
                    self.state.lemma_emitted(self.graph.spec_adj());
                    assert(self.state.emitted()[self.state.emitted().len() - 1] == v);
                }
                Some((v, self.graph.at(v)))
            },
            None => None,
        }
    }
}

/// Breadth first search over a graph, handing out the index of each vertex, what it holds
/// and its depth: the number of edges on a shortest path from the start
pub struct Bfs<'a, T, A> {
    graph: &'a GenericGraph<T, A>,
    state: BfsState,
}

impl<'a, T, A: AdjContainer<T>> Bfs<'a, T, A> {
    /// the graph is well formed and the search belongs to it
    pub closed spec fn iter_wf(&self) -> bool {
        self.graph.wf() && self.state.bfs_inv(self.graph.spec_adj())
    }

    /// the graph searched
    pub closed spec fn spec_graph(&self) -> GenericGraph<T, A> {
        *self.graph
    }

    /// the vertex the search began at
    pub closed spec fn start(&self) -> usize {
        self.state.start()
    }

    /// the pairs `(index, depth)` handed out so far
    pub closed spec fn visited(&self) -> Seq<(usize, usize)> {
        self.state.emitted()
    }

    /// a breadth first search beginning at vertex `index`; it reaches nothing if `index`
    /// is out of bounds
    pub fn new(graph: &'a GenericGraph<T, A>, index: usize) -> (r: Self)
        requires
            graph.wf(),
        ensures
            r.iter_wf(),
            r.spec_graph() == *graph,
            r.start() == index,
            r.visited() == Seq::<(usize, usize)>::empty(),
    {
        Bfs { graph, state: BfsState::new(graph, index) }
    }

    /// starts the search over, now at vertex `index`
    pub fn reuse(&mut self, index: usize)
        requires
            old(self).iter_wf(),
        ensures
            final(self).iter_wf(),
            final(self).spec_graph() == old(self).spec_graph(),
            final(self).start() == index,
            final(self).visited() == Seq::<(usize, usize)>::empty(),
    {
        self.state = BfsState::new(self.graph, index);
    }

    /// the next vertex in breadth first search order as `(index, what it holds, depth)`;
    /// `None` once every vertex that the start reaches was handed out, each once
    pub fn next(&mut self) -> (r: Option<(usize, &'a T, usize)>)
        requires
            old(self).iter_wf(),
        ensures
            final(self).iter_wf(),
            final(self).spec_graph() == old(self).spec_graph(),
            final(self).start() == old(self).start(),
            r is None ==> final(self).visited() == old(self).visited() && bfs_result(
                old(self).spec_graph().spec_adj(),
                old(self).start(),
                old(self).visited(),
            ),
            r matches Some(p) ==> final(self).visited() == old(self).visited().push((p.0, p.2))
                && *p.1 == old(self).spec_graph().spec_contained()[p.0 as int],
            old(self).visited().len() == 0 ==> (r matches Some(p) ==> p.0 == old(self).start() && p.2 == 0),
    {
        match self.state.step(self.graph) {
            Some(p) => {
                proof {
                    self.state.lemma_first(self.graph.spec_adj());
                    self.state.lemma_emitted(self.graph.spec_adj());
                    assert(self.state.emitted()[self.state.emitted().len() - 1] == p);
                }
                Some((p.0, self.graph.at(p.0), p.1))
            },
            None => None,
        }
    }
}

/// Breadth first search over a graph, handing out the index of each vertex, what it holds
/// to be changed, and its depth
pub struct BfsMut<'a, T, A> {
    graph: &'a mut GenericGraph<T, A>,
    state: BfsState,
}

impl<'a, T, A: AdjContainer<T>> BfsMut<'a, T, A> {
    /// the graph is well formed and the search belongs to it
    pub closed spec fn iter_wf(&self) -> bool {
        (*self.graph).wf() && self.state.bfs_inv((*self.graph).spec_adj())
    }

    /// the graph as it is now
    pub closed spec fn spec_graph(&self) -> GenericGraph<T, A> {
        *self.graph
    }

    /// the vertex the search began at
    pub closed spec fn start(&self) -> usize {
        self.state.start()
    }

    /// the pairs `(index, depth)` handed out so far
    pub closed spec fn visited(&self) -> Seq<(usize, usize)> {
        self.state.emitted()
    }

    /// a breadth first search beginning at vertex `index`; it reaches nothing if `index`
    /// is out of bounds
    pub fn new(graph: &'a mut GenericGraph<T, A>, index: usize) -> (r: Self)
        requires
            old(graph).wf(),
        ensures
            r.iter_wf(),
            r.spec_graph() == *old(graph),
            r.start() == index,
            r.visited() == Seq::<(usize, usize)>::empty(),
    {
        let state = BfsState::new(&*graph, index);
        BfsMut { graph, state }
    }

    /// the next vertex in breadth first search order as `(index, what it holds, depth)`,
    /// what it holds handed out to be changed; `None` once every vertex that the start
    /// reaches was handed out, each once. The edges stay as they are.
    pub fn next(&mut self) -> (r: Option<(usize, &mut T, usize)>)
        requires
            old(self).iter_wf(),
        ensures
            final(self).iter_wf(),
            final(self).spec_graph().spec_adj() == old(self).spec_graph().spec_adj(),
            final(self).start() == old(self).start(),
            r is None ==> final(self).visited() == old(self).visited() && bfs_result(
                old(self).spec_graph().spec_adj(),
                old(self).start(),
                old(self).visited(),
            ),
            r matches Some(p) ==> final(self).visited() == old(self).visited().push((p.0, p.2))
                && *p.1 == old(self).spec_graph().spec_contained()[p.0 as int],
            r is None ==> final(self).spec_graph() == old(self).spec_graph(),
            r matches Some(p) ==> final(self).spec_graph().spec_contained() == old(self).spec_graph().spec_contained().update(
                p.0 as int,
                *final(p.1),
            ),
    {
        match self.state.step(&*self.graph) {
            Some(p) => {
                proof {
                    self.state.lemma_emitted((*self.graph).spec_adj());
                    assert(self.state.emitted()[self.state.emitted().len() - 1] == p);
                }
                Some((p.0, self.graph.at_mut(p.0), p.1))
            },
            None => None,
        }
    }
}

impl<T, A: AdjContainer<T>> GenericGraph<T, A> {
    /// # Breadth first search, handing out what the vertices hold to be changed
    /// * triples `(index, what the vertex holds, depth)` beginning with vertex `index`
    /// * reaches nothing if `index` is out of bounds
    pub fn bfs_index_depth_mut(&mut self, index: usize) -> (r: BfsMut<'_, T, A>)
        requires
            old(self).wf(),
        ensures
            r.iter_wf(),
            r.spec_graph() == *old(self),
            r.start() == index,
            r.visited() == Seq::<(usize, usize)>::empty(),
    {
        BfsMut::new(self, index)
    }
}

/// Breadth first search over the vertices that a filter keeps: it only walks edges
/// between kept vertices, and hands out the index of each vertex it reaches, what the
/// vertex holds and its depth, the number of edges on a shortest path through kept vertices
pub struct BfsFiltered<'a, T, A> {
    graph: &'a GenericGraph<T, A>,
    induced: InducedGraph,
    keep: Vec<usize>,
    state: BfsState,
}

impl<'a, T, A: AdjContainer<T>> BfsFiltered<'a, T, A> {
    /// the graph is well formed and the search runs over the graph that the kept
    /// vertices induce
    pub closed spec fn iter_wf(&self) -> bool {
        &&& self.graph.wf()
        &&& self.induced.searchable()
        &&& self.keep@.len() == self.graph.spec_vertex_count()
        &&& is_induced(self.graph.spec_adj(), alive(self.keep@), self.induced.view_adj())
        &&& self.state.bfs_inv(self.induced.view_adj())
    }

    /// the graph searched
    pub closed spec fn spec_graph(&self) -> GenericGraph<T, A> {
        *self.graph
    }

    /// the vertices the filter keeps
    pub closed spec fn kept(&self) -> Set<usize> {
        alive(self.keep@)
    }

    /// the adjacency lists of the graph that the kept vertices induce
    pub closed spec fn spec_filtered_adj(&self) -> Seq<Seq<usize>> {
        self.induced.view_adj()
    }

    /// the vertex the search began at
    pub closed spec fn start(&self) -> usize {
        self.state.start()
    }

    /// the pairs `(index, depth)` handed out so far
    pub closed spec fn visited(&self) -> Seq<(usize, usize)> {
        self.state.emitted()
    }

    /// the search met vertex `index`: it was handed out or waits to be
    pub closed spec fn met(&self, index: usize) -> bool {
        self.state.seen(index)
    }

    /// whether the search met vertex `index` yet; a vertex met may still wait to be
    /// handed out
    pub fn is_handled(&self, index: usize) -> (r: bool)
        requires
            self.iter_wf(),
            index < self.spec_graph().spec_vertex_count(),
        ensures
            r == self.met(index),
            r ==> reachable(self.spec_filtered_adj(), self.start(), index),
            forall|k: int| 0 <= k < self.visited().len() ==> #[trigger] self.met(self.visited()[k].0),
    {
        proof {
            self.state.lemma_seen(self.induced.view_adj());
        }
        self.state.is_handled(index)
    }

    /// # Reuse the search, starting at vertex `index`
    /// * `Err` with the search unchanged if `index` is out of bounds or the filter
    /// does not keep it
    pub fn reuse(self, index: usize) -> (r: Result<Self, Self>)
        requires
            self.iter_wf(),
        ensures
            r is Ok <==> (index < self.spec_graph().spec_vertex_count() && self.kept().contains(index)),
            r matches Ok(it) ==> it.iter_wf() && it.spec_graph() == self.spec_graph() && it.kept() == self.kept()
                && it.spec_filtered_adj() == self.spec_filtered_adj() && it.start() == index && it.visited()
                == Seq::<(usize, usize)>::empty(),
            r matches Err(it) ==> it == self,
    {
        let n = self.graph.vertex_count();
        if index >= n || self.keep[index] == 0 {
            return Err(self);
        }
        let BfsFiltered { graph, induced, keep, state: _ } = self;
        let state = BfsState::new(&induced, index);
        Ok(BfsFiltered { graph, induced, keep, state })
    }

    /// the next vertex in breadth first search order as `(index, what it holds, depth)`;
    /// `None` once every vertex that the start reaches through kept vertices was handed
    /// out, each once
    pub fn next(&mut self) -> (r: Option<(usize, &'a T, usize)>)
        requires
            old(self).iter_wf(),
        ensures
            final(self).iter_wf(),
            final(self).spec_graph() == old(self).spec_graph(),
            final(self).kept() == old(self).kept(),
            final(self).spec_filtered_adj() == old(self).spec_filtered_adj(),
            final(self).start() == old(self).start(),
            r is None ==> final(self).visited() == old(self).visited() && bfs_result(
                old(self).spec_filtered_adj(),
                old(self).start(),
                old(self).visited(),
            ),
            r matches Some(p) ==> final(self).visited() == old(self).visited().push((p.0, p.2))
                && *p.1 == old(self).spec_graph().spec_contained()[p.0 as int],
            old(self).visited().len() == 0 ==> (r matches Some(p) ==> p.0 == old(self).start() && p.2 == 0),
    {
        match self.state.step(&self.induced) {
            Some(p) => {
                proof {
                    self.state.lemma_first(self.induced.view_adj());
                    self.state.lemma_emitted(self.induced.view_adj());
                    assert(self.state.emitted()[self.state.emitted().len() - 1] == p);
                }
                Some((p.0, self.graph.at(p.0), p.1))
            },
            None => None,
        }
    }
}

impl<T, A: AdjContainer<T>> GenericGraph<T, A> {
    /// # Breadth first search that ignores vertices
    /// * like [`GenericGraph::bfs_index_depth`], but it only walks through the vertices
    /// for which `filter(what the vertex holds, index of the vertex)` is true
    /// * `None` if `index` is out of bounds or the filter does not keep it
    /// * the filter is asked once per vertex
    pub fn bfs_filtered<F: Fn(&T, usize) -> bool>(&self, index: usize, filter: F) -> (r: Option<
        BfsFiltered<'_, T, A>,
    >)
        requires
            self.wf(),
            forall|t: &T, i: usize| filter.requires((t, i)),
        ensures
            r is None ==> index >= self.spec_vertex_count() || filter.ensures(
                (&self.spec_contained()[index as int], index),
                false,
            ),
            r matches Some(it) ==> {
                &&& it.iter_wf()
                &&& it.spec_graph() == *self
                &&& index < self.spec_vertex_count()
                &&& it.kept().contains(index)
                &&& forall|v: usize|
                    v < self.spec_vertex_count() ==> filter.ensures(
                        (&self.spec_contained()[v as int], v),
                        #[trigger] it.kept().contains(v),
                    )
                &&& is_induced(self.spec_adj(), it.kept(), it.spec_filtered_adj())
                &&& it.start() == index
                &&& it.visited() == Seq::<(usize, usize)>::empty()
                &&& forall|v: usize| v < self.spec_vertex_count() ==> (#[trigger] it.met(v) <==> v == index)
            },
    {
        let n = self.vertex_count();
        if index >= n {
            return None;
        }
        let mut keep: Vec<usize> = Vec::with_capacity(n);
        let mut v: usize = 0;
        while v < n
            invariant
                self.wf(),
                n == self.spec_vertex_count(),
                forall|t: &T, i: usize| filter.requires((t, i)),
                v <= n,
                keep@.len() == v,
                forall|w: int| 0 <= w < v ==> #[trigger] keep@[w] <= 1,
                forall|w: int|
                    0 <= w < v ==> filter.ensures((&self.spec_contained()[w], w as usize), #[trigger] keep@[w] == 1),
            decreases n - v,
        {
            let k = filter(self.at(v), v);
            keep.push(if k {
                1
            } else {
                0
            });
            v = v + 1;
        }
        if keep[index] == 0 {
            return None;
        }
        let induced = induced_graph(self, &keep);
        let state = BfsState::new(&induced, index);
        let r = BfsFiltered { graph: self, induced, keep, state };
        proof {
            assert forall|w: usize| w < n implies filter.ensures(
                (&self.spec_contained()[w as int], w),
                #[trigger] r.kept().contains(w),
            ) by {
                assert(r.kept().contains(w) <==> keep@[w as int] == 1);
            }
        }
        Some(r)
    }
}

} // verus!
