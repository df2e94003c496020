//! Depth first search that hands out what the vertices hold, to be changed
use vstd::prelude::*;
use crate::traits::AdjContainer;
use crate::generic_graph::GenericGraph;
use crate::search::{lists_component, dfs_linked, is_dfs_order};
use crate::graph_spec::lemma_reachable_bounds;

verus! {

/// Depth first search over a graph, handing out what the vertices hold to be changed,
/// one vertex at a time
pub struct DfsMut<'a, T, A> {
    graph: &'a mut GenericGraph<T, A>,
    order: Vec<usize>,
    pos: usize,
}

impl<'a, T, A: AdjContainer<T>> DfsMut<'a, T, A> {
    /// the graph is well formed and every vertex of the order is one of its vertices
    pub closed spec fn dfs_wf(&self) -> bool {
        &&& (*self.graph).wf()
        &&& forall|k: int| 0 <= k < self.order@.len() ==> #[trigger] self.order@[k] < (*self.graph).spec_vertex_count()
        &&& self.pos <= self.order@.len()
    }

    /// the graph as it is now
    pub closed spec fn spec_graph(&self) -> GenericGraph<T, A> {
        *self.graph
    }

    /// the vertices still to come, in depth first search order
    pub closed spec fn remaining(&self) -> Seq<usize> {
        self.order@.skip(self.pos as int)
    }

    /// what the vertex the search reaches next holds, to be changed; `None` when the
    /// search is through
    pub fn next(&mut self) -> (r: Option<&mut T>)
        requires
            old(self).dfs_wf(),
        ensures
            final(self).dfs_wf(),
            final(self).spec_graph().spec_adj() == old(self).spec_graph().spec_adj(),
            old(self).remaining().len() == 0 ==> r.is_none() && final(self).remaining() == old(self).remaining(),
            old(self).remaining().len() > 0 ==> (r matches Some(x) && *x == old(self).spec_graph().spec_contained()[old(
                self,
            ).remaining()[0] as int]),
            old(self).remaining().len() > 0 ==> final(self).remaining() == old(self).remaining().drop_first(),
            r is None ==> final(self).spec_graph() == old(self).spec_graph(),
            r matches Some(x) ==> final(self).spec_graph().spec_contained() == old(self).spec_graph().spec_contained().update(
                old(self).remaining()[0] as int,
                *final(x),
            ),
    {
        if self.pos < self.order.len() {
            let v = self.order[self.pos];
            self.pos = self.pos + 1;
            Some(self.graph.at_mut(v))
        } else {
            None
        }
    }
}

impl<T, A: AdjContainer<T>> GenericGraph<T, A> {
    /// # Depth first search, handing out what the vertices hold to be changed
    /// * the vertices come in depth first search order, beginning with vertex `index`
    /// * Will only reach vertices within the connected component that contains vertex `index`
    /// * reaches nothing if index out of bounds
    pub fn dfs_mut(&mut self, index: usize) -> (r: DfsMut<'_, T, A>)
        requires
            old(self).wf(),
        ensures
            r.dfs_wf(),
            r.spec_graph() == *old(self),
            lists_component(old(self).spec_adj(), index, r.remaining()),
            dfs_linked(old(self).spec_adj(), r.remaining()),
            is_dfs_order(old(self).spec_adj(), r.remaining()),
    {
        let order = self.dfs_order(index);
        proof {
            assert(order@.skip(0) =~= order@);
            assert forall|k: int| 0 <= k < order@.len() implies #[trigger] order@[k] < self.spec_vertex_count() by {
                assert(order@.contains(order@[k]));
                lemma_reachable_bounds(self.spec_adj(), index, order@[k]);
            }
        }
        DfsMut { graph: self, order, pos: 0 }
    }
}

} // verus!
