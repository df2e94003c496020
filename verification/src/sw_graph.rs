//! # Topology for the small-world ensemble
//! [`SwContainer`] keeps, besides the neighbors, which edges are *rooted* at the vertex
//! and where each root edge originally pointed to.
use vstd::prelude::*;
use crate::traits::{AdjContainer, AdjList, GraphErrors, first_index, swap_removed};
use crate::generic_graph::{GenericGraph, ring_adjacent};
use crate::graph_spec::{
    adj_wf, is_edge, rewired, replaced, lemma_rewire, lemma_swap_removed, lemma_first_index_exists,
};
use crate::seq_util::{take_at, put_at, take3, put3, lemma_swap_multiset, sorted_up};
use crate::sw::SwChangeState;
use crate::generic_graph::lemma_take_two;

verus! {

/// # Edge of small world network
#[derive(Debug, Clone, Copy)]
pub struct SwEdge {
    pub(crate) to: usize,
    pub(crate) originally_to: Option<usize>,
}

impl SwEdge {
    /// the vertex the edge leads to
    pub closed spec fn spec_to(&self) -> usize {
        self.to
    }

    /// where a root edge originally led to; `None` for other edges
    pub closed spec fn spec_originally_to(&self) -> Option<usize> {
        self.originally_to
    }

    /// Where does the edge point to, i.e., to which node does it connect?
    pub fn to(&self) -> (r: &usize)
        ensures
            *r == self.spec_to(),
    {
        &self.to
    }

    /// where a root edge originally led to
    pub fn originally_to(&self) -> (r: &Option<usize>)
        ensures
            *r == self.spec_originally_to(),
    {
        &self.originally_to
    }

    /// # Is the edge a root edge?
    /// A root edge is an edge which will always be connected to the current node.
    /// Where it connects to can change, where it connects from cannot.
    pub fn is_root(&self) -> (r: bool)
        ensures
            r == self.spec_originally_to().is_some(),
    {
        self.originally_to.is_some()
    }

    /// points the root edge back to where it originally led
    fn reset(&mut self)
        requires
            old(self).originally_to.is_some(),
        ensures
            final(self).to == old(self).originally_to.unwrap(),
            final(self).originally_to == old(self).originally_to,
    {
        self.to = self.originally_to.unwrap();
    }

    /// points the edge to `other_id`
    fn rewire(&mut self, other_id: usize)
        ensures
            final(self).to == other_id,
            final(self).originally_to == old(self).originally_to,
    {
        self.to = other_id;
    }

    /// # Is the edge at its root position?
    /// This checks, if the edge still connects to where it would be reset to anyway
    pub fn is_at_root(&self) -> (r: bool)
        ensures
            r == (self.spec_originally_to() == Some(self.spec_to())),
    {
        match self.originally_to {
            Some(val) => val == self.to,
            None => false,
        }
    }

    /// # checks root edge if it is long ranging
    /// * is it a root edge and if yes, is it a long ranging root edge?
    pub fn is_long_ranging_root(&self) -> (r: bool)
        ensures
            r == (self.spec_originally_to().is_some() && self.spec_originally_to() != Some(
                self.spec_to(),
            )),
    {
        match self.originally_to {
            Some(val) => val != self.to,
            None => false,
        }
    }
}

/// the targets of a list of edges
pub open spec fn targets(s: Seq<SwEdge>) -> Seq<usize> {
    Seq::new(s.len(), |k: int| s[k].spec_to())
}

/// number of root edges in the list
pub open spec fn root_count(s: Seq<SwEdge>) -> nat
    decreases s.len(),
{
    if s.len() == 0 {
        0
    } else {
        root_count(s.drop_last()) + if s.last().spec_originally_to().is_some() {
            1nat
        } else {
            0nat
        }
    }
}

/// # Used for accessing neighbor information from graph
/// * contains Adjacency list
///  and internal id (normally the index in the graph).
/// * also contains user specified data, i.e, `T` from `SwContainer<T>`
#[derive(Debug, Clone)]
pub struct SwContainer<T> {
    pub(crate) id: usize,
    pub(crate) adj: Vec<SwEdge>,
    pub(crate) node: T,
}

impl<T> AdjList<SwEdge> for SwContainer<T> {
    closed spec fn spec_edges(&self) -> Seq<SwEdge> {
        self.adj@
    }

    fn edges(&self) -> (r: &[SwEdge]) {
        self.adj.as_slice()
    }
}

impl<T> SwContainer<T> {
    /// the position of the first edge that leads to `elem`
    fn adj_position(&self, elem: usize) -> (r: Option<usize>)
        ensures
            r is None <==> !targets(self.adj@).contains(elem),
            r matches Some(p) ==> p == first_index(targets(self.adj@), elem) && p < self.adj@.len(),
    {
        let n = self.adj.len();
        let mut k: usize = 0;
        while k < n
            invariant
                n == self.adj@.len(),
                k <= n,
                forall|q: int| 0 <= q < k ==> self.adj@[q].to != elem,
            decreases n - k,
        {
            if self.adj[k].to == elem {
                proof {
                    let t = targets(self.adj@);
                    lemma_first_index_exists(t, elem, k as int);
                    let f = first_index(t, elem);
                    if f < k {
                        assert(t[f] == self.adj@[f].to);
                    }
                }
                return Some(k);
            }
            k = k + 1;
        }
        proof {
            let t = targets(self.adj@);
            if t.contains(elem) {
                let q = choose|q: int| 0 <= q < t.len() && t[q] == elem;
                assert(self.adj@[q].to == elem);
            }
        }
        None
    }

    /// removes the first edge that leads to `elem`, by `swap_remove`
    fn swap_remove_element(&mut self, elem: usize)
        requires
            targets(old(self).adj@).contains(elem),
        ensures
            targets(final(self).adj@) == swap_removed(targets(old(self).adj@), elem),
            final(self).id == old(self).id,
            final(self).node == old(self).node,
            forall|x: SwEdge| final(self).adj@.contains(x) ==> old(self).adj@.contains(x),
    {
        let p = self.adj_position(elem).unwrap();
        let ghost s = self.adj@;
        self.adj.swap_remove(p);
        assert(targets(self.adj@) =~= swap_removed(targets(s), elem));
        assert forall|x: SwEdge| self.adj@.contains(x) implies s.contains(x) by {
            let q = choose|q: int| 0 <= q < self.adj@.len() && self.adj@[q] == x;
            if q == p {
                assert(s[s.len() - 1] == x);
            } else {
                assert(s[q] == x);
            }
        }
    }

    /// returns the indices of the neighbors
    /// * the same as `self.neighbors()`
    pub fn neighbors_sw(&self) -> (r: Vec<usize>)
        ensures
            r@ == targets(self.spec_edges()),
    {
        let n = self.adj.len();
        let mut r: Vec<usize> = Vec::with_capacity(n);
        let mut k: usize = 0;
        while k < n
            invariant
                n == self.adj@.len(),
                k <= n,
                r@ == targets(self.adj@).take(k as int),
            decreases n - k,
        {
            r.push(self.adj[k].to);
            k = k + 1;
            assert(r@ =~= targets(self.adj@).take(k as int));
        }
        assert(r@ =~= targets(self.adj@));
        r
    }

    /// Count how many root edges are contained
    pub fn count_root(&self) -> (r: usize)
        ensures
            r == root_count(self.spec_edges()),
    {
        let n = self.adj.len();
        let mut count: usize = 0;
        let mut k: usize = 0;
        while k < n
            invariant
                n == self.adj@.len(),
                k <= n,
                count <= k,
                count == root_count(self.adj@.take(k as int)),
            decreases n - k,
        {
            assert(self.adj@.take(k + 1).drop_last() =~= self.adj@.take(k as int));
            if self.adj[k].is_root() {
                count = count + 1;
            }
            k = k + 1;
        }
        assert(self.adj@.take(n as int) =~= self.adj@);
        count
    }

    /// the edges themselves
    pub(crate) fn iter_raw_edges(&self) -> (r: &[SwEdge])
        ensures
            r@ == self.adj@,
    {
        self.adj.as_slice()
    }

    /// # Add a "directed" edge, i.e., one that is not rooted here
    /// * intended for usage after `reset`
    fn push_single(&mut self, other_id: usize)
        ensures
            final(self).adj@ == old(self).adj@.push(SwEdge { to: other_id, originally_to: None }),
            final(self).id == old(self).id,
            final(self).node == old(self).node,
    {
        self.adj.push(SwEdge { to: other_id, originally_to: None });
    }

    /// bends the edge to `to_disconnect` to `to_rewire`
    fn rewire(&mut self, to_disconnect: &mut Self, to_rewire: &mut Self) -> (r: SwChangeState)
        requires
            targets(old(self).adj@).contains(old(to_disconnect).id) ==> targets(
                old(to_disconnect).adj@,
            ).contains(old(self).id),
        ensures
            final(self).id == old(self).id,
            final(to_disconnect).id == old(to_disconnect).id,
            final(to_rewire).id == old(to_rewire).id,
            final(self).node == old(self).node,
            final(to_disconnect).node == old(to_disconnect).node,
            final(to_rewire).node == old(to_rewire).node,
            !targets(old(self).adj@).contains(old(to_disconnect).id) ==> {
                &&& r == SwChangeState::InvalidAdjecency
                &&& *final(self) == *old(self)
                &&& *final(to_disconnect) == *old(to_disconnect)
                &&& *final(to_rewire) == *old(to_rewire)
            },
            targets(old(self).adj@).contains(old(to_disconnect).id) && targets(old(self).adj@).contains(
                old(to_rewire).id,
            ) ==> {
                &&& r == SwChangeState::BlockedByExistingEdge
                &&& *final(self) == *old(self)
                &&& *final(to_disconnect) == *old(to_disconnect)
                &&& *final(to_rewire) == *old(to_rewire)
            },
            targets(old(self).adj@).contains(old(to_disconnect).id) && !targets(old(self).adj@).contains(
                old(to_rewire).id,
            ) ==> {
                let p = first_index(targets(old(self).adj@), old(to_disconnect).id);
                &&& r == SwChangeState::Rewire(old(self).id, old(to_disconnect).id, old(to_rewire).id)
                &&& final(self).adj@ == old(self).adj@.update(
                    p,
                    SwEdge { to: old(to_rewire).id, originally_to: old(self).adj@[p].originally_to },
                )
                &&& targets(final(to_disconnect).adj@) == swap_removed(
                    targets(old(to_disconnect).adj@),
                    old(self).id,
                )
                &&& forall|x: SwEdge| final(to_disconnect).adj@.contains(x) ==> old(to_disconnect).adj@.contains(x)
                &&& final(to_rewire).adj@ == old(to_rewire).adj@.push(
                    SwEdge { to: old(self).id, originally_to: None },
                )
            },
    {
        let self_edge_index = self.adj_position(to_disconnect.id);
        match self_edge_index {
            None => {
                return SwChangeState::InvalidAdjecency;
            },
            Some(p) => {
                if self.is_adjacent(to_rewire.id) {
                    return SwChangeState::BlockedByExistingEdge;
                }
                let sid = self.id;
                to_disconnect.swap_remove_element(sid);
                let ghost a0 = self.adj@;
                let rid = to_rewire.id;
                self.adj[p].rewire(rid);
                assert(self.adj@ =~= a0.update(p as int, SwEdge { to: rid, originally_to: a0[p as int].originally_to }));
                to_rewire.push_single(sid);
                SwChangeState::Rewire(self.id, to_disconnect.id, to_rewire.id)
            },
        }
    }
}

impl<T> AdjContainer<T> for SwContainer<T> {
    closed spec fn spec_id(&self) -> usize {
        self.id
    }

    closed spec fn spec_adj(&self) -> Seq<usize> {
        targets(self.adj@)
    }

    closed spec fn spec_contained(&self) -> T {
        self.node
    }

    fn new(id: usize, node: T) -> (r: Self) {
        let r = SwContainer { id, node, adj: Vec::new() };
        assert(targets(r.adj@) =~= Seq::<usize>::empty());
        r
    }

    fn contained(&self) -> (r: &T) {
        &self.node
    }

    fn contained_mut(&mut self) -> (r: &mut T) {
        &mut self.node
    }

    fn neighbor_at(&self, k: usize) -> (r: usize) {
        self.adj[k].to
    }

    fn degree(&self) -> (r: usize) {
        self.adj.len()
    }

    fn id(&self) -> (r: usize) {
        self.id
    }

    fn get_adj_first(&self) -> (r: Option<&usize>) {
        if self.adj.len() == 0 {
            None
        } else {
            Some(&self.adj[0].to)
        }
    }

    fn is_adjacent(&self, other_id: usize) -> (r: bool) {
        self.adj_position(other_id).is_some()
    }

    fn sort_adj(&mut self) {
        let n = self.adj.len();
        if n == 0 {
            return ;
        }
        let mut i: usize = 1;
        while i < n
            invariant
                n == self.adj@.len(),
                1 <= i <= n,
                self.id == old(self).id,
                self.node == old(self).node,
                targets(self.adj@).to_multiset() == targets(old(self).adj@).to_multiset(),
                forall|a: int, b: int| 0 <= a < b < i ==> self.adj@[a].to <= self.adj@[b].to,
            decreases n - i,
        {
            let mut j: usize = i;
            while j > 0 && self.adj[j - 1].to > self.adj[j].to
                invariant
                    n == self.adj@.len(),
                    1 <= i < n,
                    j <= i,
                    self.id == old(self).id,
                    self.node == old(self).node,
                    targets(self.adj@).to_multiset() == targets(old(self).adj@).to_multiset(),
                    forall|a: int, b: int| 0 <= a < b <= i && b != j ==> self.adj@[a].to <= self.adj@[b].to,
                    forall|a: int, b: int| 0 <= a < j && j < b <= i ==> self.adj@[a].to <= self.adj@[b].to,
                decreases j,
            {
                let x = self.adj[j - 1];
                let y = self.adj[j];
                let ghost s = self.adj@;
                proof {
                    lemma_swap_multiset(targets(s), j - 1, j as int);
                }
                self.adj.set(j - 1, y);
                self.adj.set(j, x);
                assert(targets(self.adj@) =~= targets(s).update(j - 1, targets(s)[j as int]).update(
                    j as int,
                    targets(s)[j - 1],
                ));
                j = j - 1;
            }
            i = i + 1;
        }
    }

    fn clear_edges(&mut self) {
        self.adj.clear();
        assert(targets(self.adj@) =~= Seq::<usize>::empty());
    }

    fn push(&mut self, other: &mut Self) -> (r: Result<(), GraphErrors>) {
        if self.is_adjacent(other.id) {
            return Err(GraphErrors::EdgeExists);
        }
        let ghost s0 = self.adj@;
        let ghost o0 = other.adj@;
        // the root link
        let root_link = SwEdge { to: other.id, originally_to: Some(other.id) };
        self.adj.push(root_link);
        // the loose link
        let loose_link = SwEdge { to: self.id, originally_to: None };
        other.adj.push(loose_link);
        assert(targets(self.adj@) =~= targets(s0).push(other.id));
        assert(targets(other.adj@) =~= targets(o0).push(self.id));
        Ok(())
    }

    fn remove(&mut self, other: &mut Self) -> (r: Result<(), GraphErrors>) {
        if !self.is_adjacent(other.id) {
            return Err(GraphErrors::EdgeDoesNotExist);
        }
        let oid = other.id;
        let sid = self.id;
        self.swap_remove_element(oid);
        other.swap_remove_element(sid);
        Ok(())
    }
}

} // verus!

verus! {

/// a root edge of vertex `v` originally led to another of the `n` vertices
pub open spec fn root_ok(e: SwEdge, n: nat, v: int) -> bool {
    match e.spec_originally_to() {
        Some(o) => o < n && o != v,
        None => true,
    }
}

/// specific `GenericGraph` used for small-world ensemble
pub type SwGraph<T> = GenericGraph<T, SwContainer<T>>;

impl<T> SwContainer<T> {
    /// # Intended to reset a small world edge
    /// * If successful will return the vertex that now needs an edge to `self` **using `push_single`**
    fn reset(&mut self, other: &mut Self) -> (r: Result<usize, SwChangeState>)
        requires
            targets(old(self).adj@).contains(old(other).id) ==> targets(old(other).adj@).contains(
                old(self).id,
            ),
            targets(old(self).adj@).contains(old(other).id) ==> old(self).adj@[first_index(
                targets(old(self).adj@),
                old(other).id,
            )].originally_to.is_some(),
        ensures
            final(self).id == old(self).id,
            final(other).id == old(other).id,
            final(self).node == old(self).node,
            final(other).node == old(other).node,
            r.is_err() ==> *final(self) == *old(self) && *final(other) == *old(other),
            !targets(old(self).adj@).contains(old(other).id) ==> r == Err::<usize, SwChangeState>(
                SwChangeState::GError(GraphErrors::EdgeDoesNotExist),
            ),
            targets(old(self).adj@).contains(old(other).id) ==> {
                let p = first_index(targets(old(self).adj@), old(other).id);
                let e = old(self).adj@[p];
                let t = e.originally_to.unwrap();
                &&& e.to == t ==> r == Err::<usize, SwChangeState>(SwChangeState::Nothing)
                &&& e.to != t && targets(old(self).adj@).contains(t) ==> r == Err::<usize, SwChangeState>(
                    SwChangeState::BlockedByExistingEdge,
                )
                &&& e.to != t && !targets(old(self).adj@).contains(t) ==> {
                    &&& r == Ok::<usize, SwChangeState>(t)
                    &&& final(self).adj@ == old(self).adj@.update(p, SwEdge { to: t, originally_to: e.originally_to })
                    &&& targets(final(other).adj@) == swap_removed(targets(old(other).adj@), old(self).id)
                    &&& forall|x: SwEdge| final(other).adj@.contains(x) ==> old(other).adj@.contains(x)
                }
            },
    {
        let self_index = self.adj_position(other.id);
        if self_index.is_none() {
            return Err(GraphErrors::EdgeDoesNotExist.convert_to_sw_state());
        }
        let other_index = other.adj_position(self.id);
        let self_index = self_index.unwrap();
        let other_index = other_index.unwrap();
        let self_edge = self.adj[self_index];
        if self_edge.is_at_root() {
            Err(SwChangeState::Nothing)
        } else if self.is_adjacent(self_edge.originally_to().unwrap()) {
            Err(SwChangeState::BlockedByExistingEdge)
        } else {
            let ghost a0 = self.adj@;
            self.adj[self_index].reset();
            assert(self.adj@ =~= a0.update(self_index as int, SwEdge { to: a0[self_index as int].originally_to.unwrap(), originally_to: a0[self_index as int].originally_to }));
            let ghost o0 = other.adj@;
            other.adj.swap_remove(other_index);
            proof {
                assert(targets(other.adj@) =~= swap_removed(targets(o0), self.id));
                assert forall|x: SwEdge| other.adj@.contains(x) implies o0.contains(x) by {
                    let q = choose|q: int| 0 <= q < other.adj@.len() && other.adj@[q] == x;
                    if q == other_index {
                        assert(o0[o0.len() - 1] == x);
                    } else {
                        assert(o0[q] == x);
                    }
                }
            }
            Ok(self.adj[self_index].to)
        }
    }
}

impl<T> GenericGraph<T, SwContainer<T>> {
    /// the edges of vertex `v`
    pub open spec fn sw_edges(&self, v: int) -> Seq<SwEdge> {
        self.view_vertices()[v].spec_edges()
    }

    /// every root edge originally led to another vertex of the graph
    pub open spec fn sw_roots_valid(&self) -> bool {
        forall|v: int, k: int|
            0 <= v < self.spec_vertex_count() && 0 <= k < self.sw_edges(v).len() ==> root_ok(
                #[trigger] self.sw_edges(v)[k],
                self.spec_vertex_count(),
                v,
            )
    }

    /// the adjacency lists are the targets of the edges
    proof fn lemma_sw_adj(&self)
        ensures
            forall|v: int|
                0 <= v < self.spec_vertex_count() ==> #[trigger] self.spec_adj()[v] == targets(
                    self.sw_edges(v),
                ),
    {
    }

    /// # Reset small-world edge to its root state
    /// * the root edge `(index0, index1)` of `index0` is bent back to where it originally led
    /// * `Nothing` if it is there already, `BlockedByExistingEdge` if that edge exists already,
    /// `GError(EdgeDoesNotExist)` if there is no edge `(index0, index1)`
    pub fn reset_edge(&mut self, index0: usize, index1: usize) -> (r: SwChangeState)
        requires
            old(self).wf(),
            old(self).sw_roots_valid(),
            index0 < old(self).spec_vertex_count(),
            index1 < old(self).spec_vertex_count(),
            index0 != index1,
            old(self).spec_adj()[index0 as int].contains(index1) ==> old(self).sw_edges(
                index0 as int,
            )[first_index(old(self).spec_adj()[index0 as int], index1)].spec_originally_to().is_some(),
        ensures
            final(self).wf(),
            final(self).sw_roots_valid(),
            final(self).spec_contained() == old(self).spec_contained(),
            final(self).view_edge_count() == old(self).view_edge_count(),
            !old(self).spec_adj()[index0 as int].contains(index1) ==> r == SwChangeState::GError(
                GraphErrors::EdgeDoesNotExist,
            ) && final(self).spec_adj() == old(self).spec_adj(),
            old(self).spec_adj()[index0 as int].contains(index1) ==> {
                let p = first_index(old(self).spec_adj()[index0 as int], index1);
                let t = old(self).sw_edges(index0 as int)[p].spec_originally_to().unwrap();
                &&& t == index1 ==> r == SwChangeState::Nothing && final(self).spec_adj() == old(
                    self,
                ).spec_adj()
                &&& t != index1 && old(self).spec_adj()[index0 as int].contains(t) ==> r
                    == SwChangeState::BlockedByExistingEdge && final(self).spec_adj() == old(
                    self,
                ).spec_adj()
                &&& t != index1 && !old(self).spec_adj()[index0 as int].contains(t) ==> r
                    == SwChangeState::Reset(index0, index1, t) && final(self).spec_adj() == rewired(
                    old(self).spec_adj(),
                    index0,
                    index1,
                    t,
                )
            },
            !(r is Reset) ==> final(self).view_vertices() == old(self).view_vertices(),
    {
        let ghost g0 = *self;
        let ghost adj0 = self.spec_adj();
        proof {
            self.lemma_sw_adj();
        }
        let vs = self.vertices_mut();
        let ghost v0 = vs@;
        let (lo, hi) = if index0 < index1 {
            (index0, index1)
        } else {
            (index1, index0)
        };
        proof {
            lemma_take_two(v0, lo as int, hi as int, v0[lo as int], v0[hi as int]);
        }
        let mut c_hi = take_at(vs, hi);
        let mut c_lo = take_at(vs, lo);
        let res = if index0 < index1 {
            c_lo.reset(&mut c_hi)
        } else {
            c_hi.reset(&mut c_lo)
        };
        proof {
            lemma_take_two(v0, lo as int, hi as int, c_lo, c_hi);
        }
        put_at(vs, lo, c_lo);
        put_at(vs, hi, c_hi);
        assert(vs@ == v0.update(lo as int, c_lo).update(hi as int, c_hi));
        match res {
            Err(error) => {
                proof {
                    assert(self.view_vertices() =~= g0.view_vertices());
                    assert forall|v: int, k: int|
                        0 <= v < self.spec_vertex_count() && 0 <= k < self.sw_edges(v).len() implies root_ok(
                        #[trigger] self.sw_edges(v)[k],
                        self.spec_vertex_count(),
                        v,
                    ) by {
                        assert(self.sw_edges(v) == g0.sw_edges(v));
                    }
                }
                error
            },
            Ok(vertex_index) => {
                let ghost mid = *self;
                proof {
                    assert(mid.view_vertices() == v0.update(index0 as int, mid.view_vertices()[index0 as int]).update(
                        index1 as int,
                        mid.view_vertices()[index1 as int],
                    ));
                    let p = first_index(adj0[index0 as int], index1);
                    assert(vertex_index < g0.spec_vertex_count() && vertex_index != index0) by {
                        assert(g0.sw_edges(index0 as int)[p] == v0[index0 as int].adj@[p]);
                    }
                }
                let c = self.container_mut(vertex_index);
                c.push_single(index0);
                proof {
                    let fin = *self;
                    let p = first_index(adj0[index0 as int], index1);
                    lemma_first_index_exists(adj0[index0 as int], index1, {
                        let q = choose|q: int| 0 <= q < adj0[index0 as int].len() && adj0[index0 as int][q] == index1;
                        q
                    });
                    assert(fin.view_vertices() =~= g0.view_vertices().update(
                        index0 as int,
                        mid.view_vertices()[index0 as int],
                    ).update(index1 as int, mid.view_vertices()[index1 as int]).update(
                        vertex_index as int,
                        fin.view_vertices()[vertex_index as int],
                    ));
                    assert(fin.spec_adj() =~= rewired(adj0, index0, index1, vertex_index)) by {
                        assert forall|v: int| 0 <= v < adj0.len() implies #[trigger] fin.spec_adj()[v]
                            == rewired(adj0, index0, index1, vertex_index)[v] by {
                            if v == index0 {
                                assert(targets(fin.view_vertices()[v].adj@) =~= replaced(adj0[v], index1, vertex_index));
                            } else if v == index1 {
                            } else if v == vertex_index {
                                assert(targets(fin.view_vertices()[v].adj@) =~= adj0[v].push(index0));
                            } else {
                                assert(fin.view_vertices()[v] == g0.view_vertices()[v]);
                            }
                        }
                    }
                    lemma_rewire(adj0, index0, index1, vertex_index);
                    assert(fin.counts_agree());
                    assert forall|v: int, k: int|
                        0 <= v < fin.spec_vertex_count() && 0 <= k < fin.sw_edges(v).len() implies root_ok(
                        #[trigger] fin.sw_edges(v)[k],
                        fin.spec_vertex_count(),
                        v,
                    ) by {
                        if v == index0 {
                            if k == p {
                            } else {
                                assert(fin.sw_edges(v)[k] == g0.sw_edges(v)[k]);
                            }
                        } else if v == index1 {
                            assert(g0.sw_edges(v).contains(fin.sw_edges(v)[k]));
                            let q = choose|q: int| 0 <= q < g0.sw_edges(v).len() && g0.sw_edges(v)[q] == fin.sw_edges(v)[k];
                        } else if v == vertex_index {
                            if k < g0.sw_edges(v).len() {
                                assert(fin.sw_edges(v)[k] == g0.sw_edges(v)[k]);
                            }
                        } else {
                            assert(fin.sw_edges(v)[k] == g0.sw_edges(v)[k]);
                        }
                    }
                    assert(fin.spec_contained() =~= g0.spec_contained());
                }
                SwChangeState::Reset(index0, index1, vertex_index)
            },
        }
    }

    /// # Rewire edges
    /// * rewire edge `(index0, index1)` to `(index0, index2)`
    /// * `Nothing` if `index1 == index2`, `InvalidAdjecency` if there is no edge
    /// `(index0, index1)`, `BlockedByExistingEdge` if `(index0, index2)` exists already
    pub fn rewire_edge(&mut self, index0: usize, index1: usize, index2: usize) -> (r: SwChangeState)
        requires
            old(self).wf(),
            old(self).sw_roots_valid(),
            index0 < old(self).spec_vertex_count(),
            index1 < old(self).spec_vertex_count(),
            index2 < old(self).spec_vertex_count(),
            index0 != index1,
            index1 != index2 ==> index0 != index2,
        ensures
            final(self).wf(),
            final(self).sw_roots_valid(),
            final(self).spec_contained() == old(self).spec_contained(),
            final(self).view_edge_count() == old(self).view_edge_count(),
            index1 == index2 ==> r == SwChangeState::Nothing && final(self).spec_adj() == old(
                self,
            ).spec_adj(),
            index1 != index2 && !old(self).spec_adj()[index0 as int].contains(index1) ==> r
                == SwChangeState::InvalidAdjecency && final(self).spec_adj() == old(self).spec_adj(),
            index1 != index2 && old(self).spec_adj()[index0 as int].contains(index1) && old(
                self,
            ).spec_adj()[index0 as int].contains(index2) ==> r == SwChangeState::BlockedByExistingEdge
                && final(self).spec_adj() == old(self).spec_adj(),
            index1 != index2 && old(self).spec_adj()[index0 as int].contains(index1) && !old(
                self,
            ).spec_adj()[index0 as int].contains(index2) ==> r == SwChangeState::Rewire(
                index0,
                index1,
                index2,
            ) && final(self).spec_adj() == rewired(old(self).spec_adj(), index0, index1, index2),
            !(r is Rewire) ==> final(self).view_vertices() == old(self).view_vertices(),
            r == SwChangeState::Rewire(index0, index1, index2) ==> {
                let p = first_index(old(self).spec_adj()[index0 as int], index1);
                &&& 0 <= p < old(self).sw_edges(index0 as int).len()
                &&& final(self).sw_edges(index0 as int).len() == old(self).sw_edges(index0 as int).len()
                &&& final(self).sw_edges(index0 as int)[p].spec_to() == index2
                &&& final(self).sw_edges(index0 as int)[p].spec_originally_to() == old(self).sw_edges(
                    index0 as int,
                )[p].spec_originally_to()
                &&& forall|k: int|
                    0 <= k < old(self).sw_edges(index0 as int).len() && k != p ==> #[trigger] final(self).sw_edges(
                        index0 as int,
                    )[k] == old(self).sw_edges(index0 as int)[k]
                &&& final(self).sw_edges(index2 as int).drop_last() == old(self).sw_edges(index2 as int)
                &&& final(self).sw_edges(index2 as int).len() == old(self).sw_edges(index2 as int).len() + 1
                &&& final(self).sw_edges(index2 as int).last().spec_to() == index0
                &&& final(self).sw_edges(index2 as int).last().spec_originally_to() is None
            },
    {
        if index1 == index2 {
            return SwChangeState::Nothing;
        }
        let ghost g0 = *self;
        let ghost adj0 = self.spec_adj();
        proof {
            self.lemma_sw_adj();
        }
        let vs = self.vertices_mut();
        let ghost v0 = vs@;
        let (mut c0, mut c1, mut c2) = take3(vs, index0, index1, index2);
        proof {
            assert(c0.spec_adj() == adj0[index0 as int]);
            assert(c1.spec_adj() == adj0[index1 as int]);
            assert(adj0[index0 as int].contains(index1) ==> adj0[index1 as int].contains(index0));
        }
        let res = c0.rewire(&mut c1, &mut c2);
        put3(vs, Ghost(v0), index0, index1, index2, c0, c1, c2);
        proof {
            let fin = *self;
            assert(fin.view_vertices() == v0.update(index0 as int, c0).update(index1 as int, c1).update(
                index2 as int,
                c2,
            ));
            assert(fin.counts_agree());
            if res == SwChangeState::Rewire(index0, index1, index2) {
                let p = first_index(adj0[index0 as int], index1);
                let q = choose|q: int| 0 <= q < adj0[index0 as int].len() && adj0[index0 as int][q] == index1;
                lemma_first_index_exists(adj0[index0 as int], index1, q);
                assert(fin.spec_adj() =~= rewired(adj0, index0, index1, index2)) by {
                    assert forall|v: int| 0 <= v < adj0.len() implies #[trigger] fin.spec_adj()[v]
                        == rewired(adj0, index0, index1, index2)[v] by {
                        if v == index0 {
                            assert(targets(fin.view_vertices()[v].adj@) =~= replaced(adj0[v], index1, index2));
                        } else if v == index1 {
                        } else if v == index2 {
                            assert(targets(fin.view_vertices()[v].adj@) =~= adj0[v].push(index0));
                        } else {
                            assert(fin.view_vertices()[v] == g0.view_vertices()[v]);
                        }
                    }
                }
                lemma_rewire(adj0, index0, index1, index2);
                assert(targets(g0.sw_edges(index0 as int)) == adj0[index0 as int]);
                assert(fin.sw_edges(index2 as int).drop_last() =~= g0.sw_edges(index2 as int));
                assert forall|v: int, k: int|
                    0 <= v < fin.spec_vertex_count() && 0 <= k < fin.sw_edges(v).len() implies root_ok(
                    #[trigger] fin.sw_edges(v)[k],
                    fin.spec_vertex_count(),
                    v,
                ) by {
                    if v == index0 {
                        if k != p {
                            assert(fin.sw_edges(v)[k] == g0.sw_edges(v)[k]);
                        } else {
                            assert(root_ok(g0.sw_edges(v)[k], g0.spec_vertex_count(), v));
                        }
                    } else if v == index1 {
                        assert(g0.sw_edges(v).contains(fin.sw_edges(v)[k]));
                        let q2 = choose|q2: int| 0 <= q2 < g0.sw_edges(v).len() && g0.sw_edges(v)[q2] == fin.sw_edges(v)[k];
                    } else if v == index2 {
                        if k < g0.sw_edges(v).len() {
                            assert(fin.sw_edges(v)[k] == g0.sw_edges(v)[k]);
                        }
                    } else {
                        assert(fin.sw_edges(v)[k] == g0.sw_edges(v)[k]);
                    }
                }
            } else {
                assert(fin.view_vertices() =~= g0.view_vertices());
                assert forall|v: int, k: int|
                    0 <= v < fin.spec_vertex_count() && 0 <= k < fin.sw_edges(v).len() implies root_ok(
                    #[trigger] fin.sw_edges(v)[k],
                    fin.spec_vertex_count(),
                    v,
                ) by {
                    assert(fin.sw_edges(v) == g0.sw_edges(v));
                }
            }
            assert(fin.spec_contained() =~= g0.spec_contained());
        }
        res
    }

    /// # How many nodes have long ranging edges?
    /// * counts the vertices that are an end of a long ranging root edge
    pub fn count_nodes_with_long_ranging_edges(&self) -> (r: usize)
        requires
            self.wf(),
        ensures
            r == Set::new(|v: usize| v < self.spec_vertex_count() && self.long_ranging_end(v)).len(),
    {
        let n = self.vertex_count();
        let mut has: Vec<bool> = vec![false; n];
        let mut u: usize = 0;
        proof {
            self.lemma_sw_adj();
        }
        while u < n
            invariant
                self.wf(),
                n == self.spec_vertex_count(),
                u <= n,
                has@.len() == n,
                forall|v: usize| v < n ==> (#[trigger] has@[v as int] <==> self.long_ranging_upto(v, u as int, 0)),
            decreases n - u,
        {
            let edges = self.container(u).iter_raw_edges();
            let d = edges.len();
            let mut k: usize = 0;
            while k < d
                invariant
                    self.wf(),
                    n == self.spec_vertex_count(),
                    u < n,
                    edges@ == self.sw_edges(u as int),
                    d == edges@.len(),
                    k <= d,
                    has@.len() == n,
                    forall|v: usize| v < n ==> (#[trigger] has@[v as int] <==> self.long_ranging_upto(v, u as int, k as int)),
                decreases d - k,
            {
                let e = edges[k];
                if e.is_long_ranging_root() {
                    proof {
                        assert(self.spec_adj()[u as int][k as int] == e.spec_to());
                    }
                    has.set(u, true);
                    has.set(e.to, true);
                }
                proof {
                    assert forall|v: usize| v < n implies (#[trigger] has@[v as int] <==> self.long_ranging_upto(v, u as int, k + 1)) by {
                        self.lemma_long_ranging_step(v, u as int, k as int);
                    }
                }
                k = k + 1;
            }
            proof {
                assert forall|v: usize| v < n implies (#[trigger] has@[v as int] <==> self.long_ranging_upto(v, u + 1, 0)) by {
                    self.lemma_long_ranging_row(v, u as int);
                }
            }
            u = u + 1;
        }
        let mut count: usize = 0;
        let mut i: usize = 0;
        proof {
            assert(Set::new(|v: usize| v < 0 && has@[v as int]) =~= Set::<usize>::empty());
        }
        while i < n
            invariant
                n == has@.len(),
                i <= n,
                count <= i,
                count == Set::new(|v: usize| v < i && has@[v as int]).len(),
                Set::new(|v: usize| v < i && has@[v as int]).finite(),
            decreases n - i,
        {
            let ghost before = Set::new(|v: usize| v < i && has@[v as int]);
            if has[i] {
                count = count + 1;
            }
            proof {
                broadcast use vstd::set::group_set_axioms;

                let after = Set::new(|v: usize| v < i + 1 && has@[v as int]);
                if has@[i as int] {
                    assert(after =~= before.insert(i));
                } else {
                    assert(after =~= before);
                }
            }
            i = i + 1;
        }
        proof {
            assert(Set::new(|v: usize| v < n && has@[v as int]) =~= Set::new(
                |v: usize| v < self.spec_vertex_count() && self.long_ranging_end(v),
            )) by {
                assert forall|v: usize| v < n implies (has@[v as int] <==> self.long_ranging_end(v)) by {
                    self.lemma_long_ranging_all(v);
                }
            }
        }
        count
    }

    /// edge `k` of vertex `u` is a long ranging root edge
    pub open spec fn is_long_edge(&self, u: int, k: int) -> bool {
        let e = self.sw_edges(u)[k];
        e.spec_originally_to().is_some() && e.spec_originally_to() != Some(e.spec_to())
    }

    /// `v` is an end of a long ranging root edge
    pub open spec fn long_ranging_end(&self, v: usize) -> bool {
        exists|u: int, k: int|
            0 <= u < self.spec_vertex_count() && 0 <= k < self.sw_edges(u).len() && #[trigger] self.is_long_edge(u, k)
                && (v == u || v == self.sw_edges(u)[k].spec_to())
    }

    /// `v` is an end of a long ranging root edge among the edges before edge `k` of vertex `u`
    pub open spec fn long_ranging_upto(&self, v: usize, u: int, k: int) -> bool {
        exists|a: int, b: int|
            0 <= a < self.spec_vertex_count() && 0 <= b < self.sw_edges(a).len() && (a < u || (a == u
                && b < k)) && #[trigger] self.is_long_edge(a, b) && (v == a || v == self.sw_edges(a)[b].spec_to())
    }

    proof fn lemma_long_ranging_step(&self, v: usize, u: int, k: int)
        requires
            0 <= u < self.spec_vertex_count(),
            0 <= k < self.sw_edges(u).len(),
        ensures
            self.long_ranging_upto(v, u, k + 1) <==> (self.long_ranging_upto(v, u, k) || (
            self.is_long_edge(u, k) && (v == u || v == self.sw_edges(u)[k].spec_to()))),
    {
        if self.long_ranging_upto(v, u, k + 1) {
            let (a, b) = choose|a: int, b: int|
                0 <= a < self.spec_vertex_count() && 0 <= b < self.sw_edges(a).len() && (a < u || (a
                    == u && b < k + 1)) && #[trigger] self.is_long_edge(a, b) && (v == a || v
                    == self.sw_edges(a)[b].spec_to());
            if !(a == u && b == k) {
                assert(self.long_ranging_upto(v, u, k));
            }
        }
        if self.long_ranging_upto(v, u, k) {
            let (a, b) = choose|a: int, b: int|
                0 <= a < self.spec_vertex_count() && 0 <= b < self.sw_edges(a).len() && (a < u || (a
                    == u && b < k)) && #[trigger] self.is_long_edge(a, b) && (v == a || v
                    == self.sw_edges(a)[b].spec_to());
            assert(self.long_ranging_upto(v, u, k + 1));
        }
        if self.is_long_edge(u, k) && (v == u || v == self.sw_edges(u)[k].spec_to()) {
            assert(self.long_ranging_upto(v, u, k + 1));
        }
    }

    proof fn lemma_long_ranging_row(&self, v: usize, u: int)
        requires
            0 <= u < self.spec_vertex_count(),
        ensures
            self.long_ranging_upto(v, u, self.sw_edges(u).len() as int) <==> self.long_ranging_upto(v, u + 1, 0),
    {
        let d = self.sw_edges(u).len() as int;
        if self.long_ranging_upto(v, u, d) {
            let (a, b) = choose|a: int, b: int|
                0 <= a < self.spec_vertex_count() && 0 <= b < self.sw_edges(a).len() && (a < u || (a
                    == u && b < d)) && #[trigger] self.is_long_edge(a, b) && (v == a || v
                    == self.sw_edges(a)[b].spec_to());
            assert(self.long_ranging_upto(v, u + 1, 0));
        }
        if self.long_ranging_upto(v, u + 1, 0) {
            let (a, b) = choose|a: int, b: int|
                0 <= a < self.spec_vertex_count() && 0 <= b < self.sw_edges(a).len() && (a < u + 1 || (a
                    == u + 1 && b < 0)) && #[trigger] self.is_long_edge(a, b) && (v == a || v
                    == self.sw_edges(a)[b].spec_to());
            assert(self.long_ranging_upto(v, u, d));
        }
    }

    proof fn lemma_long_ranging_all(&self, v: usize)
        ensures
            self.long_ranging_upto(v, self.spec_vertex_count() as int, 0) <==> self.long_ranging_end(v),
    {
        if self.long_ranging_end(v) {
            let (a, b) = choose|a: int, b: int|
                0 <= a < self.spec_vertex_count() && 0 <= b < self.sw_edges(a).len() && #[trigger] self.is_long_edge(a, b)
                    && (v == a || v == self.sw_edges(a)[b].spec_to());
            assert(self.long_ranging_upto(v, self.spec_vertex_count() as int, 0));
        }
    }

    /// # initialize Ring2
    /// * every node is connected with its next and second next neighbors
    pub fn init_ring_2(&mut self)
        requires
            old(self).wf(),
            old(self).spec_vertex_count() == 0 || old(self).spec_vertex_count() > 4,
            old(self).spec_vertex_count() * 2 < usize::MAX,
        ensures
            final(self).wf(),
            final(self).spec_vertex_count() == old(self).spec_vertex_count(),
            final(self).spec_contained() == old(self).spec_contained(),
            forall|x: usize, y: usize|
                x < old(self).spec_vertex_count() && y < old(self).spec_vertex_count() ==> (is_edge(
                    final(self).spec_adj(),
                    x,
                    y,
                ) <==> ring_adjacent(old(self).spec_vertex_count() as int, 2, x as int, y as int)),
    {
        let r = self.init_ring(2);
        match r {
            Ok(()) => {},
            Err(_) => {
                proof {
                    assert(false);
                }
            },
        }
    }
}

} // verus!
