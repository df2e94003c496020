//! The adjacency between the two graphs of a [`DualGraph`](crate::dual_graph::DualGraph):
//! which vertices of the other graph a vertex is joined to, and the index type that
//! says which graph an index belongs to.
use vstd::prelude::*;

verus! {

/// Stores information `T` and the graph the information corresponds to
#[derive(Clone, Copy, Debug, PartialEq, Eq)]
pub enum WhichGraph<T> {
    /// information is related to graph 1
    Graph1(T),
    /// information is related to graph 2
    Graph2(T),
}

impl<T> WhichGraph<T> {
    /// the stored information, whichever graph it belongs to
    pub open spec fn spec_inner(self) -> T {
        match self {
            WhichGraph::Graph1(inner) => inner,
            WhichGraph::Graph2(inner) => inner,
        }
    }

    /// the stored information, whichever graph it belongs to
    pub fn into_inner(self) -> (r: T)
        ensures
            r == self.spec_inner(),
    {
        match self {
            WhichGraph::Graph1(inner) => inner,
            WhichGraph::Graph2(inner) => inner,
        }
    }

    /// reference to the stored information, whichever graph it belongs to
    pub fn inner(&self) -> (r: &T)
        ensures
            *r == self.spec_inner(),
    {
        match self {
            WhichGraph::Graph1(inner) => inner,
            WhichGraph::Graph2(inner) => inner,
        }
    }
}

impl<T> core::ops::Deref for WhichGraph<T> {
    type Target = T;

    /// the stored information, whichever graph it belongs to
    fn deref(&self) -> (r: &T)
        ensures
            *r == self.spec_inner(),
    {
        self.inner()
    }
}

impl<T> WhichGraph<T> {
    /// mutable reference to the stored information, whichever graph it belongs to
    pub fn inner_mut(&mut self) -> (r: &mut T)
        ensures
            *r == old(self).spec_inner(),
            *final(self) == (match *old(self) {
                WhichGraph::Graph1(_) => WhichGraph::Graph1(*final(r)),
                WhichGraph::Graph2(_) => WhichGraph::Graph2(*final(r)),
            }),
    {
        match self {
            WhichGraph::Graph1(inner) => inner,
            WhichGraph::Graph2(inner) => inner,
        }
    }
}

/// Index which also stores for which graph the index is
pub type DualIndex = WhichGraph<usize>;

/// Why an edge between the two graphs could not be added
#[derive(Debug, Copy, Clone, PartialEq, Eq, Structural)]
pub enum AddEdgeError {
    /// one of the indices is no vertex of its graph
    IndexOutOfBounds,
    /// the vertex of the first graph does not take this edge (for [`Adj`]: the edge is
    /// already there; for [`AdjSingle`]: the vertex already has its one edge)
    EdgeExists,
}

/// What a vertex keeps of its edges to the other graph
pub trait AdjTrait: Sized {
    /// the indices of the vertices of the other graph that the vertex is joined to
    spec fn spec_slice(&self) -> Seq<usize>;

    /// an edge to `other_index` would be taken by `add_edge`
    spec fn spec_accepts(&self, other_index: usize) -> bool;

    /// an edge that is already there is not taken again
    proof fn lemma_accepts(&self, other_index: usize)
        ensures
            self.spec_accepts(other_index) ==> !self.spec_slice().contains(other_index),
    ;

    /// no edges, and any edge would be taken
    fn new() -> (r: Self)
        ensures
            r.spec_slice() == Seq::<usize>::empty(),
            forall|x: usize| r.spec_accepts(x),
    ;

    /// an edge to `other_index` is there
    fn is_adjacent(&self, other_index: &usize) -> (r: bool)
        ensures
            r == self.spec_slice().contains(*other_index),
    ;

    /// adds the edge to `other_index` where it is taken; `true` if it was
    fn add_edge(&mut self, other_index: usize) -> (r: bool)
        ensures
            r == old(self).spec_accepts(other_index),
            r ==> final(self).spec_slice() == old(self).spec_slice().push(other_index),
            !r ==> *final(self) == *old(self),
    ;

    /// the indices of the vertices of the other graph that the vertex is joined to
    fn slice(&self) -> (r: &[usize])
        ensures
            r@ == self.spec_slice(),
    ;
}

/// Any number of edges to the other graph
pub struct Adj {
    pub(crate) adj: Vec<usize>,
}

impl AdjTrait for Adj {
    closed spec fn spec_slice(&self) -> Seq<usize> {
        self.adj@
    }

    closed spec fn spec_accepts(&self, other_index: usize) -> bool {
        !self.adj@.contains(other_index)
    }

    proof fn lemma_accepts(&self, other_index: usize) {
    }

    fn new() -> (r: Self) {
        Adj { adj: Vec::new() }
    }

    fn is_adjacent(&self, other_index: &usize) -> (r: bool) {
        let mut k: usize = 0;
        while k < self.adj.len()
            invariant
                k <= self.adj@.len(),
                forall|q: int| 0 <= q < k ==> self.adj@[q] != *other_index,
            decreases self.adj@.len() - k,
        {
            if self.adj[k] == *other_index {
                assert(self.adj@[k as int] == *other_index);
                return true;
            }
            k = k + 1;
        }
        false
    }

    fn add_edge(&mut self, other_index: usize) -> (r: bool) {
        if self.is_adjacent(&other_index) {
            return false;
        }
        self.adj.push(other_index);
        true
    }

    fn slice(&self) -> (r: &[usize]) {
        self.adj.as_slice()
    }
}

impl Adj {
    /// an edge is taken exactly when it is not there yet
    pub proof fn lemma_adj_accepts(&self, other_index: usize)
        ensures
            self.spec_accepts(other_index) <==> !self.spec_slice().contains(other_index),
    {
    }
}

/// At most one edge to the other graph
#[derive(Clone, Copy)]
pub enum AdjSingle {
    /// no edge
    Nothing([usize; 0]),
    /// one edge, to the vertex of the other graph with this index
    Something([usize; 1]),
}

impl AdjSingle {
    /// the vertex has no edge to the other graph
    pub fn is_nothing(&self) -> (r: bool)
        ensures
            r == (*self is Nothing),
    {
        matches!(self, AdjSingle::Nothing(..))
    }

    /// the vertex has its edge to the other graph
    pub fn is_something(&self) -> (r: bool)
        ensures
            r == (*self is Something),
    {
        matches!(self, AdjSingle::Something(..))
    }
}

impl AdjTrait for AdjSingle {
    open spec fn spec_slice(&self) -> Seq<usize> {
        match *self {
            AdjSingle::Nothing(..) => Seq::empty(),
            AdjSingle::Something(s) => s@,
        }
    }

    open spec fn spec_accepts(&self, other_index: usize) -> bool {
        *self is Nothing
    }

    proof fn lemma_accepts(&self, other_index: usize) {
    }

    fn new() -> (r: Self) {
        AdjSingle::Nothing([])
    }

    fn is_adjacent(&self, other_index: &usize) -> (r: bool) {
        match self {
            AdjSingle::Something(s) => {
                proof {
                    assert(s@.len() == 1);
                    if self.spec_slice().contains(*other_index) {
                        let q = choose|q: int| 0 <= q < 1 && self.spec_slice()[q] == *other_index;
                        assert(q == 0);
                    }
                    if s[0] == *other_index {
                        assert(s@[0] == *other_index);
                    }
                }
                s[0] == *other_index
            },
            AdjSingle::Nothing(..) => false,
        }
    }

    fn add_edge(&mut self, other_index: usize) -> (r: bool) {
        if self.is_nothing() {
            *self = AdjSingle::Something([other_index]);
            proof {
                assert(self.spec_slice() =~= old(self).spec_slice().push(other_index));
            }
            true
        } else {
            false
        }
    }

    fn slice(&self) -> (r: &[usize]) {
        match self {
            AdjSingle::Nothing(nothing) => {
                proof {
                    assert(nothing@ =~= self.spec_slice());
                }
                nothing.as_slice()
            },
            AdjSingle::Something(something) => something.as_slice(),
        }
    }
}

} // verus!
