//! Traits shared by all graph types of the crate: what a vertex stores
//! ([`Node`]) and what an adjacency container offers ([`AdjContainer`]).
use vstd::prelude::*;

verus! {

/// What every node should be able to do
pub trait Node: Sized + Clone {
    /// how to construct a blank object
    fn new_from_index(index: usize) -> Self;
}

/// Error messages of edge manipulation
#[derive(Debug, Clone, Copy, PartialEq, Eq, Structural)]
pub enum GraphErrors {
    /// Did you try to add an edge, which is already present?
    EdgeExists,
    /// Did you try to delete a non existing edge?
    EdgeDoesNotExist,
}

impl GraphErrors {
    /// The name of the error as text, for printing etc.
    pub open spec fn spec_str(self) -> Seq<char> {
        match self {
            GraphErrors::EdgeExists => "EdgeExists"@,
            GraphErrors::EdgeDoesNotExist => "EdgeDoesNotExist"@,
        }
    }

    /// get error message as `&str`, for printing etc.
    pub fn to_str(&self) -> (r: &'static str)
        ensures
            r@ == self.spec_str(),
    {
        match self {
            GraphErrors::EdgeExists => "EdgeExists",
            GraphErrors::EdgeDoesNotExist => "EdgeDoesNotExist",
        }
    }
}

/// The adjacency list that `remove` leaves behind: the entry `x` is overwritten by
/// the last entry, then the last entry is dropped (as `Vec::swap_remove` does).
pub open spec fn swap_removed(s: Seq<usize>, x: usize) -> Seq<usize> {
    let p = first_index(s, x);
    s.update(p, s.last()).drop_last()
}

/// the index of the first occurrence of `x` in `s`
pub open spec fn first_index(s: Seq<usize>, x: usize) -> int {
    choose|p: int| 0 <= p < s.len() && s[p] == x && forall|q: int| 0 <= q < p ==> s[q] != x
}

/// Defines methods all adjacency containers should have
/// such that `GenericGraph` can use it
pub trait AdjContainer<T>: Sized {
    /// the id of the container (its index in the graph)
    spec fn spec_id(&self) -> usize;

    /// the indices of the neighbors, in the order of the adjacency list
    spec fn spec_adj(&self) -> Seq<usize>;

    /// what the container holds
    spec fn spec_contained(&self) -> T;

    /// Create new instance with id
    fn new(id: usize, node: T) -> (r: Self)
        ensures
            r.spec_id() == id,
            r.spec_adj() == Seq::<usize>::empty(),
            r.spec_contained() == node,
    ;

    /// return reference to what the AdjContainer contains
    fn contained(&self) -> (r: &T)
        ensures
            *r == self.spec_contained(),
    ;

    /// return mut reference to what the AdjContainer contains
    fn contained_mut(&mut self) -> (r: &mut T)
        ensures
            *r == old(self).spec_contained(),
            final(self).spec_contained() == *final(r),
            final(self).spec_adj() == old(self).spec_adj(),
            final(self).spec_id() == old(self).spec_id(),
    ;

    /// the index of the `k`-th neighbor in the adjacency list
    fn neighbor_at(&self, k: usize) -> (r: usize)
        requires
            k < self.spec_adj().len(),
        ensures
            r == self.spec_adj()[k as int],
    ;

    /// the indices of all neighbors, in the order of the adjacency list
    fn neighbors(&self) -> (r: Vec<usize>)
        ensures
            r@ == self.spec_adj(),
    {
        let d = self.degree();
        let mut r: Vec<usize> = Vec::with_capacity(d);
        let mut k: usize = 0;
        while k < d
            invariant
                d == self.spec_adj().len(),
                k <= d,
                r@ == self.spec_adj().take(k as int),
            decreases d - k,
        {
            let x = self.neighbor_at(k);
            r.push(x);
            k = k + 1;
            assert(r@ =~= self.spec_adj().take(k as int));
        }
        assert(r@ =~= self.spec_adj());
        r
    }

    /// count number of neighbors, i.e. number of edges incident to `self`
    fn degree(&self) -> (r: usize)
        ensures
            r == self.spec_adj().len(),
    ;

    /// returns id of container
    fn id(&self) -> (r: usize)
        ensures
            r == self.spec_id(),
    ;

    /// returns `Some(first element from the adjacency List)` or `None`
    fn get_adj_first(&self) -> (r: Option<&usize>)
        ensures
            self.spec_adj().len() == 0 ==> r.is_none(),
            self.spec_adj().len() > 0 ==> r == Some(&self.spec_adj()[0]),
    ;

    /// check if vertex with `other_id` is adjacent to self
    fn is_adjacent(&self, other_id: usize) -> (r: bool)
        ensures
            r == self.spec_adj().contains(other_id),
    ;

    /// Sorting adjacency lists
    fn sort_adj(&mut self)
        ensures
            final(self).spec_adj().to_multiset() == old(self).spec_adj().to_multiset(),
            forall|a: int, b: int|
                0 <= a < b < final(self).spec_adj().len() ==> final(self).spec_adj()[a]
                    <= final(self).spec_adj()[b],
            final(self).spec_id() == old(self).spec_id(),
            final(self).spec_contained() == old(self).spec_contained(),
    ;

    /// Remove all edges
    /// # Important
    /// * will not clear edges of other AdjContainer
    fn clear_edges(&mut self)
        ensures
            final(self).spec_adj() == Seq::<usize>::empty(),
            final(self).spec_id() == old(self).spec_id(),
            final(self).spec_contained() == old(self).spec_contained(),
    ;

    /// Creates edge in `self` and `other`s adjacency Lists;
    /// `Err(EdgeExists)`, with nothing changed, if the edge is already there
    fn push(&mut self, other: &mut Self) -> (r: Result<(), GraphErrors>)
        ensures
            old(self).spec_adj().contains(old(other).spec_id()) ==> {
                &&& r == Err::<(), GraphErrors>(GraphErrors::EdgeExists)
                &&& final(self).spec_adj() == old(self).spec_adj()
                &&& final(other).spec_adj() == old(other).spec_adj()
            },
            !old(self).spec_adj().contains(old(other).spec_id()) ==> {
                &&& r == Ok::<(), GraphErrors>(())
                &&& final(self).spec_adj() == old(self).spec_adj().push(old(other).spec_id())
                &&& final(other).spec_adj() == old(other).spec_adj().push(old(self).spec_id())
            },
            final(self).spec_id() == old(self).spec_id(),
            final(other).spec_id() == old(other).spec_id(),
            final(self).spec_contained() == old(self).spec_contained(),
            final(other).spec_contained() == old(other).spec_contained(),
    ;

    /// Removes edge in `self` and `other`s adjacency Lists;
    /// `Err(EdgeDoesNotExist)`, with nothing changed, if there is no such edge
    fn remove(&mut self, other: &mut Self) -> (r: Result<(), GraphErrors>)
        requires
            old(self).spec_adj().contains(old(other).spec_id()) ==> old(
                other,
            ).spec_adj().contains(old(self).spec_id()),
        ensures
            !old(self).spec_adj().contains(old(other).spec_id()) ==> {
                &&& r == Err::<(), GraphErrors>(GraphErrors::EdgeDoesNotExist)
                &&& final(self).spec_adj() == old(self).spec_adj()
                &&& final(other).spec_adj() == old(other).spec_adj()
            },
            old(self).spec_adj().contains(old(other).spec_id()) ==> {
                &&& r == Ok::<(), GraphErrors>(())
                &&& final(self).spec_adj() == swap_removed(
                    old(self).spec_adj(),
                    old(other).spec_id(),
                )
                &&& final(other).spec_adj() == swap_removed(
                    old(other).spec_adj(),
                    old(self).spec_id(),
                )
            },
            final(self).spec_id() == old(self).spec_id(),
            final(other).spec_id() == old(other).spec_id(),
            final(self).spec_contained() == old(self).spec_contained(),
            final(other).spec_contained() == old(other).spec_contained(),
    ;
}

/// Get the adjacency list of a AdjContainer
pub trait AdjList<Edge> {
    /// the edges, in the order of the adjacency list
    spec fn spec_edges(&self) -> Seq<Edge>;

    /// the edges, in the order of the adjacency list
    fn edges(&self) -> (r: &[Edge])
        ensures
            r@ == self.spec_edges(),
    ;
}

} // verus!
