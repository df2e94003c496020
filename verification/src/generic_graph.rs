//! # Generic graph implementation
//! [`GenericGraph`] holds the vertices, each in an adjacency container, and the number
//! of edges. Its model is the sequence of adjacency lists (`spec_adj`) together with
//! what each vertex holds (`spec_contained`).
use vstd::prelude::*;
use std::marker::PhantomData;
use crate::traits::{AdjContainer, GraphErrors, Node};
use crate::graph_spec::{
    adj_wf, deg_sum, added_edge, removed_edge, is_edge, lemma_add_edge, lemma_remove_edge,
    lemma_deg_sum_empty, lemma_deg_sum_zero, lemma_same_lists_wf,
};
use crate::seq_util::{take_at, put_at, taken, put_back, lemma_take_put, sorted_up};

verus! {

/// # Generic graph implementation
/// * contains multiple measurable quantities
#[derive(Debug)]
pub struct GenericGraph<T, A> {
    pub(crate) next_id: usize,
    pub(crate) edge_count: usize,
    pub(crate) vertices: Vec<A>,
    pub(crate) phantom: PhantomData<T>,
}

/// `b` lies `k` steps after `a` around a ring of `n` vertices (`0 <= a < n`, `0 < k < n`)
pub open spec fn ring_step(n: int, a: int, k: int) -> int {
    if a + k >= n {
        a + k - n
    } else {
        a + k
    }
}

/// the edge that vertex `a` draws to the vertex `k` steps ahead is `{x, y}`
pub open spec fn ring_pair(n: int, a: int, k: int, x: int, y: int) -> bool {
    (x == a && y == ring_step(n, a, k)) || (y == a && x == ring_step(n, a, k))
}

/// `x` and `y` are at most `d` steps apart around a ring of `n` vertices
pub open spec fn ring_adjacent(n: int, d: int, x: int, y: int) -> bool {
    exists|a: int, k: int| 0 <= a < n && 1 <= k <= d && #[trigger] ring_pair(n, a, k, x, y)
}

/// `{x, y}` is among the edges that the vertices before `i`, and vertex `i` for its first
/// `add - 1` steps, have drawn
pub open spec fn ring_built(n: int, d: int, i: int, add: int, x: int, y: int) -> bool {
    exists|a: int, k: int|
        0 <= a < n && 1 <= k <= d && (a < i || (a == i && k < add)) && #[trigger] ring_pair(
            n,
            a,
            k,
            x,
            y,
        )
}

/// on a ring longer than twice the distance no edge is drawn twice
proof fn lemma_ring_fresh(n: int, d: int, i: int, add: int)
    requires
        1 <= d,
        2 * d < n,
        0 <= i < n,
        1 <= add <= d,
    ensures
        !ring_built(n, d, i, add, i, ring_step(n, i, add)),
{
    let j = ring_step(n, i, add);
    if ring_built(n, d, i, add, i, j) {
        let (a, k) = choose|a: int, k: int|
            0 <= a < n && 1 <= k <= d && (a < i || (a == i && k < add)) && #[trigger] ring_pair(
                n,
                a,
                k,
                i,
                j,
            );
        if a == i {
            assert(ring_step(n, a, k) == j);
            assert(k == add);
        } else {
            assert(a == j);
            assert(ring_step(n, j, k) == i);
        }
    }
}

/// one more edge of vertex `i`
proof fn lemma_ring_built_step(n: int, d: int, i: int, add: int, x: int, y: int)
    requires
        0 <= i < n,
        1 <= add <= d,
    ensures
        ring_built(n, d, i, add + 1, x, y) <==> (ring_built(n, d, i, add, x, y) || ring_pair(
            n,
            i,
            add,
            x,
            y,
        )),
{
    if ring_built(n, d, i, add + 1, x, y) {
        let (a, k) = choose|a: int, k: int|
            0 <= a < n && 1 <= k <= d && (a < i || (a == i && k < add + 1)) && #[trigger] ring_pair(
                n,
                a,
                k,
                x,
                y,
            );
        if !(a == i && k == add) {
            assert(ring_built(n, d, i, add, x, y));
        }
    }
    if ring_built(n, d, i, add, x, y) {
        let (a, k) = choose|a: int, k: int|
            0 <= a < n && 1 <= k <= d && (a < i || (a == i && k < add)) && #[trigger] ring_pair(
                n,
                a,
                k,
                x,
                y,
            );
        assert(ring_built(n, d, i, add + 1, x, y));
    }
    if ring_pair(n, i, add, x, y) {
        assert(ring_built(n, d, i, add + 1, x, y));
    }
}

/// all edges of vertex `i` done is the start of vertex `i + 1`
proof fn lemma_ring_built_row(n: int, d: int, i: int, x: int, y: int)
    requires
        0 <= i < n,
    ensures
        ring_built(n, d, i, d + 1, x, y) <==> ring_built(n, d, i + 1, 0, x, y),
{
    if ring_built(n, d, i, d + 1, x, y) {
        let (a, k) = choose|a: int, k: int|
            0 <= a < n && 1 <= k <= d && (a < i || (a == i && k < d + 1)) && #[trigger] ring_pair(
                n,
                a,
                k,
                x,
                y,
            );
        assert(ring_built(n, d, i + 1, 0, x, y));
    }
    if ring_built(n, d, i + 1, 0, x, y) {
        let (a, k) = choose|a: int, k: int|
            0 <= a < n && 1 <= k <= d && (a < i + 1 || (a == i + 1 && k < 0)) && #[trigger] ring_pair(
                n,
                a,
                k,
                x,
                y,
            );
        assert(ring_built(n, d, i, d + 1, x, y));
    }
}

/// once every vertex drew its edges, the ring is complete
proof fn lemma_ring_complete(n: int, d: int, x: int, y: int)
    ensures
        ring_built(n, d, n, 0, x, y) <==> ring_adjacent(n, d, x, y),
{
    if ring_adjacent(n, d, x, y) {
        let (a, k) = choose|a: int, k: int| 0 <= a < n && 1 <= k <= d && #[trigger] ring_pair(n, a, k, x, y);
        assert(ring_built(n, d, n, 0, x, y));
    }
}

impl<T, A: Clone> Clone for GenericGraph<T, A> {
    /// the same counts, with a clone of each vertex's container
    fn clone(&self) -> (r: Self)
        ensures
            r.view_vertices().len() == self.view_vertices().len(),
            forall|i: int|
                0 <= i < self.view_vertices().len() ==> cloned::<A>(
                    self.view_vertices()[i],
                    #[trigger] r.view_vertices()[i],
                ),
            r.view_edge_count() == self.view_edge_count(),
            r.counts_agree() == self.counts_agree(),
    {
        GenericGraph {
            next_id: self.next_id,
            edge_count: self.edge_count,
            vertices: self.vertices.clone(),
            phantom: PhantomData,
        }
    }
}

/// taking out two entries and putting them back in reverse order only replaces them
pub proof fn lemma_take_two<A>(s: Seq<A>, lo: int, hi: int, a: A, b: A)
    requires
        0 <= lo < hi < s.len(),
    ensures
        taken(s, hi)[lo] == s[lo],
        lo < taken(s, hi).len(),
        put_back(put_back(taken(taken(s, hi), lo), lo, a), hi, b) == s.update(lo, a).update(hi, b),
        taken(taken(s, hi), lo).len() == s.len() - 2,
{
    let s1 = taken(s, hi);
    lemma_take_put(s, hi, b);
    lemma_take_put(s1, lo, a);
    assert(taken(s.update(lo, a), hi) =~= s1.update(lo, a));
    lemma_take_put(s.update(lo, a), hi, b);
}

impl<T, A> GenericGraph<T, A> {
    /// the vertex containers, in the order of their indices
    pub closed spec fn view_vertices(&self) -> Seq<A> {
        self.vertices@
    }

    /// the number of edges that the graph records
    pub closed spec fn view_edge_count(&self) -> nat {
        self.edge_count as nat
    }

    /// the recorded vertex count agrees with the vertices held
    pub closed spec fn counts_agree(&self) -> bool {
        self.next_id == self.vertices@.len()
    }
}

impl<T, A: AdjContainer<T>> GenericGraph<T, A> {
    /// the adjacency lists of all vertices
    pub open spec fn spec_adj(&self) -> Seq<Seq<usize>> {
        Seq::new(self.view_vertices().len(), |i: int| self.view_vertices()[i].spec_adj())
    }

    /// what each vertex holds
    pub open spec fn spec_contained(&self) -> Seq<T> {
        Seq::new(self.view_vertices().len(), |i: int| self.view_vertices()[i].spec_contained())
    }

    /// number of vertices
    pub open spec fn spec_vertex_count(&self) -> nat {
        self.view_vertices().len()
    }

    /// the graph is a simple undirected graph whose containers know their own index
    /// and whose edge counter counts its edges
    pub open spec fn wf(&self) -> bool {
        &&& self.counts_agree()
        &&& forall|i: int|
            0 <= i < self.view_vertices().len() ==> (#[trigger] self.view_vertices()[i]).spec_id()
                == i
        &&& adj_wf(self.spec_adj())
        &&& 2 * self.view_edge_count() == deg_sum(self.spec_adj())
    }

    /// the vector of vertex containers, to be changed in place
    pub(crate) fn vertices_mut(&mut self) -> (r: &mut Vec<A>)
        ensures
            r@ == old(self).view_vertices(),
            final(self).view_vertices() == final(r)@,
            final(self).view_edge_count() == old(self).view_edge_count(),
            old(self).counts_agree() ==> (final(self).counts_agree() <==> final(r)@.len()
                == old(self).view_vertices().len()),
    {
        &mut self.vertices
    }

    /// the vertex count fits in a `usize`
    pub proof fn lemma_len_bound(&self)
        requires
            self.counts_agree(),
        ensures
            self.view_vertices().len() <= usize::MAX,
    {
    }

    /// overwrites the recorded number of edges
    pub(crate) fn set_edge_count(&mut self, c: usize)
        ensures
            final(self).view_edge_count() == c,
            final(self).view_vertices() == old(self).view_vertices(),
            final(self).counts_agree() == old(self).counts_agree(),
    {
        self.edge_count = c;
    }

    /// builds a graph from its parts
    pub(crate) fn from_parts(vertices: Vec<A>, edge_count: usize) -> (r: Self)
        ensures
            r.view_vertices() == vertices@,
            r.view_edge_count() == edge_count,
            r.counts_agree(),
    {
        GenericGraph { next_id: vertices.len(), edge_count, vertices, phantom: PhantomData }
    }

    /// # create a new graph
    /// * graph will contain `contained.len()` vertices, which will contain the corresponding entries
    /// of the vector `contained`
    /// * graph will not contain any edges upon creation
    pub fn from_vec(contained: Vec<T>) -> (r: Self)
        ensures
            r.wf(),
            r.spec_contained() == contained@,
            r.spec_adj() == Seq::new(contained@.len(), |i: int| Seq::<usize>::empty()),
            r.view_edge_count() == 0,
    {
        let ghost orig = contained@;
        let mut contained = contained;
        let n = contained.len();
        let mut rev: Vec<A> = Vec::with_capacity(n);
        // the entries are moved out from the back, then put in order
        while contained.len() > 0
            invariant
                contained@.len() + rev@.len() == n,
                n == orig.len(),
                forall|k: int| 0 <= k < contained@.len() ==> contained@[k] == orig[k],
                forall|k: int|
                    0 <= k < rev@.len() ==> (#[trigger] rev@[k]).spec_id() == n - 1 - k
                        && rev@[k].spec_contained() == orig[n - 1 - k]
                        && rev@[k].spec_adj() == Seq::<usize>::empty(),
            decreases contained@.len(),
        {
            let t = contained.pop().unwrap();
            let id = contained.len();
            rev.push(A::new(id, t));
        }
        let mut vertices: Vec<A> = Vec::with_capacity(n);
        while rev.len() > 0
            invariant
                rev@.len() + vertices@.len() == n,
                forall|k: int|
                    0 <= k < rev@.len() ==> (#[trigger] rev@[k]).spec_id() == n - 1 - k
                        && rev@[k].spec_contained() == orig[n - 1 - k]
                        && rev@[k].spec_adj() == Seq::<usize>::empty(),
                forall|k: int|
                    0 <= k < vertices@.len() ==> (#[trigger] vertices@[k]).spec_id() == k
                        && vertices@[k].spec_contained() == orig[k]
                        && vertices@[k].spec_adj() == Seq::<usize>::empty(),
            decreases rev@.len(),
        {
            let a = rev.pop().unwrap();
            vertices.push(a);
        }
        let r = Self::from_parts(vertices, 0);
        proof {
            assert(r.spec_adj() =~= Seq::new(n as nat, |i: int| Seq::<usize>::empty()));
            lemma_deg_sum_empty(r.spec_adj(), n as int);
            assert(r.spec_contained() =~= orig);
        }
        r
    }

    /// Get internal vertex slice
    pub fn get_vertices(&self) -> (r: &[A])
        ensures
            r@ == self.view_vertices(),
    {
        self.vertices.as_slice()
    }

    /// the `AdjContainer` of each vertex, in the order of the indices
    pub fn container_iter(&self) -> (r: &[A])
        ensures
            r@ == self.view_vertices(),
    {
        self.vertices.as_slice()
    }

    /// # get `AdjContainer` of vertex `index`
    /// * **panics** if index out of bounds
    pub fn container(&self, index: usize) -> (r: &A)
        requires
            index < self.spec_vertex_count(),
        ensures
            *r == self.view_vertices()[index as int],
    {
        &self.vertices[index]
    }

    /// # get `AdjContainer` of vertex `index`
    /// * `None` if index is out of bounds
    /// * `Some(&A)` else
    pub fn container_checked(&self, index: usize) -> (r: Option<&A>)
        ensures
            index < self.spec_vertex_count() ==> r == Some(&self.view_vertices()[index as int]),
            index >= self.spec_vertex_count() ==> r.is_none(),
    {
        if index < self.vertices.len() {
            Some(&self.vertices[index])
        } else {
            None
        }
    }

    /// # For your calculations etc.
    /// * **read access** to **your struct** T, stored at **each vertex**
    /// * **panics** if index out of bounds
    pub fn at(&self, index: usize) -> (r: &T)
        requires
            index < self.spec_vertex_count(),
        ensures
            *r == self.spec_contained()[index as int],
    {
        self.vertices[index].contained()
    }

    /// * **read access** to **your struct** T, stored at **each vertex**
    /// * `None` if index is out of bounds
    pub fn at_checked(&self, index: usize) -> (r: Option<&T>)
        ensures
            index < self.spec_vertex_count() ==> r == Some(&self.spec_contained()[index as int]),
            index >= self.spec_vertex_count() ==> r.is_none(),
    {
        if index < self.vertices.len() {
            Some(self.vertices[index].contained())
        } else {
            None
        }
    }

    /// Returns a reference to the element stored in the specified node or `None` if out of Bounds
    pub fn get_contained(&self, index: usize) -> (r: Option<&T>)
        ensures
            index < self.spec_vertex_count() ==> r == Some(&self.spec_contained()[index as int]),
            index >= self.spec_vertex_count() ==> r.is_none(),
    {
        self.at_checked(index)
    }

    /// returns number of vertices present in graph
    pub fn vertex_count(&self) -> (r: usize)
        requires
            self.wf(),
        ensures
            r == self.spec_vertex_count(),
    {
        self.next_id
    }

    /// returns total number of edges in graph
    pub fn edge_count(&self) -> (r: usize)
        ensures
            r == self.view_edge_count(),
    {
        self.edge_count
    }

    /// * returns number of vertices adjacent to vertex `index`
    /// * `None` if index out of bounds
    pub fn degree(&self, index: usize) -> (r: Option<usize>)
        ensures
            index < self.spec_vertex_count() ==> r == Some(
                self.spec_adj()[index as int].len() as usize,
            ),
            index >= self.spec_vertex_count() ==> r.is_none(),
    {
        if index < self.vertices.len() {
            Some(self.vertices[index].degree())
        } else {
            None
        }
    }

    /// # Degrees
    /// the degree of each vertex, in the order of the indices
    pub fn degree_iter(&self) -> (r: Vec<usize>)
        ensures
            r@.len() == self.spec_vertex_count(),
            forall|i: int| 0 <= i < r@.len() ==> r@[i] == self.spec_adj()[i].len(),
    {
        self.degree_vec()
    }

    /// # get degree vector
    /// * returns vector of length `self.vertex_count()`
    /// where each entry corresponds to the degree of the vertex with the respective index
    pub fn degree_vec(&self) -> (r: Vec<usize>)
        ensures
            r@.len() == self.spec_vertex_count(),
            forall|i: int| 0 <= i < r@.len() ==> r@[i] == self.spec_adj()[i].len(),
    {
        let n = self.vertices.len();
        let mut r: Vec<usize> = Vec::with_capacity(n);
        let mut i: usize = 0;
        while i < n
            invariant
                n == self.spec_vertex_count(),
                i <= n,
                r@.len() == i,
                forall|k: int| 0 <= k < i ==> r@[k] == self.spec_adj()[k].len(),
            decreases n - i,
        {
            r.push(self.vertices[i].degree());
            i = i + 1;
        }
        r
    }

    /// Adds edge between nodes `index1` and `index2`
    /// ## ErrorCases:
    /// | Error | Reason |
    /// | ---- | ---- |
    /// | `GraphErrors::EdgeExists` | requested edge already exists! |
    pub fn add_edge(&mut self, index1: usize, index2: usize) -> (r: Result<(), GraphErrors>)
        requires
            old(self).wf(),
            index1 < old(self).spec_vertex_count(),
            index2 < old(self).spec_vertex_count(),
            index1 != index2,
            old(self).view_edge_count() < usize::MAX,
        ensures
            final(self).wf(),
            final(self).spec_contained() == old(self).spec_contained(),
            old(self).spec_adj()[index1 as int].contains(index2) ==> {
                &&& r == Err::<(), GraphErrors>(GraphErrors::EdgeExists)
                &&& final(self).spec_adj() == old(self).spec_adj()
                &&& final(self).view_edge_count() == old(self).view_edge_count()
            },
            !old(self).spec_adj()[index1 as int].contains(index2) ==> {
                &&& r == Ok::<(), GraphErrors>(())
                &&& final(self).spec_adj() == added_edge(old(self).spec_adj(), index1, index2)
                &&& final(self).view_edge_count() == old(self).view_edge_count() + 1
            },
    {
        let ghost adj0 = self.spec_adj();
        let ghost v0 = self.vertices@;
        let (lo, hi) = if index1 < index2 {
            (index1, index2)
        } else {
            (index2, index1)
        };
        proof {
            lemma_take_two(v0, lo as int, hi as int, v0[lo as int], v0[hi as int]);
        }
        let mut c_hi = take_at(&mut self.vertices, hi);
        let mut c_lo = take_at(&mut self.vertices, lo);
        let res = if index1 < index2 {
            c_lo.push(&mut c_hi)
        } else {
            c_hi.push(&mut c_lo)
        };
        proof {
            lemma_take_two(v0, lo as int, hi as int, c_lo, c_hi);
        }
        put_at(&mut self.vertices, lo, c_lo);
        put_at(&mut self.vertices, hi, c_hi);
        assert(self.vertices@ == v0.update(lo as int, c_lo).update(hi as int, c_hi));
        match res {
            Ok(()) => {
                proof {
                    lemma_add_edge(adj0, index1, index2);
                    assert(self.spec_adj() =~= added_edge(adj0, index1, index2));
                }
                self.edge_count = self.edge_count + 1;
                assert(self.spec_contained() =~= old(self).spec_contained());
                Ok(())
            },
            Err(e) => {
                assert(self.spec_adj() =~= adj0);
                assert(self.spec_contained() =~= old(self).spec_contained());
                Err(e)
            },
        }
    }

    /// Removes edge between nodes *index1* and *index2*
    /// ## ErrorCases:
    /// | Error | Reason |
    /// | ---- | ---- |
    /// | `GraphErrors::EdgeDoesNotExist` | requested edge does not exists |
    pub fn remove_edge(&mut self, index1: usize, index2: usize) -> (r: Result<(), GraphErrors>)
        requires
            old(self).wf(),
            index1 < old(self).spec_vertex_count(),
            index2 < old(self).spec_vertex_count(),
            index1 != index2,
        ensures
            final(self).wf(),
            final(self).spec_contained() == old(self).spec_contained(),
            !old(self).spec_adj()[index1 as int].contains(index2) ==> {
                &&& r == Err::<(), GraphErrors>(GraphErrors::EdgeDoesNotExist)
                &&& final(self).spec_adj() == old(self).spec_adj()
                &&& final(self).view_edge_count() == old(self).view_edge_count()
            },
            old(self).spec_adj()[index1 as int].contains(index2) ==> {
                &&& r == Ok::<(), GraphErrors>(())
                &&& final(self).spec_adj() == removed_edge(old(self).spec_adj(), index1, index2)
                &&& final(self).view_edge_count() == old(self).view_edge_count() - 1
            },
    {
        let ghost adj0 = self.spec_adj();
        let ghost v0 = self.vertices@;
        let (lo, hi) = if index1 < index2 {
            (index1, index2)
        } else {
            (index2, index1)
        };
        proof {
            lemma_take_two(v0, lo as int, hi as int, v0[lo as int], v0[hi as int]);
            assert(adj0[index1 as int] == v0[index1 as int].spec_adj());
            assert(adj0[index1 as int].contains(index2) ==> adj0[index2 as int].contains(index1));
        }
        let mut c_hi = take_at(&mut self.vertices, hi);
        let mut c_lo = take_at(&mut self.vertices, lo);
        let res = if index1 < index2 {
            c_lo.remove(&mut c_hi)
        } else {
            c_hi.remove(&mut c_lo)
        };
        proof {
            lemma_take_two(v0, lo as int, hi as int, c_lo, c_hi);
        }
        put_at(&mut self.vertices, lo, c_lo);
        put_at(&mut self.vertices, hi, c_hi);
        assert(self.vertices@ == v0.update(lo as int, c_lo).update(hi as int, c_hi));
        match res {
            Ok(()) => {
                proof {
                    lemma_remove_edge(adj0, index1, index2);
                    assert(self.spec_adj() =~= removed_edge(adj0, index1, index2));
                }
                self.edge_count = self.edge_count - 1;
                assert(self.spec_contained() =~= old(self).spec_contained());
                Ok(())
            },
            Err(e) => {
                assert(self.spec_adj() =~= adj0);
                assert(self.spec_contained() =~= old(self).spec_contained());
                Err(e)
            },
        }
    }

    /// Create new graph with `size` nodes and no edges; vertex `i` holds `T::new_from_index(i)`
    pub fn new(size: usize) -> (r: Self)
        where T: Node,
        ensures
            r.wf(),
            r.spec_vertex_count() == size,
            r.spec_adj() == Seq::new(size as nat, |i: int| Seq::<usize>::empty()),
            r.view_edge_count() == 0,
            forall|i: int|
                0 <= i < size ==> call_ensures(T::new_from_index, (i as usize,), #[trigger] r.spec_contained()[i]),
    {
        let mut vertices: Vec<A> = Vec::with_capacity(size);
        let mut i: usize = 0;
        while i < size
            invariant
                i <= size,
                vertices@.len() == i,
                forall|k: int|
                    0 <= k < i ==> (#[trigger] vertices@[k]).spec_id() == k
                        && vertices@[k].spec_adj() == Seq::<usize>::empty()
                        && call_ensures(T::new_from_index, (k as usize,), vertices@[k].spec_contained()),
            decreases size - i,
        {
            let node = T::new_from_index(i);
            vertices.push(A::new(i, node));
            i = i + 1;
        }
        let r = Self::from_parts(vertices, 0);
        proof {
            assert(r.spec_adj() =~= Seq::new(size as nat, |i: int| Seq::<usize>::empty()));
            lemma_deg_sum_empty(r.spec_adj(), size as int);
        }
        r
    }

    /// # removes all edges from the graph
    /// * inexpensive O(1), if there are no edges to begin with
    /// * O(vertices) otherwise
    pub fn clear_edges(&mut self)
        requires
            old(self).wf(),
        ensures
            final(self).wf(),
            final(self).spec_vertex_count() == old(self).spec_vertex_count(),
            final(self).spec_adj() == Seq::new(
                old(self).spec_vertex_count(),
                |i: int| Seq::<usize>::empty(),
            ),
            final(self).spec_contained() == old(self).spec_contained(),
            final(self).view_edge_count() == 0,
    {
        let ghost adj0 = self.spec_adj();
        if self.edge_count != 0 {
            self.edge_count = 0;
            let n = self.vertices.len();
            let mut i: usize = 0;
            while i < n
                invariant
                    n == self.vertices@.len(),
                    n == old(self).vertices@.len(),
                    i <= n,
                    self.next_id == n,
                    self.edge_count == 0,
                    forall|k: int|
                        0 <= k < n ==> (#[trigger] self.vertices@[k]).spec_id() == old(
                            self,
                        ).vertices@[k].spec_id() && self.vertices@[k].spec_contained() == old(
                            self,
                        ).vertices@[k].spec_contained(),
                    forall|k: int| 0 <= k < i ==> (#[trigger] self.vertices@[k]).spec_adj() == Seq::<usize>::empty(),
                decreases n - i,
            {
                self.vertices[i].clear_edges();
                i = i + 1;
            }
            proof {
                assert(self.spec_adj() =~= Seq::new(n as nat, |i: int| Seq::<usize>::empty()));
                lemma_deg_sum_empty(self.spec_adj(), n as int);
                assert(self.spec_contained() =~= old(self).spec_contained());
            }
        } else {
            proof {
                // no edges: every list is empty already
                assert forall|i: int| 0 <= i < adj0.len() implies #[trigger] adj0[i].len() == 0 by {
                    lemma_deg_sum_zero(adj0, adj0.len() as int, i);
                }
                assert forall|i: int| 0 <= i < adj0.len() implies #[trigger] adj0[i] =~= Seq::<usize>::empty() by {
                    lemma_deg_sum_zero(adj0, adj0.len() as int, i);
                }
                assert(self.spec_adj() =~= Seq::new(
                    old(self).spec_vertex_count(),
                    |i: int| Seq::<usize>::empty(),
                ));
            }
        }
    }

    /// # Sort adjacency lists
    /// If you depend on the order of the adjacency lists, you can sort them
    pub fn sort_adj(&mut self)
        requires
            old(self).wf(),
        ensures
            final(self).wf(),
            final(self).spec_vertex_count() == old(self).spec_vertex_count(),
            final(self).spec_contained() == old(self).spec_contained(),
            final(self).view_edge_count() == old(self).view_edge_count(),
            forall|i: int|
                0 <= i < old(self).spec_vertex_count() ==> (#[trigger] final(self).spec_adj()[i]).to_multiset()
                    == old(self).spec_adj()[i].to_multiset() && sorted_up(final(self).spec_adj()[i]),
    {
        let n = self.vertices.len();
        let mut i: usize = 0;
        while i < n
            invariant
                n == self.vertices@.len(),
                n == old(self).vertices@.len(),
                i <= n,
                self.next_id == old(self).next_id,
                self.edge_count == old(self).edge_count,
                forall|k: int|
                    0 <= k < n ==> (#[trigger] self.vertices@[k]).spec_id() == old(
                        self,
                    ).vertices@[k].spec_id() && self.vertices@[k].spec_contained() == old(
                        self,
                    ).vertices@[k].spec_contained() && self.vertices@[k].spec_adj().to_multiset()
                        == old(self).vertices@[k].spec_adj().to_multiset(),
                forall|k: int| 0 <= k < i ==> sorted_up((#[trigger] self.vertices@[k]).spec_adj()),
                forall|k: int| i <= k < n ==> #[trigger] self.vertices@[k] == old(self).vertices@[k],
            decreases n - i,
        {
            self.vertices[i].sort_adj();
            i = i + 1;
        }
        proof {
            let a0 = old(self).spec_adj();
            let a1 = self.spec_adj();
            assert forall|k: int| 0 <= k < n implies #[trigger] a1[k].to_multiset() == a0[k].to_multiset() by {}
            lemma_same_lists_wf(a0, a1);
            assert(self.spec_contained() =~= old(self).spec_contained());
        }
    }

    /// # For your calculations etc.
    /// * **write access** to **your struct** T, stored at **each vertex**
    /// * **panics** if index out of bounds
    pub fn at_mut(&mut self, index: usize) -> (r: &mut T)
        requires
            index < old(self).spec_vertex_count(),
        ensures
            *r == old(self).spec_contained()[index as int],
            final(self).spec_contained() == old(self).spec_contained().update(index as int, *final(r)),
            final(self).spec_adj() == old(self).spec_adj(),
            final(self).view_edge_count() == old(self).view_edge_count(),
            final(self).spec_vertex_count() == old(self).spec_vertex_count(),
            forall|i: int|
                0 <= i < old(self).spec_vertex_count() ==> (#[trigger] final(self).view_vertices()[i]).spec_id()
                    == old(self).view_vertices()[i].spec_id(),
            final(self).counts_agree() == old(self).counts_agree(),
    {
        self.vertices[index].contained_mut()
    }

    /// Returns a mutable reference to the element stored in the specified node or `None` if out of Bounds
    pub fn get_contained_mut(&mut self, index: usize) -> (r: Option<&mut T>)
        ensures
            index >= old(self).spec_vertex_count() ==> r.is_none() && *final(self) == *old(self),
            index < old(self).spec_vertex_count() ==> r.is_some(),
            r matches Some(x) ==> {
                &&& *x == old(self).spec_contained()[index as int]
                &&& final(self).spec_contained() == old(self).spec_contained().update(index as int, *final(x))
                &&& final(self).spec_adj() == old(self).spec_adj()
                &&& final(self).view_edge_count() == old(self).view_edge_count()
                &&& final(self).spec_vertex_count() == old(self).spec_vertex_count()
                &&& forall|i: int|
                    0 <= i < old(self).spec_vertex_count() ==> (#[trigger] final(self).view_vertices()[i]).spec_id()
                        == old(self).view_vertices()[i].spec_id()
                &&& final(self).counts_agree() == old(self).counts_agree()
            },
    {
        if index < self.vertices.len() {
            Some(self.at_mut(index))
        } else {
            None
        }
    }

    /// # Get mutable vertex container
    /// * panics if index out of range
    pub(crate) fn container_mut(&mut self, index: usize) -> (r: &mut A)
        requires
            index < old(self).spec_vertex_count(),
        ensures
            *r == old(self).view_vertices()[index as int],
            final(self).view_vertices() == old(self).view_vertices().update(index as int, *final(r)),
            final(self).view_edge_count() == old(self).view_edge_count(),
            final(self).counts_agree() == old(self).counts_agree(),
    {
        &mut self.vertices[index]
    }

    /// Count number of leaves in the graph, i.e. vertices with exactly one neighbor
    pub fn leaf_count(&self) -> (r: usize)
        ensures
            r == Set::new(|v: usize| v < self.spec_vertex_count() && self.spec_adj()[v as int].len()
                == 1).len(),
    {
        let n = self.vertices.len();
        let mut count: usize = 0;
        let mut i: usize = 0;
        proof {
            assert(Set::new(|v: usize| v < 0 && self.spec_adj()[v as int].len() == 1) =~= Set::<usize>::empty());
        }
        while i < n
            invariant
                n == self.spec_vertex_count(),
                i <= n,
                count <= i,
                count == Set::new(|v: usize| v < i && self.spec_adj()[v as int].len() == 1).len(),
                Set::new(|v: usize| v < i && self.spec_adj()[v as int].len() == 1).finite(),
            decreases n - i,
        {
            let ghost before = Set::new(|v: usize| v < i && self.spec_adj()[v as int].len() == 1);
            let d = self.vertices[i].degree();
            if d == 1 {
                count = count + 1;
            }
            proof {
                broadcast use vstd::set::group_set_axioms;

                let after = Set::new(|v: usize| v < i + 1 && self.spec_adj()[v as int].len() == 1);
                if d == 1 {
                    assert(after =~= before.insert(i));
                } else {
                    assert(after =~= before);
                }
            }
            i = i + 1;
        }
        count
    }

    /// * what is stored at each vertex, in the order of the indices
    pub fn contained_iter(&self) -> (r: Vec<&T>)
        ensures
            r@.len() == self.spec_vertex_count(),
            forall|k: int| 0 <= k < r@.len() ==> *r@[k] == self.spec_contained()[k],
    {
        let n = self.vertices.len();
        let mut r: Vec<&T> = Vec::with_capacity(n);
        let mut i: usize = 0;
        while i < n
            invariant
                n == self.spec_vertex_count(),
                i <= n,
                r@.len() == i,
                forall|k: int| 0 <= k < i ==> *r@[k] == self.spec_contained()[k],
            decreases n - i,
        {
            r.push(self.vertices[i].contained());
            i = i + 1;
        }
        r
    }

    /// * `AdjContainer` of the neighbors of vertex `index`, in the order of its adjacency list
    /// * **panics** if index out of bounds
    pub fn container_iter_neighbors(&self, index: usize) -> (r: Vec<&A>)
        requires
            self.wf(),
            index < self.spec_vertex_count(),
        ensures
            r@.len() == self.spec_adj()[index as int].len(),
            forall|k: int|
                0 <= k < r@.len() ==> *r@[k] == self.view_vertices()[self.spec_adj()[index as int][k] as int],
    {
        let c = &self.vertices[index];
        let d = c.degree();
        let mut r: Vec<&A> = Vec::with_capacity(d);
        let mut k: usize = 0;
        while k < d
            invariant
                self.wf(),
                index < self.spec_vertex_count(),
                c.spec_adj() == self.spec_adj()[index as int],
                d == c.spec_adj().len(),
                k <= d,
                r@.len() == k,
                forall|q: int|
                    0 <= q < k ==> *r@[q] == self.view_vertices()[self.spec_adj()[index as int][q] as int],
            decreases d - k,
        {
            let w = c.neighbor_at(k);
            proof {
                assert(self.spec_adj()[index as int][k as int] < self.spec_vertex_count());
            }
            r.push(&self.vertices[w]);
            k = k + 1;
        }
        r
    }

    /// * what the neighbors of vertex `index` hold, in the order of its adjacency list
    /// * **panics** if index out of bounds
    pub fn contained_iter_neighbors(&self, index: usize) -> (r: Vec<&T>)
        requires
            self.wf(),
            index < self.spec_vertex_count(),
        ensures
            r@.len() == self.spec_adj()[index as int].len(),
            forall|k: int|
                0 <= k < r@.len() ==> *r@[k] == self.spec_contained()[self.spec_adj()[index as int][k] as int],
    {
        let c = &self.vertices[index];
        let d = c.degree();
        let mut r: Vec<&T> = Vec::with_capacity(d);
        let mut k: usize = 0;
        while k < d
            invariant
                self.wf(),
                index < self.spec_vertex_count(),
                c.spec_adj() == self.spec_adj()[index as int],
                d == c.spec_adj().len(),
                k <= d,
                r@.len() == k,
                forall|q: int|
                    0 <= q < k ==> *r@[q] == self.spec_contained()[self.spec_adj()[index as int][q] as int],
            decreases d - k,
        {
            let w = c.neighbor_at(k);
            proof {
                assert(self.spec_adj()[index as int][k as int] < self.spec_vertex_count());
            }
            r.push(self.vertices[w].contained());
            k = k + 1;
        }
        r
    }

    /// * pairs `(index_neighbor, what the neighbor holds)` for the neighbors of vertex `index`,
    /// in the order of its adjacency list
    /// * **panics** if index out of bounds
    pub fn contained_iter_neighbors_with_index(&self, index: usize) -> (r: Vec<(usize, &T)>)
        requires
            self.wf(),
            index < self.spec_vertex_count(),
        ensures
            r@.len() == self.spec_adj()[index as int].len(),
            forall|k: int|
                0 <= k < r@.len() ==> r@[k].0 == self.spec_adj()[index as int][k] && *r@[k].1
                    == self.spec_contained()[r@[k].0 as int],
    {
        let c = &self.vertices[index];
        let d = c.degree();
        let mut r: Vec<(usize, &T)> = Vec::with_capacity(d);
        let mut k: usize = 0;
        while k < d
            invariant
                self.wf(),
                index < self.spec_vertex_count(),
                c.spec_adj() == self.spec_adj()[index as int],
                d == c.spec_adj().len(),
                k <= d,
                r@.len() == k,
                forall|q: int|
                    0 <= q < k ==> r@[q].0 == self.spec_adj()[index as int][q] && *r@[q].1
                        == self.spec_contained()[r@[q].0 as int],
            decreases d - k,
        {
            let w = c.neighbor_at(k);
            proof {
                assert(self.spec_adj()[index as int][k as int] < self.spec_vertex_count());
            }
            r.push((w, self.vertices[w].contained()));
            k = k + 1;
        }
        r
    }

    /// # initialize Ring
    /// * every node is connected with its neighbors, which are
    /// not more than `distance` away (around the ring)
    /// * `Err(EdgeExists)` if the ring is too short for that, i.e., `2 * distance >= n`
    pub fn init_ring(&mut self, distance: usize) -> (r: Result<(), GraphErrors>)
        requires
            old(self).wf(),
            distance >= 1,
            old(self).spec_vertex_count() == 0 || distance < old(self).spec_vertex_count(),
            old(self).spec_vertex_count() + distance <= usize::MAX,
            old(self).spec_vertex_count() * distance < usize::MAX,
        ensures
            final(self).wf(),
            final(self).spec_vertex_count() == old(self).spec_vertex_count(),
            final(self).spec_contained() == old(self).spec_contained(),
            r.is_err() ==> r == Err::<(), GraphErrors>(GraphErrors::EdgeExists),
            old(self).spec_vertex_count() == 0 ==> r.is_ok(),
            old(self).spec_vertex_count() > 0 ==> (r.is_ok() <==> 2 * distance < old(
                self,
            ).spec_vertex_count()),
            r.is_ok() ==> forall|x: usize, y: usize|
                x < old(self).spec_vertex_count() && y < old(self).spec_vertex_count() ==> (is_edge(
                    final(self).spec_adj(),
                    x,
                    y,
                ) <==> ring_adjacent(old(self).spec_vertex_count() as int, distance as int, x as int, y as int)),
    {
        self.clear_edges();
        let n = self.vertex_count();
        let ghost c0 = self.spec_contained();
        let mut i: usize = 0;
        while i < n
            invariant
                self.wf(),
                n == self.spec_vertex_count(),
                n == old(self).spec_vertex_count(),
                c0 == self.spec_contained(),
                c0 == old(self).spec_contained(),
                1 <= distance,
                n == 0 || distance < n,
                n + distance <= usize::MAX,
                n * distance < usize::MAX,
                i <= n,
                self.view_edge_count() <= i * distance,
                2 * distance >= n && n > 0 ==> i <= distance,
                forall|x: usize, y: usize|
                    x < n && y < n ==> (is_edge(self.spec_adj(), x, y) <==> ring_built(
                        n as int,
                        distance as int,
                        i as int,
                        0,
                        x as int,
                        y as int,
                    )),
            decreases n - i,
        {
            let mut add: usize = 1;
            proof {
                assert forall|x: usize, y: usize| x < n && y < n implies (ring_built(
                    n as int,
                    distance as int,
                    i as int,
                    0,
                    x as int,
                    y as int,
                ) <==> ring_built(n as int, distance as int, i as int, 1, x as int, y as int)) by {
                    if ring_built(n as int, distance as int, i as int, 1, x as int, y as int) {
                        let (a, k) = choose|a: int, k: int|
                            0 <= a < n && 1 <= k <= distance && (a < i || (a == i && k < 1))
                                && #[trigger] ring_pair(n as int, a, k, x as int, y as int);
                    }
                }
            }
            while add <= distance
                invariant
                    self.wf(),
                    n == self.spec_vertex_count(),
                    n == old(self).spec_vertex_count(),
                    c0 == self.spec_contained(),
                    c0 == old(self).spec_contained(),
                    1 <= distance < n,
                    n + distance <= usize::MAX,
                    n * distance < usize::MAX,
                    i < n,
                    1 <= add <= distance + 1,
                    self.view_edge_count() <= i * distance + add - 1,
                    2 * distance >= n ==> (i < distance || (i == distance && add <= n - distance)),
                    forall|x: usize, y: usize|
                        x < n && y < n ==> (is_edge(self.spec_adj(), x, y) <==> ring_built(
                            n as int,
                            distance as int,
                            i as int,
                            add as int,
                            x as int,
                            y as int,
                        )),
                decreases distance + 1 - add,
            {
                let sum = i + add;
                let index2 = if sum >= n {
                    sum - n
                } else {
                    sum
                };
                proof {
                    assert(i * distance + add - 1 < n * distance) by (nonlinear_arith)
                        requires
                            i < n,
                            add <= distance,
                    ;
                    let done = ring_built(n as int, distance as int, i as int, add as int, i as int, index2 as int);
                    assert(is_edge(self.spec_adj(), i, index2) <==> done);
                    if 2 * distance < n {
                        lemma_ring_fresh(n as int, distance as int, i as int, add as int);
                    }
                    if 2 * distance >= n && i == distance && add == n - distance {
                        assert(index2 == 0);
                        assert(ring_pair(n as int, 0, distance as int, i as int, index2 as int));
                        assert(done);
                    }
                }
                let ghost adj_before = self.spec_adj();
                match self.add_edge(i, index2) {
                    Ok(()) => {},
                    Err(e) => {
                        return Err(e);
                    },
                }
                proof {
                    lemma_add_edge(adj_before, i, index2);
                    assert forall|x: usize, y: usize| x < n && y < n implies (is_edge(
                        self.spec_adj(),
                        x,
                        y,
                    ) <==> ring_built(n as int, distance as int, i as int, add + 1, x as int, y as int)) by {
                        lemma_ring_built_step(n as int, distance as int, i as int, add as int, x as int, y as int);
                    }
                    if 2 * distance >= n {
                        assert(!(i == distance && add == n - distance));
                    }
                }
                add = add + 1;
            }
            proof {
                assert forall|x: usize, y: usize| x < n && y < n implies (is_edge(
                    self.spec_adj(),
                    x,
                    y,
                ) <==> ring_built(n as int, distance as int, i + 1, 0, x as int, y as int)) by {
                    lemma_ring_built_row(n as int, distance as int, i as int, x as int, y as int);
                }
                assert((i + 1) * distance == i * distance + distance) by (nonlinear_arith);
            }
            i = i + 1;
        }
        proof {
            assert forall|x: usize, y: usize| x < n && y < n implies (is_edge(self.spec_adj(), x, y)
                <==> ring_adjacent(n as int, distance as int, x as int, y as int)) by {
                lemma_ring_complete(n as int, distance as int, x as int, y as int);
            }
        }
        Ok(())
    }
}

} // verus!
