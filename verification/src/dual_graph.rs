//! Two graphs side by side, with edges between a vertex of the first and a vertex of
//! the second. Searches run over both graphs as over one graph whose vertices are
//! those of the first graph followed by those of the second.
use vstd::prelude::*;
use crate::traits::AdjContainer;
use crate::generic_graph::GenericGraph;
use crate::graph::NodeContainer;
use crate::graph_spec::{
    adj_wf, reachable, lemma_push_contains_one, lemma_push_no_dup, lemma_reachable_bounds, lemma_reachable_sym,
    lemma_reachable_trans,
};
use crate::dual_adj::{AdjTrait, Adj, AdjSingle, WhichGraph, DualIndex, AddEdgeError};
use crate::search::{Searchable, lists_component, dfs_indices, dfs_linked, is_dfs_order};
use crate::bfs::{bfs_result, bfs_indices, is_dist, is_diameter, lemma_within_reachable, max_eccentricity_except};
use crate::seq_util::lemma_cover;

verus! {

/// A dual graph whose vertices may have any number of edges to the other graph
pub type MultiDualGraph<T1, A1, T2, A2> = DualGraph<Adj, T1, A1, T2, A2>;

/// A dual graph whose vertices have at most one edge to the other graph each
pub type SingleDualGraph<T1, A1, T2, A2> = DualGraph<AdjSingle, T1, A1, T2, A2>;

/// A [`SingleDualGraph`] of two graphs with plain node containers
pub type DefaultSDG<T1, T2> = SingleDualGraph<T1, NodeContainer<T1>, T2, NodeContainer<T2>>;

/// Two graphs and the edges between them
#[derive(Clone)]
pub struct DualGraph<ADJ, T1, A1, T2, A2> {
    pub(crate) graph_1: GenericGraph<T1, A1>,
    pub(crate) graph_2: GenericGraph<T2, A2>,
    pub(crate) adj_1: Vec<ADJ>,
    pub(crate) adj_2: Vec<ADJ>,
}

/// every entry of `s` raised by `n`
pub open spec fn shifted(s: Seq<usize>, n: nat) -> Seq<usize> {
    s.map_values(|j: usize| (j + n) as usize)
}

impl<ADJ: AdjTrait, T1, A1: AdjContainer<T1>, T2, A2: AdjContainer<T2>> DualGraph<ADJ, T1, A1, T2, A2> {
    /// the first graph
    pub closed spec fn spec_graph_1(&self) -> GenericGraph<T1, A1> {
        self.graph_1
    }

    /// the second graph
    pub closed spec fn spec_graph_2(&self) -> GenericGraph<T2, A2> {
        self.graph_2
    }

    /// what the vertices of the first graph keep of their edges to the second
    pub closed spec fn spec_adj_1(&self) -> Seq<ADJ> {
        self.adj_1@
    }

    /// what the vertices of the second graph keep of their edges to the first
    pub closed spec fn spec_adj_2(&self) -> Seq<ADJ> {
        self.adj_2@
    }

    /// number of vertices of the first graph
    pub open spec fn n1(&self) -> nat {
        self.spec_graph_1().spec_vertex_count()
    }

    /// number of vertices of the second graph
    pub open spec fn n2(&self) -> nat {
        self.spec_graph_2().spec_vertex_count()
    }

    /// for each vertex of the first graph, the vertices of the second it is joined to
    pub open spec fn cross_1(&self) -> Seq<Seq<usize>> {
        self.spec_adj_1().map_values(|a: ADJ| a.spec_slice())
    }

    /// for each vertex of the second graph, the vertices of the first it is joined to
    pub open spec fn cross_2(&self) -> Seq<Seq<usize>> {
        self.spec_adj_2().map_values(|a: ADJ| a.spec_slice())
    }

    /// The adjacency lists of the joint graph: vertex `i` of the first graph is vertex
    /// `i`, vertex `j` of the second graph is vertex `n1 + j`; each list holds the
    /// neighbors in the own graph first, then those in the other graph.
    pub open spec fn dual_adj(&self) -> Seq<Seq<usize>> {
        Seq::new(
            self.n1() + self.n2(),
            |v: int|
                if v < self.n1() {
                    self.spec_graph_1().spec_adj()[v] + shifted(self.cross_1()[v], self.n1())
                } else {
                    shifted(self.spec_graph_2().spec_adj()[v - self.n1()], self.n1()) + self.cross_2()[v
                        - self.n1()]
                },
        )
    }

    /// the index in the joint graph; an index out of range of its graph becomes the
    /// (out of range) number of all vertices
    pub open spec fn encode(&self, x: DualIndex) -> usize {
        match x {
            WhichGraph::Graph1(i) => if i < self.n1() {
                i
            } else {
                (self.n1() + self.n2()) as usize
            },
            WhichGraph::Graph2(j) => if j < self.n2() {
                (self.n1() + j) as usize
            } else {
                (self.n1() + self.n2()) as usize
            },
        }
    }

    /// the index in its own graph of a vertex of the joint graph
    pub open spec fn decode(&self, v: usize) -> DualIndex {
        if v < self.n1() {
            WhichGraph::Graph1(v)
        } else {
            WhichGraph::Graph2((v - self.n1()) as usize)
        }
    }

    /// Both graphs are well formed, every vertex keeps its edges to the other graph,
    /// those edges are recorded at both ends, and all vertices can be counted together.
    pub open spec fn wf(&self) -> bool {
        &&& self.spec_graph_1().wf()
        &&& self.spec_graph_2().wf()
        &&& self.n1() + self.n2() <= usize::MAX
        &&& self.spec_adj_1().len() == self.n1()
        &&& self.spec_adj_2().len() == self.n2()
        &&& forall|i: int| 0 <= i < self.n1() ==> (#[trigger] self.cross_1()[i]).no_duplicates()
        &&& forall|j: int| 0 <= j < self.n2() ==> (#[trigger] self.cross_2()[j]).no_duplicates()
        &&& forall|i: int, k: int|
            0 <= i < self.n1() && 0 <= k < self.cross_1()[i].len() ==> #[trigger] self.cross_1()[i][k]
                < self.n2()
        &&& forall|j: int, k: int|
            0 <= j < self.n2() && 0 <= k < self.cross_2()[j].len() ==> #[trigger] self.cross_2()[j][k]
                < self.n1()
        &&& forall|i: usize, j: usize|
            i < self.n1() && j < self.n2() ==> (#[trigger] self.cross_1()[i as int].contains(j)
                <==> #[trigger] self.cross_2()[j as int].contains(i))
    }
}

/// what is in a concatenation is in one of its parts
pub proof fn lemma_concat_contains(a: Seq<usize>, b: Seq<usize>, x: usize)
    ensures
        (a + b).contains(x) <==> (a.contains(x) || b.contains(x)),
{
    if (a + b).contains(x) {
        let k = choose|k: int| 0 <= k < (a + b).len() && (a + b)[k] == x;
        if k < a.len() {
            assert(a[k] == x);
        } else {
            assert(b[k - a.len()] == x);
        }
    }
    if a.contains(x) {
        let k = choose|k: int| 0 <= k < a.len() && a[k] == x;
        assert((a + b)[k] == x);
    }
    if b.contains(x) {
        let k = choose|k: int| 0 <= k < b.len() && b[k] == x;
        assert((a + b)[k + a.len()] == x);
    }
}

/// raising every entry keeps the list free of repetitions and moves what it holds
pub proof fn lemma_shifted(s: Seq<usize>, n: nat, bound: nat)
    requires
        forall|k: int| 0 <= k < s.len() ==> #[trigger] s[k] < bound,
        bound + n <= usize::MAX + 1,
    ensures
        shifted(s, n).len() == s.len(),
        forall|k: int| 0 <= k < s.len() ==> #[trigger] shifted(s, n)[k] == s[k] + n,
        forall|y: usize| #[trigger] shifted(s, n).contains(y) <==> (y >= n && s.contains((y - n) as usize)),
        s.no_duplicates() ==> shifted(s, n).no_duplicates(),
{
    let t = shifted(s, n);
    assert forall|k: int| 0 <= k < s.len() implies #[trigger] t[k] == s[k] + n by {
        assert(s[k] < bound);
    }
    assert forall|y: usize| #[trigger] t.contains(y) <==> (y >= n && s.contains((y - n) as usize)) by {
        if t.contains(y) {
            let k = choose|k: int| 0 <= k < t.len() && t[k] == y;
            assert(s[k] == y - n);
        }
        if y >= n && s.contains((y - n) as usize) {
            let k = choose|k: int| 0 <= k < s.len() && s[k] == (y - n) as usize;
            assert(t[k] == y);
        }
    }
    if s.no_duplicates() {
        assert forall|a: int, b: int| 0 <= a < t.len() && 0 <= b < t.len() && a != b implies t[a] != t[b] by {
            assert(s[a] != s[b]);
        }
    }
}

impl<ADJ: AdjTrait, T1, A1: AdjContainer<T1>, T2, A2: AdjContainer<T2>> DualGraph<ADJ, T1, A1, T2, A2> {
    /// the lists of the joint graph, taken apart
    pub proof fn lemma_dual_lists(&self, v: int)
        requires
            self.wf(),
            0 <= v < self.n1() + self.n2(),
        ensures
            v < self.n1() ==> {
                &&& forall|k: int|
                    0 <= k < self.spec_graph_1().spec_adj()[v].len() ==> #[trigger] self.spec_graph_1().spec_adj()[v][k]
                        < self.n1()
                &&& forall|w: usize|
                    #[trigger] self.dual_adj()[v].contains(w) <==> ((w < self.n1()
                        && self.spec_graph_1().spec_adj()[v].contains(w)) || (w >= self.n1() && w < self.n1()
                        + self.n2() && self.cross_1()[v].contains((w - self.n1()) as usize)))
            },
            v >= self.n1() ==> {
                &&& forall|w: usize|
                    #[trigger] self.dual_adj()[v].contains(w) <==> ((w >= self.n1() && w < self.n1()
                        + self.n2() && self.spec_graph_2().spec_adj()[v - self.n1()].contains(
                        (w - self.n1()) as usize,
                    )) || (w < self.n1() && self.cross_2()[v - self.n1()].contains(w)))
            },
            self.dual_adj()[v].no_duplicates(),
            forall|k: int|
                0 <= k < self.dual_adj()[v].len() ==> #[trigger] self.dual_adj()[v][k] < self.n1() + self.n2()
                    && self.dual_adj()[v][k] != v,
    {
        let n1 = self.n1();
        let n2 = self.n2();
        let g1 = self.spec_graph_1().spec_adj();
        let g2 = self.spec_graph_2().spec_adj();
        if v < n1 {
            let a = g1[v];
            let c = self.cross_1()[v];
            assert(self.cross_1()[v] == c);
            lemma_shifted(c, n1, n2);
            let b = shifted(c, n1);
            assert(self.dual_adj()[v] == a + b);
            assert forall|k: int| 0 <= k < a.len() implies #[trigger] a[k] < n1 && a[k] != v by {}
            assert forall|w: usize| #[trigger] self.dual_adj()[v].contains(w) <==> ((w < n1 && a.contains(w)) || (w
                >= n1 && w < n1 + n2 && c.contains((w - n1) as usize))) by {
                lemma_concat_contains(a, b, w);
                if a.contains(w) {
                    let k = choose|k: int| 0 <= k < a.len() && a[k] == w;
                }
                if c.contains((w - n1) as usize) && w >= n1 {
                    let k = choose|k: int| 0 <= k < c.len() && c[k] == (w - n1) as usize;
                    assert(c[k] < n2);
                }
            }
            vstd::seq_lib::lemma_no_dup_in_concat(a, b);
            assert forall|k: int| 0 <= k < (a + b).len() implies #[trigger] (a + b)[k] < n1 + n2 && (a + b)[k] != v by {
                if k >= a.len() {
                    assert((a + b)[k] == b[k - a.len()]);
                }
            }
        } else {
            let a = g2[v - n1];
            let c = self.cross_2()[v - n1];
            assert forall|k: int| 0 <= k < a.len() implies #[trigger] a[k] < n2 by {}
            lemma_shifted(a, n1, n2);
            let b = shifted(a, n1);
            assert(self.dual_adj()[v] == b + c);
            assert forall|w: usize| #[trigger] self.dual_adj()[v].contains(w) <==> ((w >= n1 && w < n1 + n2
                && a.contains((w - n1) as usize)) || (w < n1 && c.contains(w))) by {
                lemma_concat_contains(b, c, w);
                if a.contains((w - n1) as usize) && w >= n1 {
                    let k = choose|k: int| 0 <= k < a.len() && a[k] == (w - n1) as usize;
                    assert(a[k] < n2);
                }
                if c.contains(w) {
                    let k = choose|k: int| 0 <= k < c.len() && c[k] == w;
                    assert(c[k] < n1);
                }
            }
            assert forall|i: int, j: int| 0 <= i < b.len() && 0 <= j < c.len() implies b[i] != c[j] by {
                assert(c[j] < n1);
            }
            vstd::seq_lib::lemma_no_dup_in_concat(b, c);
            assert forall|k: int| 0 <= k < (b + c).len() implies #[trigger] (b + c)[k] < n1 + n2 && (b + c)[k] != v by {
                if k >= b.len() {
                    assert((b + c)[k] == c[k - b.len()]);
                    assert(c[k - b.len()] < n1);
                } else {
                    assert(a[k] != v - n1);
                }
            }
        }
    }

    /// the joint graph is a well formed graph
    pub proof fn lemma_dual_adj_wf(&self)
        requires
            self.wf(),
        ensures
            adj_wf(self.dual_adj()),
            self.dual_adj().len() <= usize::MAX,
    {
        let n1 = self.n1();
        let n2 = self.n2();
        let d = self.dual_adj();
        let g1 = self.spec_graph_1().spec_adj();
        let g2 = self.spec_graph_2().spec_adj();
        assert forall|i: int, k: int| 0 <= i < d.len() && 0 <= k < d[i].len() implies #[trigger] d[i][k]
            < d.len() && d[i][k] != i by {
            self.lemma_dual_lists(i);
        }
        assert forall|i: int| 0 <= i < d.len() implies (#[trigger] d[i]).no_duplicates() by {
            self.lemma_dual_lists(i);
        }
        assert forall|v: usize, w: usize| v < d.len() && #[trigger] d[v as int].contains(w) implies d[w
            as int].contains(v) by {
            self.lemma_dual_lists(v as int);
            if v < n1 {
                if w < n1 {
                    assert(g1[v as int].contains(w));
                    self.lemma_dual_lists(w as int);
                } else {
                    let j = (w - n1) as usize;
                    assert(self.cross_1()[v as int].contains(j));
                    assert(self.cross_2()[j as int].contains(v));
                    self.lemma_dual_lists(w as int);
                }
            } else {
                let x = (v - n1) as usize;
                if w >= n1 {
                    let y = (w - n1) as usize;
                    assert(g2[x as int].contains(y));
                    assert(g2[y as int].contains(x));
                    self.lemma_dual_lists(w as int);
                } else {
                    assert(self.cross_2()[x as int].contains(w));
                    assert(self.cross_1()[w as int].contains(x));
                    self.lemma_dual_lists(w as int);
                }
            }
        }
    }
}

impl<ADJ: AdjTrait, T1, A1: AdjContainer<T1>, T2, A2: AdjContainer<T2>> Searchable for DualGraph<
    ADJ,
    T1,
    A1,
    T2,
    A2,
> {
    open spec fn view_adj(&self) -> Seq<Seq<usize>> {
        self.dual_adj()
    }

    open spec fn searchable(&self) -> bool {
        self.wf()
    }

    proof fn lemma_searchable(&self) {
        self.lemma_dual_adj_wf();
    }

    fn node_count(&self) -> (r: usize) {
        self.total_vertices()
    }

    fn degree_of(&self, v: usize) -> (r: usize) {
        let n1 = self.graph_1.vertex_count();
        if v < n1 {
            self.degree_1(v)
        } else {
            self.degree_2(v - n1)
        }
    }

    fn neighbor_of(&self, v: usize, k: usize) -> (r: usize) {
        let n1 = self.graph_1.vertex_count();
        proof {
            self.lemma_dual_lists(v as int);
        }
        if v < n1 {
            let c = self.graph_1.container(v);
            let d = c.degree();
            if k < d {
                c.neighbor_at(k)
            } else {
                let s = self.adj_1[v].slice();
                proof {
                    lemma_shifted(self.cross_1()[v as int], self.n1(), self.n2());
                    assert(s@ == self.cross_1()[v as int]);
                    assert(s@[k - d] < self.n2());
                }
                s[k - d] + n1
            }
        } else {
            let x = v - n1;
            let c = self.graph_2.container(x);
            let d = c.degree();
            proof {
                assert forall|q: int| 0 <= q < self.spec_graph_2().spec_adj()[x as int].len() implies #[trigger] self.spec_graph_2().spec_adj()[x as int][q]
                    < self.n2() by {}
                lemma_shifted(self.spec_graph_2().spec_adj()[x as int], self.n1(), self.n2());
            }
            if k < d {
                c.neighbor_at(k) + n1
            } else {
                let s = self.adj_2[x].slice();
                s[k - d]
            }
        }
    }
}

impl<ADJ: AdjTrait, T1, A1: AdjContainer<T1>, T2, A2: AdjContainer<T2>> DualGraph<ADJ, T1, A1, T2, A2> {
    /// two graphs without edges between them
    pub fn new(graph_1: GenericGraph<T1, A1>, graph_2: GenericGraph<T2, A2>) -> (r: Self)
        requires
            graph_1.wf(),
            graph_2.wf(),
            graph_1.spec_vertex_count() + graph_2.spec_vertex_count() <= usize::MAX,
        ensures
            r.wf(),
            r.spec_graph_1() == graph_1,
            r.spec_graph_2() == graph_2,
            forall|i: int| 0 <= i < r.n1() ==> #[trigger] r.cross_1()[i] == Seq::<usize>::empty(),
            forall|j: int| 0 <= j < r.n2() ==> #[trigger] r.cross_2()[j] == Seq::<usize>::empty(),
            forall|i: int, x: usize| 0 <= i < r.n1() ==> #[trigger] r.spec_adj_1()[i].spec_accepts(x),
            forall|j: int, x: usize| 0 <= j < r.n2() ==> #[trigger] r.spec_adj_2()[j].spec_accepts(x),
    {
        let n1 = graph_1.vertex_count();
        let n2 = graph_2.vertex_count();
        let mut adj_1: Vec<ADJ> = Vec::with_capacity(n1);
        let mut i: usize = 0;
        while i < n1
            invariant
                i <= n1,
                adj_1@.len() == i,
                forall|k: int| 0 <= k < i ==> (#[trigger] adj_1@[k]).spec_slice() == Seq::<usize>::empty(),
                forall|k: int, x: usize| 0 <= k < i ==> #[trigger] adj_1@[k].spec_accepts(x),
            decreases n1 - i,
        {
            adj_1.push(ADJ::new());
            i = i + 1;
        }
        let mut adj_2: Vec<ADJ> = Vec::with_capacity(n2);
        let mut j: usize = 0;
        while j < n2
            invariant
                j <= n2,
                adj_2@.len() == j,
                forall|k: int| 0 <= k < j ==> (#[trigger] adj_2@[k]).spec_slice() == Seq::<usize>::empty(),
                forall|k: int, x: usize| 0 <= k < j ==> #[trigger] adj_2@[k].spec_accepts(x),
            decreases n2 - j,
        {
            adj_2.push(ADJ::new());
            j = j + 1;
        }
        let r = DualGraph { graph_1, graph_2, adj_1, adj_2 };
        proof {
            assert forall|i: usize, j: usize| i < r.n1() && j < r.n2() implies (#[trigger] r.cross_1()[i as int].contains(j)
                <==> #[trigger] r.cross_2()[j as int].contains(i)) by {
                assert(r.cross_1()[i as int] == Seq::<usize>::empty());
                assert(r.cross_2()[j as int] == Seq::<usize>::empty());
            }
        }
        r
    }

    /// the first graph
    pub fn graph_1(&self) -> (r: &GenericGraph<T1, A1>)
        ensures
            *r == self.spec_graph_1(),
    {
        &self.graph_1
    }

    /// the second graph
    pub fn graph_2(&self) -> (r: &GenericGraph<T2, A2>)
        ensures
            *r == self.spec_graph_2(),
    {
        &self.graph_2
    }

    /// the first graph, to be changed; the rest stays as it is
    pub fn graph_1_mut(&mut self) -> (r: &mut GenericGraph<T1, A1>)
        ensures
            *r == old(self).spec_graph_1(),
            final(self).spec_graph_1() == *final(r),
            final(self).spec_graph_2() == old(self).spec_graph_2(),
            final(self).spec_adj_1() == old(self).spec_adj_1(),
            final(self).spec_adj_2() == old(self).spec_adj_2(),
    {
        &mut self.graph_1
    }

    /// the second graph, to be changed; the rest stays as it is
    pub fn graph_2_mut(&mut self) -> (r: &mut GenericGraph<T2, A2>)
        ensures
            *r == old(self).spec_graph_2(),
            final(self).spec_graph_2() == *final(r),
            final(self).spec_graph_1() == old(self).spec_graph_1(),
            final(self).spec_adj_1() == old(self).spec_adj_1(),
            final(self).spec_adj_2() == old(self).spec_adj_2(),
    {
        &mut self.graph_2
    }

    /// the edges of the first graph's vertices to the second graph
    pub fn adj_1(&self) -> (r: &[ADJ])
        ensures
            r@ == self.spec_adj_1(),
    {
        self.adj_1.as_slice()
    }

    /// the edges of the second graph's vertices to the first graph
    pub fn adj_2(&self) -> (r: &[ADJ])
        ensures
            r@ == self.spec_adj_2(),
    {
        self.adj_2.as_slice()
    }

    /// the vertex counts of the first and the second graph
    pub fn size(&self) -> (r: (usize, usize))
        requires
            self.wf(),
        ensures
            r == (self.n1() as usize, self.n2() as usize),
    {
        (self.graph_1.vertex_count(), self.graph_2.vertex_count())
    }

    /// the number of vertices of both graphs together
    pub fn total_vertices(&self) -> (r: usize)
        requires
            self.wf(),
        ensures
            r == self.n1() + self.n2(),
    {
        self.graph_1.vertex_count() + self.graph_2.vertex_count()
    }

    /// number of neighbors of vertex `index` of the first graph, in both graphs
    pub fn degree_1(&self, index: usize) -> (r: usize)
        requires
            self.wf(),
            index < self.n1(),
        ensures
            r == self.dual_adj()[index as int].len(),
            r == self.spec_graph_1().spec_adj()[index as int].len() + self.cross_1()[index as int].len(),
    {
        proof {
            lemma_shifted(self.cross_1()[index as int], self.n1(), self.n2());
            self.lemma_dual_adj_wf();
        }
        let d = self.graph_1.container(index).degree();
        let c = self.adj_1[index].slice().len();
        proof {
            self.lemma_dual_lists(index as int);
            lemma_cover(self.dual_adj()[index as int], self.n1() + self.n2());
            assert(self.dual_adj()[index as int].len() == d + c);
        }
        d + c
    }

    /// number of neighbors of vertex `index` of the second graph, in both graphs
    pub fn degree_2(&self, index: usize) -> (r: usize)
        requires
            self.wf(),
            index < self.n2(),
        ensures
            r == self.dual_adj()[self.n1() + index].len(),
            r == self.spec_graph_2().spec_adj()[index as int].len() + self.cross_2()[index as int].len(),
    {
        proof {
            assert forall|q: int| 0 <= q < self.spec_graph_2().spec_adj()[index as int].len() implies #[trigger] self.spec_graph_2().spec_adj()[index as int][q]
                < self.n2() by {}
            lemma_shifted(self.spec_graph_2().spec_adj()[index as int], self.n1(), self.n2());
            self.lemma_dual_adj_wf();
        }
        let d = self.graph_2.container(index).degree();
        let c = self.adj_2[index].slice().len();
        proof {
            self.lemma_dual_lists(self.n1() + index);
            lemma_cover(self.dual_adj()[self.n1() + index], self.n1() + self.n2());
            assert(self.dual_adj()[self.n1() + index].len() == d + c);
        }
        d + c
    }
}

impl<ADJ: AdjTrait, T1, A1: AdjContainer<T1>, T2, A2: AdjContainer<T2>> DualGraph<ADJ, T1, A1, T2, A2> {
    /// Adds an edge between vertex `index_graph_1` of the first graph and vertex
    /// `index_graph_2` of the second
    /// * `Err(IndexOutOfBounds)` if one of them is no vertex
    /// * `Err(EdgeExists)` if the first graph's vertex does not take the edge
    /// * nothing changes on an error
    pub fn add_edge(&mut self, index_graph_1: usize, index_graph_2: usize) -> (r: Result<(), AddEdgeError>)
        requires
            old(self).wf(),
            index_graph_1 < old(self).n1() && index_graph_2 < old(self).n2() && old(
                self,
            ).spec_adj_1()[index_graph_1 as int].spec_accepts(index_graph_2) ==> old(
                self,
            ).spec_adj_2()[index_graph_2 as int].spec_accepts(index_graph_1),
        ensures
            final(self).wf(),
            final(self).spec_graph_1() == old(self).spec_graph_1(),
            final(self).spec_graph_2() == old(self).spec_graph_2(),
            (index_graph_1 >= old(self).n1() || index_graph_2 >= old(self).n2()) ==> {
                &&& r == Err::<(), AddEdgeError>(AddEdgeError::IndexOutOfBounds)
                &&& *final(self) == *old(self)
            },
            (index_graph_1 < old(self).n1() && index_graph_2 < old(self).n2() && !old(
                self,
            ).spec_adj_1()[index_graph_1 as int].spec_accepts(index_graph_2)) ==> {
                &&& r == Err::<(), AddEdgeError>(AddEdgeError::EdgeExists)
                &&& final(self).spec_adj_1() == old(self).spec_adj_1()
                &&& final(self).spec_adj_2() == old(self).spec_adj_2()
            },
            (index_graph_1 < old(self).n1() && index_graph_2 < old(self).n2() && old(
                self,
            ).spec_adj_1()[index_graph_1 as int].spec_accepts(index_graph_2)) ==> {
                &&& r == Ok::<(), AddEdgeError>(())
                &&& final(self).cross_1() == old(self).cross_1().update(
                    index_graph_1 as int,
                    old(self).cross_1()[index_graph_1 as int].push(index_graph_2),
                )
                &&& final(self).cross_2() == old(self).cross_2().update(
                    index_graph_2 as int,
                    old(self).cross_2()[index_graph_2 as int].push(index_graph_1),
                )
                &&& forall|k: int|
                    0 <= k < old(self).n1() && k != index_graph_1 ==> #[trigger] final(self).spec_adj_1()[k]
                        == old(self).spec_adj_1()[k]
                &&& forall|k: int|
                    0 <= k < old(self).n2() && k != index_graph_2 ==> #[trigger] final(self).spec_adj_2()[k]
                        == old(self).spec_adj_2()[k]
            },
    {
        if self.adj_1.len() <= index_graph_1 || self.adj_2.len() <= index_graph_2 {
            return Err(AddEdgeError::IndexOutOfBounds);
        }
        let ghost c1 = self.cross_1();
        let ghost c2 = self.cross_2();
        let ghost a1 = self.adj_1@;
        let ghost a2 = self.adj_2@;
        proof {
            a1[index_graph_1 as int].lemma_accepts(index_graph_2);
            a2[index_graph_2 as int].lemma_accepts(index_graph_1);
        }
        if !self.adj_1[index_graph_1].add_edge(index_graph_2) {
            proof {
                assert(self.adj_1@ =~= a1);
            }
            return Err(AddEdgeError::EdgeExists);
        }
        let second = self.adj_2[index_graph_2].add_edge(index_graph_1);
        proof {
            assert(second);
            assert(self.cross_1() =~= c1.update(index_graph_1 as int, c1[index_graph_1 as int].push(index_graph_2)));
            assert(self.cross_2() =~= c2.update(index_graph_2 as int, c2[index_graph_2 as int].push(index_graph_1)));
            let n1 = self.n1();
            let n2 = self.n2();
            assert forall|i: int| 0 <= i < n1 implies (#[trigger] self.cross_1()[i]).no_duplicates() by {
                if i == index_graph_1 {
                    lemma_push_no_dup(c1[i], index_graph_2);
                }
            }
            assert forall|j: int| 0 <= j < n2 implies (#[trigger] self.cross_2()[j]).no_duplicates() by {
                if j == index_graph_2 {
                    lemma_push_no_dup(c2[j], index_graph_1);
                }
            }
            assert forall|i: int, k: int|
                0 <= i < n1 && 0 <= k < self.cross_1()[i].len() implies #[trigger] self.cross_1()[i][k]
                < n2 by {
                if i == index_graph_1 && k < c1[i].len() {
                    assert(self.cross_1()[i][k] == c1[i][k]);
                }
            }
            assert forall|j: int, k: int|
                0 <= j < n2 && 0 <= k < self.cross_2()[j].len() implies #[trigger] self.cross_2()[j][k]
                < n1 by {
                if j == index_graph_2 && k < c2[j].len() {
                    assert(self.cross_2()[j][k] == c2[j][k]);
                }
            }
            assert forall|i: usize, j: usize|
                i < n1 && j < n2 implies (#[trigger] self.cross_1()[i as int].contains(j)
                <==> #[trigger] self.cross_2()[j as int].contains(i)) by {
                if i == index_graph_1 {
                    lemma_push_contains_one(c1[i as int], index_graph_2, j);
                }
                if j == index_graph_2 {
                    lemma_push_contains_one(c2[j as int], index_graph_1, i);
                }
                assert(c1[i as int].contains(j) <==> c2[j as int].contains(i));
            }
        }
        Ok(())
    }
}

impl<ADJ: AdjTrait, T1, A1: AdjContainer<T1>, T2, A2: AdjContainer<T2>> DualGraph<ADJ, T1, A1, T2, A2> {
    /// the index names a vertex of its graph
    pub open spec fn valid_index(&self, x: DualIndex) -> bool {
        match x {
            WhichGraph::Graph1(i) => i < self.n1(),
            WhichGraph::Graph2(j) => j < self.n2(),
        }
    }

    /// the index in the joint graph
    pub(crate) fn encode_index(&self, x: DualIndex) -> (r: usize)
        requires
            self.wf(),
        ensures
            r == self.encode(x),
    {
        let n1 = self.graph_1.vertex_count();
        let n2 = self.graph_2.vertex_count();
        match x {
            WhichGraph::Graph1(i) => if i < n1 {
                i
            } else {
                n1 + n2
            },
            WhichGraph::Graph2(j) => if j < n2 {
                n1 + j
            } else {
                n1 + n2
            },
        }
    }

    /// the index in its own graph of a vertex of the joint graph
    pub(crate) fn decode_index(&self, v: usize) -> (r: DualIndex)
        requires
            self.wf(),
            v < self.n1() + self.n2(),
        ensures
            r == self.decode(v),
            self.valid_index(r),
            self.encode(r) == v,
    {
        let n1 = self.graph_1.vertex_count();
        if v < n1 {
            WhichGraph::Graph1(v)
        } else {
            WhichGraph::Graph2(v - n1)
        }
    }

    /// Depth first search starting at the vertex `index`, over both graphs
    /// * the indices of the vertices in depth first search order, each tagged with its graph
    /// * will only contain the vertices that `index` reaches
    /// * empty if `index` is out of range of its graph
    pub fn dfs_index(&self, index: DualIndex) -> (r: Vec<DualIndex>)
        requires
            self.wf(),
        ensures
            forall|k: int| 0 <= k < r@.len() ==> self.valid_index(#[trigger] r@[k]),
            lists_component(
                self.dual_adj(),
                self.encode(index),
                r@.map_values(|x: DualIndex| self.encode(x)),
            ),
            dfs_linked(self.dual_adj(), r@.map_values(|x: DualIndex| self.encode(x))),
            is_dfs_order(self.dual_adj(), r@.map_values(|x: DualIndex| self.encode(x))),
    {
        proof {
            self.lemma_dual_adj_wf();
        }
        let start = self.encode_index(index);
        let order = dfs_indices(self, start);
        let m = order.len();
        let mut r: Vec<DualIndex> = Vec::with_capacity(m);
        let mut k: usize = 0;
        while k < m
            invariant
                self.wf(),
                lists_component(self.dual_adj(), start, order@),
                dfs_linked(self.dual_adj(), order@),
                is_dfs_order(self.dual_adj(), order@),
                m == order@.len(),
                k <= m,
                r@.len() == k,
                forall|q: int| 0 <= q < k ==> self.valid_index(#[trigger] r@[q]),
                forall|q: int| 0 <= q < k ==> self.encode(#[trigger] r@[q]) == order@[q],
            decreases m - k,
        {
            let v = order[k];
            proof {
                assert(order@.contains(v));
                lemma_reachable_bounds(self.dual_adj(), start, v);
            }
            let x = self.decode_index(v);
            r.push(x);
            k = k + 1;
        }
        assert(r@.map_values(|x: DualIndex| self.encode(x)) =~= order@);
        r
    }

    /// Depth first search starting at the vertex `index` of the first graph, over both graphs
    pub fn dfs_1_index(&self, index: usize) -> (r: Vec<DualIndex>)
        requires
            self.wf(),
        ensures
            forall|k: int| 0 <= k < r@.len() ==> self.valid_index(#[trigger] r@[k]),
            lists_component(
                self.dual_adj(),
                self.encode(WhichGraph::Graph1(index)),
                r@.map_values(|x: DualIndex| self.encode(x)),
            ),
            dfs_linked(self.dual_adj(), r@.map_values(|x: DualIndex| self.encode(x))),
            is_dfs_order(self.dual_adj(), r@.map_values(|x: DualIndex| self.encode(x))),
    {
        self.dfs_index(WhichGraph::Graph1(index))
    }

    /// Depth first search starting at the vertex `index` of the second graph, over both graphs
    pub fn dfs_2_index(&self, index: usize) -> (r: Vec<DualIndex>)
        requires
            self.wf(),
        ensures
            forall|k: int| 0 <= k < r@.len() ==> self.valid_index(#[trigger] r@[k]),
            lists_component(
                self.dual_adj(),
                self.encode(WhichGraph::Graph2(index)),
                r@.map_values(|x: DualIndex| self.encode(x)),
            ),
            dfs_linked(self.dual_adj(), r@.map_values(|x: DualIndex| self.encode(x))),
            is_dfs_order(self.dual_adj(), r@.map_values(|x: DualIndex| self.encode(x))),
    {
        self.dfs_index(WhichGraph::Graph2(index))
    }

    /// Breadth first search starting at the vertex `index`, over both graphs
    /// * pairs `(index, depth)` in breadth first search order, `depth` being the number of
    /// edges on a shortest path from the start
    /// * will only contain the vertices that `index` reaches
    /// * empty if `index` is out of range of its graph
    pub fn bfs_index(&self, index: DualIndex) -> (r: Vec<(DualIndex, usize)>)
        requires
            self.wf(),
        ensures
            forall|k: int| 0 <= k < r@.len() ==> self.valid_index(#[trigger] r@[k].0),
            bfs_result(
                self.dual_adj(),
                self.encode(index),
                r@.map_values(|p: (DualIndex, usize)| (self.encode(p.0), p.1)),
            ),
    {
        proof {
            self.lemma_dual_adj_wf();
        }
        let start = self.encode_index(index);
        let order = bfs_indices(self, start);
        let m = order.len();
        let mut r: Vec<(DualIndex, usize)> = Vec::with_capacity(m);
        let mut k: usize = 0;
        while k < m
            invariant
                self.wf(),
                bfs_result(self.dual_adj(), start, order@),
                m == order@.len(),
                k <= m,
                r@.len() == k,
                forall|q: int| 0 <= q < k ==> self.valid_index(#[trigger] r@[q].0),
                forall|q: int| 0 <= q < k ==> self.encode(#[trigger] r@[q].0) == order@[q].0 && r@[q].1 == order@[q].1,
            decreases m - k,
        {
            let (v, d) = order[k];
            proof {
                assert(is_dist(self.dual_adj(), start, order@[k as int].0, order@[k as int].1 as nat));
                lemma_within_reachable(self.dual_adj(), start, v, d as nat);
                lemma_reachable_bounds(self.dual_adj(), start, v);
            }
            let x = self.decode_index(v);
            r.push((x, d));
            k = k + 1;
        }
        assert(r@.map_values(|p: (DualIndex, usize)| (self.encode(p.0), p.1)) =~= order@);
        r
    }

    /// every vertex of both graphs reaches every other one (true when there are none)
    pub fn is_connected(&self) -> (r: bool)
        requires
            self.wf(),
        ensures
            r <==> forall|s: usize, t: usize|
                s < self.n1() + self.n2() && t < self.n1() + self.n2() ==> #[trigger] reachable(
                    self.dual_adj(),
                    s,
                    t,
                ),
    {
        proof {
            self.lemma_dual_adj_wf();
        }
        let ghost adj = self.dual_adj();
        let total = self.total_vertices();
        if total == 0 {
            return true;
        }
        let order = dfs_indices(self, 0);
        proof {
            assert forall|k: int| 0 <= k < order@.len() implies #[trigger] order@[k] < total by {
                assert(order@.contains(order@[k]));
                lemma_reachable_bounds(adj, 0, order@[k]);
            }
            lemma_cover(order@, total as nat);
            if order@.len() == total {
                assert forall|s: usize, t: usize| s < total && t < total implies #[trigger] reachable(adj, s, t) by {
                    assert(order@.contains(s));
                    assert(order@.contains(t));
                    lemma_reachable_sym(adj, 0, s);
                    lemma_reachable_trans(adj, s, 0, t);
                }
            } else {
                let v = choose|v: usize| v < total && !order@.contains(v);
                assert(!reachable(adj, 0, v));
            }
        }
        order.len() == total
    }

    /// * returns `None` **if** graph not connected **or** does not contain any vertices
    /// * otherwise the greatest number of edges on a shortest path between two vertices,
    /// over both graphs
    /// * uses repeated breadth first search
    pub fn diameter(&self) -> (r: Option<usize>)
        requires
            self.wf(),
        ensures
            r.is_some() <==> (self.n1() + self.n2() > 0 && forall|s: usize, t: usize|
                s < self.n1() + self.n2() && t < self.n1() + self.n2() ==> #[trigger] reachable(
                    self.dual_adj(),
                    s,
                    t,
                )),
            r matches Some(d) ==> is_diameter(self.dual_adj(), d as nat),
    {
        if self.total_vertices() == 0 || !self.is_connected() {
            None
        } else {
            let n1 = self.graph_1.vertex_count();
            Some(max_eccentricity_except(self, n1))
        }
    }
}

impl<ADJ: AdjTrait, T, A1: AdjContainer<T>, A2: AdjContainer<T>> DualGraph<ADJ, T, A1, T, A2> {
    /// what vertex `v` of the joint graph holds
    pub open spec fn dual_contained(&self, v: int) -> T {
        if v < self.n1() {
            self.spec_graph_1().spec_contained()[v]
        } else {
            self.spec_graph_2().spec_contained()[v - self.n1()]
        }
    }

    /// what vertex `v` of the joint graph holds
    pub(crate) fn at_dual(&self, v: usize) -> (r: &T)
        requires
            self.wf(),
            v < self.n1() + self.n2(),
        ensures
            *r == self.dual_contained(v as int),
    {
        let n1 = self.graph_1.vertex_count();
        if v < n1 {
            self.graph_1.at(v)
        } else {
            self.graph_2.at(v - n1)
        }
    }

    /// what the neighbors of vertex `v` of the joint graph hold, in the order of its list
    fn contained_neighbors(&self, v: usize) -> (r: Vec<&T>)
        requires
            self.wf(),
            v < self.n1() + self.n2(),
        ensures
            r@.len() == self.dual_adj()[v as int].len(),
            forall|k: int|
                0 <= k < r@.len() ==> *#[trigger] r@[k] == self.dual_contained(self.dual_adj()[v as int][k] as int),
    {
        proof {
            self.lemma_dual_adj_wf();
        }
        let d = self.degree_of(v);
        let mut r: Vec<&T> = Vec::with_capacity(d);
        let mut k: usize = 0;
        while k < d
            invariant
                self.wf(),
                adj_wf(self.dual_adj()),
                v < self.n1() + self.n2(),
                d == self.dual_adj()[v as int].len(),
                k <= d,
                r@.len() == k,
                forall|q: int|
                    0 <= q < k ==> *#[trigger] r@[q] == self.dual_contained(self.dual_adj()[v as int][q] as int),
            decreases d - k,
        {
            let w = self.neighbor_of(v, k);
            r.push(self.at_dual(w));
            k = k + 1;
        }
        r
    }

    /// what the neighbors of vertex `index` of the first graph hold, in both graphs:
    /// those in the first graph first, then those in the second
    pub fn contained_iter_neighbors_1(&self, index: usize) -> (r: Vec<&T>)
        requires
            self.wf(),
            index < self.n1(),
        ensures
            r@.len() == self.dual_adj()[index as int].len(),
            forall|k: int|
                0 <= k < r@.len() ==> *#[trigger] r@[k] == self.dual_contained(
                    self.dual_adj()[index as int][k] as int,
                ),
    {
        self.contained_neighbors(index)
    }

    /// what the neighbors of vertex `index` of the second graph hold, in both graphs:
    /// those in the second graph first, then those in the first
    pub fn contained_iter_neighbors_2(&self, index: usize) -> (r: Vec<&T>)
        requires
            self.wf(),
            index < self.n2(),
        ensures
            r@.len() == self.dual_adj()[self.n1() + index].len(),
            forall|k: int|
                0 <= k < r@.len() ==> *#[trigger] r@[k] == self.dual_contained(
                    self.dual_adj()[self.n1() + index][k] as int,
                ),
    {
        let n1 = self.graph_1.vertex_count();
        self.contained_neighbors(n1 + index)
    }

    /// Depth first search starting at the vertex `index`, over both graphs
    /// * what the vertices hold, in depth first search order
    /// * will only contain the vertices that `index` reaches
    /// * empty if `index` is out of range of its graph
    pub fn dfs_contained(&self, index: DualIndex) -> (r: Vec<&T>)
        requires
            self.wf(),
        ensures
            exists|order: Seq<usize>|
                lists_component(self.dual_adj(), self.encode(index), order) && (dfs_linked(self.dual_adj(), order) && is_dfs_order(self.dual_adj(), order))
                    && order.len() == r@.len() && forall|k: int|
                    0 <= k < r@.len() ==> *#[trigger] r@[k] == self.dual_contained(order[k] as int),
    {
        proof {
            self.lemma_dual_adj_wf();
        }
        let start = self.encode_index(index);
        let order = dfs_indices(self, start);
        let m = order.len();
        let mut r: Vec<&T> = Vec::with_capacity(m);
        let mut k: usize = 0;
        while k < m
            invariant
                self.wf(),
                lists_component(self.dual_adj(), start, order@),
                dfs_linked(self.dual_adj(), order@),
                is_dfs_order(self.dual_adj(), order@),
                m == order@.len(),
                k <= m,
                r@.len() == k,
                forall|q: int| 0 <= q < k ==> *#[trigger] r@[q] == self.dual_contained(order@[q] as int),
            decreases m - k,
        {
            let v = order[k];
            proof {
                assert(order@.contains(v));
                lemma_reachable_bounds(self.dual_adj(), start, v);
            }
            r.push(self.at_dual(v));
            k = k + 1;
        }
        r
    }

    /// Depth first search starting at the vertex `index_graph_1` of the first graph
    pub fn dfs_1_contained(&self, index_graph_1: usize) -> (r: Vec<&T>)
        requires
            self.wf(),
        ensures
            exists|order: Seq<usize>|
                lists_component(self.dual_adj(), self.encode(WhichGraph::Graph1(index_graph_1)), order)
                    && (dfs_linked(self.dual_adj(), order) && is_dfs_order(self.dual_adj(), order)) && order.len() == r@.len() && forall|k: int|
                    0 <= k < r@.len() ==> *#[trigger] r@[k] == self.dual_contained(order[k] as int),
    {
        self.dfs_contained(WhichGraph::Graph1(index_graph_1))
    }

    /// Depth first search starting at the vertex `index_graph_2` of the second graph
    pub fn dfs_2_contained(&self, index_graph_2: usize) -> (r: Vec<&T>)
        requires
            self.wf(),
        ensures
            exists|order: Seq<usize>|
                lists_component(self.dual_adj(), self.encode(WhichGraph::Graph2(index_graph_2)), order)
                    && (dfs_linked(self.dual_adj(), order) && is_dfs_order(self.dual_adj(), order)) && order.len() == r@.len() && forall|k: int|
                    0 <= k < r@.len() ==> *#[trigger] r@[k] == self.dual_contained(order[k] as int),
    {
        self.dfs_contained(WhichGraph::Graph2(index_graph_2))
    }
}

} // verus!
