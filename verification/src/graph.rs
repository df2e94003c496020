//! The default adjacency container [`NodeContainer`] and the graph [`Graph`] built on it.
use vstd::prelude::*;
use crate::traits::{AdjContainer, AdjList, GraphErrors, Node, first_index, swap_removed};
use crate::seq_util::{position_of, sort_usizes};
use crate::generic_graph::GenericGraph;
use crate::graph_spec::{
    adj_wf, deg_sum, deg_sum_upto, is_edge, lemma_handshake, lemma_push_contains, lemma_push_contains_one,
    lemma_push_no_dup, lemma_push_no_dup_rev,
};

verus! {

/// A graph whose vertices are stored in [`NodeContainer`]s
pub type Graph<T> = GenericGraph<T, NodeContainer<T>>;

/// # Used for accessing neighbor information from graph
/// * contains Adjacency list
///  and internal id (normally the index in the graph).
/// * also contains user specified data, i.e, `T` from `NodeContainer<T>`
#[derive(Debug)]
pub struct NodeContainer<T> {
    pub(crate) id: usize,
    pub(crate) adj: Vec<usize>,
    pub(crate) node: T,
}

/// the position `p` is the first one that holds `x`
pub proof fn lemma_first_index<A>(s: Seq<usize>, x: usize, p: int)
    requires
        0 <= p < s.len(),
        s[p] == x,
        forall|q: int| 0 <= q < p ==> s[q] != x,
    ensures
        first_index(s, x) == p,
{
    let c = first_index(s, x);
    assert(0 <= c < s.len() && s[c] == x && forall|q: int| 0 <= q < c ==> s[q] != x);
    if c < p {
        assert(s[c] != x);
    } else if c > p {
        assert(s[p] != x);
    }
}

impl<T: Clone> Clone for NodeContainer<T> {
    /// the same id and adjacency list, with a clone of what the vertex holds
    fn clone(&self) -> (r: Self)
        ensures
            r.spec_id() == self.spec_id(),
            r.spec_adj() == self.spec_adj(),
            cloned::<T>(self.spec_contained(), r.spec_contained()),
    {
        let adj = self.adj.clone();
        proof {
            assert(adj@ =~= self.adj@);
        }
        NodeContainer { id: self.id, adj, node: self.node.clone() }
    }
}

/// A clone of a well formed graph (what `clone` ensures of it) is well formed, has the
/// same edges, and each of its vertices holds a clone of what the vertex held.
pub proof fn lemma_graph_clone<T: Clone>(g: Graph<T>, c: Graph<T>)
    requires
        g.wf(),
        c.view_vertices().len() == g.view_vertices().len(),
        forall|i: int|
            0 <= i < g.view_vertices().len() ==> cloned::<NodeContainer<T>>(
                g.view_vertices()[i],
                #[trigger] c.view_vertices()[i],
            ),
        c.view_edge_count() == g.view_edge_count(),
        c.counts_agree() == g.counts_agree(),
    ensures
        c.wf(),
        c.spec_adj() == g.spec_adj(),
        c.spec_vertex_count() == g.spec_vertex_count(),
        forall|i: int|
            0 <= i < g.spec_vertex_count() ==> cloned::<T>(g.spec_contained()[i], #[trigger] c.spec_contained()[i]),
{
    assert forall|i: int| 0 <= i < g.view_vertices().len() implies #[trigger] c.view_vertices()[i].spec_id()
        == g.view_vertices()[i].spec_id() && c.view_vertices()[i].spec_adj() == g.view_vertices()[i].spec_adj()
        && cloned::<T>(g.view_vertices()[i].spec_contained(), c.view_vertices()[i].spec_contained()) by {
        assert(cloned::<NodeContainer<T>>(g.view_vertices()[i], c.view_vertices()[i]));
    }
    assert(c.spec_adj() =~= g.spec_adj());
}

impl<T> NodeContainer<T> {
    /// removes the first entry `elem` from the adjacency list, by `swap_remove`
    fn swap_remove_element(&mut self, elem: usize)
        requires
            old(self).adj@.contains(elem),
        ensures
            final(self).adj@ == swap_removed(old(self).adj@, elem),
            final(self).id == old(self).id,
            final(self).node == old(self).node,
    {
        let index = position_of(&self.adj, elem);
        match index {
            Some(p) => {
                proof {
                    lemma_first_index::<usize>(self.adj@, elem, p as int);
                }
                self.adj.swap_remove(p);
                assert(self.adj@ =~= swap_removed(old(self).adj@, elem));
            },
            None => {},
        }
    }
}

impl<T> AdjContainer<T> for NodeContainer<T> {
    closed spec fn spec_id(&self) -> usize {
        self.id
    }

    closed spec fn spec_adj(&self) -> Seq<usize> {
        self.adj@
    }

    closed spec fn spec_contained(&self) -> T {
        self.node
    }

    fn new(id: usize, node: T) -> (r: Self) {
        NodeContainer { id, adj: Vec::new(), node }
    }

    fn contained(&self) -> (r: &T) {
        &self.node
    }

    fn contained_mut(&mut self) -> (r: &mut T) {
        &mut self.node
    }

    fn neighbor_at(&self, k: usize) -> (r: usize) {
        self.adj[k]
    }

    fn degree(&self) -> (r: usize) {
        self.adj.len()
    }

    fn id(&self) -> (r: usize) {
        self.id
    }

    fn get_adj_first(&self) -> (r: Option<&usize>) {
        if self.adj.len() == 0 {
            None
        } else {
            Some(&self.adj[0])
        }
    }

    fn is_adjacent(&self, other_id: usize) -> (r: bool) {
        position_of(&self.adj, other_id).is_some()
    }

    fn sort_adj(&mut self) {
        sort_usizes(&mut self.adj);
    }

    fn clear_edges(&mut self) {
        self.adj.clear();
    }

    fn push(&mut self, other: &mut Self) -> (r: Result<(), GraphErrors>) {
        if self.is_adjacent(other.id) {
            return Err(GraphErrors::EdgeExists);
        }
        self.adj.push(other.id);
        other.adj.push(self.id);
        Ok(())
    }

    fn remove(&mut self, other: &mut Self) -> (r: Result<(), GraphErrors>) {
        if !self.is_adjacent(other.id) {
            return Err(GraphErrors::EdgeDoesNotExist);
        }
        let oid = other.id;
        let sid = self.id;
        self.swap_remove_element(oid);
        other.swap_remove_element(sid);
        Ok(())
    }
}

impl<T> AdjList<usize> for NodeContainer<T> {
    closed spec fn spec_edges(&self) -> Seq<usize> {
        self.adj@
    }

    fn edges(&self) -> (r: &[usize]) {
        self.adj.as_slice()
    }
}

} // verus!

verus! {

/// the adjacency list of vertex `i` in the complete graph on `n` vertices: all other
/// vertices, ascending
pub open spec fn complete_list(n: nat, i: int) -> Seq<usize> {
    Seq::new((n - 1) as nat, |k: int| if k < i { k as usize } else { (k + 1) as usize })
}

/// the degree sum of the first `k` lists of a complete graph
proof fn lemma_complete_deg_sum(adj: Seq<Seq<usize>>, n: nat, k: int)
    requires
        n >= 1,
        adj.len() == n,
        0 <= k <= n,
        forall|i: int| 0 <= i < n ==> #[trigger] adj[i].len() == n - 1,
    ensures
        deg_sum_upto(adj, k) == k * (n - 1),
    decreases k,
{
    if k > 0 {
        lemma_complete_deg_sum(adj, n, k - 1);
        assert(adj[k - 1].len() == n - 1);
        assert(deg_sum_upto(adj, k) == deg_sum_upto(adj, k - 1) + adj[k - 1].len());
        assert(k * (n - 1) == (k - 1) * (n - 1) + (n - 1)) by (nonlinear_arith);
    } else {
        assert(0 * (n - 1) == 0) by (nonlinear_arith);
    }
}

/// n (n - 1) is even
proof fn lemma_pairs_even(n: nat)
    ensures
        (n * (n - 1)) % 2 == 0,
        2 * ((n * (n - 1)) / 2) == n * (n - 1),
    decreases n,
{
    if n >= 1 {
        lemma_pairs_even((n - 1) as nat);
        assert(n * (n - 1) == (n - 1) * (n - 2) + 2 * (n - 1)) by (nonlinear_arith)
            requires n >= 1;
    }
}

impl<T: Node> GenericGraph<T, NodeContainer<T>> {
    /// Efficiently create a complete graph with n nodes
    pub fn complete_graph(n: usize) -> (r: Self)
        requires
            n * (n - 1) <= usize::MAX,
        ensures
            r.wf(),
            r.spec_vertex_count() == n,
            forall|i: int| 0 <= i < n ==> #[trigger] r.spec_adj()[i] == complete_list(n as nat, i),
            forall|i: usize, j: usize| i < n && j < n ==> (is_edge(r.spec_adj(), i, j) <==> i != j),
            2 * r.view_edge_count() == n * (n - 1),
    {
        let mut vertices: Vec<NodeContainer<T>> = Vec::with_capacity(n);
        let mut i: usize = 0;
        while i < n
            invariant
                i <= n,
                vertices@.len() == i,
                forall|k: int|
                    0 <= k < i ==> (#[trigger] vertices@[k]).id == k && vertices@[k].adj@
                        == complete_list(n as nat, k),
            decreases n - i,
        {
            let mut adj: Vec<usize> = Vec::with_capacity(n - 1);
            let mut index: usize = 0;
            while index < i
                invariant
                    index <= i < n,
                    adj@ == complete_list(n as nat, i as int).take(index as int),
                decreases i - index,
            {
                adj.push(index);
                index = index + 1;
                assert(adj@ =~= complete_list(n as nat, i as int).take(index as int));
            }
            let mut index: usize = i + 1;
            while index < n
                invariant
                    i < index <= n,
                    adj@ == complete_list(n as nat, i as int).take(index - 1),
                decreases n - index,
            {
                adj.push(index);
                index = index + 1;
                assert(adj@ =~= complete_list(n as nat, i as int).take(index - 1));
            }
            assert(adj@ =~= complete_list(n as nat, i as int));
            vertices.push(NodeContainer { id: i, node: T::new_from_index(i), adj });
            i = i + 1;
        }
        proof {
            lemma_pairs_even(n as nat);
        }
        let edge_count = if n == 0 {
            0
        } else {
            n * (n - 1) / 2
        };
        let r = Self::from_parts(vertices, edge_count);
        proof {
            let adj = r.spec_adj();
            assert forall|i: int| 0 <= i < n implies #[trigger] adj[i] == complete_list(n as nat, i) by {
                assert(adj[i] == r.view_vertices()[i].spec_adj());
            }
            assert forall|i: usize, j: usize| i < n && j < n implies (adj[i as int].contains(j) <==> i != j) by {
                let l = complete_list(n as nat, i as int);
                if i != j {
                    let k = if j < i { j as int } else { j - 1 };
                    assert(l[k] == j);
                }
                if adj[i as int].contains(j) {
                    let k = choose|k: int| 0 <= k < l.len() && l[k] == j;
                }
            }
            assert forall|i: int, k: int| 0 <= i < n && 0 <= k < adj[i].len() implies #[trigger] adj[i][k]
                < n && adj[i][k] != i by {}
            assert forall|i: int| 0 <= i < n implies (#[trigger] adj[i]).no_duplicates() by {}
            assert forall|i: usize, j: usize| i < n && #[trigger] adj[i as int].contains(j) implies adj[j
                as int].contains(i) by {
                let l = complete_list(n as nat, i as int);
                let k = choose|k: int| 0 <= k < l.len() && l[k] == j;
            }
            if n > 0 {
                lemma_complete_deg_sum(adj, n as nat, n as int);
            }
        }
        r
    }
}

} // verus!

verus! {

/// the vertices below `k` that `list` names, ascending
pub open spec fn named_upto(list: Seq<usize>, k: nat) -> Seq<usize>
    decreases k,
{
    if k == 0 {
        Seq::empty()
    } else {
        let p = named_upto(list, (k - 1) as nat);
        if list.contains((k - 1) as usize) {
            p.push((k - 1) as usize)
        } else {
            p
        }
    }
}

/// the position of `w` in `sl`
pub open spec fn rank_in(sl: Seq<usize>, w: usize) -> usize {
    (choose|j: int| 0 <= j < sl.len() && sl[j] == w) as usize
}

/// the entries of `s` that `sl` holds, each replaced by its position in `sl`
pub open spec fn relabel(s: Seq<usize>, sl: Seq<usize>) -> Seq<usize>
    decreases s.len(),
{
    if s.len() == 0 {
        Seq::empty()
    } else {
        let p = relabel(s.drop_last(), sl);
        if sl.contains(s.last()) {
            p.push(rank_in(sl, s.last()))
        } else {
            p
        }
    }
}

/// entries of `named_upto` ascend, lie below `k`, and are exactly the named vertices below `k`
pub proof fn lemma_named_upto(list: Seq<usize>, k: nat)
    requires
        k <= usize::MAX + 1,
    ensures
        forall|a: int, b: int|
            0 <= a < b < named_upto(list, k).len() ==> named_upto(list, k)[a] < named_upto(
                list,
                k,
            )[b],
        forall|a: int| 0 <= a < named_upto(list, k).len() ==> #[trigger] named_upto(list, k)[a] < k,
        forall|v: usize| #[trigger] named_upto(list, k).contains(v) <==> (v < k && list.contains(v)),
        named_upto(list, k).len() <= k,
    decreases k,
{
    if k > 0 {
        let k1 = (k - 1) as nat;
        lemma_named_upto(list, k1);
        let p = named_upto(list, k1);
        if list.contains(k1 as usize) {
            assert(named_upto(list, k) == p.push(k1 as usize));
            assert forall|v: usize| #[trigger] named_upto(list, k).contains(v) <==> (v < k
                && list.contains(v)) by {
                lemma_push_contains_one(p, k1 as usize, v);
            }
        } else {
            assert(named_upto(list, k) == p);
            assert forall|v: usize| #[trigger] named_upto(list, k).contains(v) <==> (v < k
                && list.contains(v)) by {
                assert(p.contains(v) <==> (v < k1 && list.contains(v)));
            }
        }
    } else {
        assert(named_upto(list, 0) =~= Seq::<usize>::empty());
    }
}

/// in a list without repetitions, the rank of an entry is its position
pub proof fn lemma_rank(sl: Seq<usize>, j: int)
    requires
        sl.no_duplicates(),
        0 <= j < sl.len(),
        sl.len() <= usize::MAX,
    ensures
        rank_in(sl, sl[j]) == j,
{
    let c = choose|c: int| 0 <= c < sl.len() && sl[c] == sl[j];
    assert(sl[c] == sl[j]);
}

/// what `relabel` keeps
pub proof fn lemma_relabel(s: Seq<usize>, sl: Seq<usize>)
    requires
        sl.no_duplicates(),
        sl.len() <= usize::MAX,
    ensures
        relabel(s, sl).len() <= s.len(),
        forall|k: int| 0 <= k < relabel(s, sl).len() ==> #[trigger] relabel(s, sl)[k] < sl.len(),
        forall|j: usize| #[trigger] relabel(s, sl).contains(j) <==> (j < sl.len() && s.contains(sl[j as int])),
        s.no_duplicates() ==> relabel(s, sl).no_duplicates(),
    decreases s.len(),
{
    if s.len() == 0 {
        assert(relabel(s, sl) =~= Seq::<usize>::empty());
    } else {
        let s1 = s.drop_last();
        let x = s.last();
        lemma_relabel(s1, sl);
        let p = relabel(s1, sl);
        assert(s =~= s1.push(x));
        lemma_push_contains(s1, x);
        if sl.contains(x) {
            let c = choose|c: int| 0 <= c < sl.len() && sl[c] == x;
            lemma_rank(sl, c);
            let rx = rank_in(sl, x);
            assert(rx == c);
            assert(relabel(s, sl) == p.push(rx));
            lemma_push_contains(p, rx);
            assert forall|j: usize| #[trigger] relabel(s, sl).contains(j) <==> (j < sl.len() && s.contains(
                sl[j as int],
            )) by {
                lemma_push_contains_one(p, rx, j);
                if j < sl.len() && sl[j as int] == x {
                    assert(j == c);
                }
            }
            if s.no_duplicates() {
                assert(s1.no_duplicates()) by {
                    lemma_push_no_dup_rev(s1, x);
                }
                lemma_push_no_dup_rev(s1, x);
                assert(!p.contains(rx));
                lemma_push_no_dup(p, rx);
            }
        } else {
            assert(relabel(s, sl) == p);
            assert forall|j: usize| #[trigger] relabel(s, sl).contains(j) <==> (j < sl.len() && s.contains(
                sl[j as int],
            )) by {
                if j < sl.len() && sl[j as int] == x {
                    assert(sl.contains(x));
                }
            }
            if s.no_duplicates() {
                lemma_push_no_dup_rev(s1, x);
            }
        }
    }
}

/// the degree sum grows with the number of lists
proof fn lemma_deg_sum_mono(adj: Seq<Seq<usize>>, a: int, b: int)
    requires
        0 <= a <= b <= adj.len(),
    ensures
        deg_sum_upto(adj, a) <= deg_sum_upto(adj, b),
    decreases b,
{
    if a < b {
        lemma_deg_sum_mono(adj, a, b - 1);
    }
}

/// lists picked at ascending positions of `adj`, each no longer than the list it stands
/// for, have lengths that sum to at most the degree sum of `adj`
proof fn lemma_sub_deg_sum(adj: Seq<Seq<usize>>, sub: Seq<Seq<usize>>, sl: Seq<usize>, k: int)
    requires
        sub.len() == sl.len(),
        0 <= k <= sl.len(),
        forall|a: int, b: int| 0 <= a < b < sl.len() ==> sl[a] < sl[b],
        forall|a: int| 0 <= a < sl.len() ==> #[trigger] sl[a] < adj.len(),
        forall|a: int| 0 <= a < sl.len() ==> #[trigger] sub[a].len() <= adj[sl[a] as int].len(),
    ensures
        k == 0 ==> deg_sum_upto(sub, k) == 0,
        k > 0 ==> deg_sum_upto(sub, k) <= deg_sum_upto(adj, sl[k - 1] + 1),
    decreases k,
{
    if k > 0 {
        assert(sub[k - 1].len() <= adj[sl[k - 1] as int].len());
        assert(deg_sum_upto(sub, k) == deg_sum_upto(sub, k - 1) + sub[k - 1].len());
        assert(deg_sum_upto(adj, sl[k - 1] + 1) == deg_sum_upto(adj, sl[k - 1] as int) + adj[sl[k
            - 1] as int].len());
    }
    if k > 1 {
        lemma_sub_deg_sum(adj, sub, sl, k - 1);
        lemma_deg_sum_mono(adj, sl[k - 2] + 1, sl[k - 1] as int);
    }
}

impl<T: Node, A: AdjContainer<T>> GenericGraph<T, A> {
    /// # Create a subgraph
    /// `node_list` should contain all the indices corresponding to the nodes you want to
    /// keep, the order of the indices is irrelevant. Duplicate indices will be ignored.
    /// If any index is out of bounds (or `node_list` is empty), `None` will be returned
    ///
    /// All edges between nodes that are inside the `node_list` will be kept.
    /// All other edges will be discarded.
    /// The nodes in the subgraph will get new indices corresponding to their new position,
    /// i.e., the kept vertices in ascending order.
    /// The contained information (`T`) will be cloned.
    pub fn cloned_subgraph(&self, node_list: Vec<usize>) -> (r: Option<Graph<T>>)
        requires
            self.wf(),
            2 * self.view_edge_count() <= usize::MAX,
        ensures
            r.is_none() <==> (node_list@.len() == 0 || exists|k: int|
                0 <= k < node_list@.len() && node_list@[k] >= self.spec_vertex_count()),
            r matches Some(g) ==> {
                let sl = named_upto(node_list@, self.spec_vertex_count());
                &&& g.wf()
                &&& g.spec_vertex_count() == sl.len()
                &&& forall|k: int|
                    0 <= k < sl.len() ==> #[trigger] g.spec_adj()[k] == relabel(
                        self.spec_adj()[sl[k] as int],
                        sl,
                    )
                &&& forall|k: int|
                    0 <= k < sl.len() ==> cloned::<T>(
                        self.spec_contained()[sl[k] as int],
                        #[trigger] g.spec_contained()[k],
                    )
            },
    {
        let ghost adj = self.spec_adj();
        let n = self.vertex_count();
        let m = node_list.len();
        if m == 0 {
            return None;
        }
        let mut keep: Vec<bool> = vec![false; n];
        let mut p: usize = 0;
        while p < m
            invariant
                n == self.spec_vertex_count(),
                m == node_list@.len(),
                p <= m,
                keep@.len() == n,
                forall|q: int| 0 <= q < p ==> #[trigger] node_list@[q] < n,
                forall|v: usize| v < n ==> (#[trigger] keep@[v as int] <==> node_list@.take(p as int).contains(v)),
            decreases m - p,
        {
            let x = node_list[p];
            if x >= n {
                assert(node_list@[p as int] >= n);
                return None;
            }
            keep.set(x, true);
            proof {
                assert(node_list@.take(p as int + 1) == node_list@.take(p as int).push(x));
                assert forall|v: usize| v < n implies (#[trigger] keep@[v as int] <==> node_list@.take(
                    p as int + 1,
                ).contains(v)) by {
                    lemma_push_contains_one(node_list@.take(p as int), x, v);
                }
            }
            p = p + 1;
        }
        proof {
            assert(node_list@.take(m as int) == node_list@);
            assert(!exists|k: int| 0 <= k < node_list@.len() && node_list@[k] >= n);
        }
        // the kept vertices, ascending, and the new index of each
        let mut sl: Vec<usize> = Vec::new();
        let mut pos: Vec<usize> = vec![0; n];
        let mut v: usize = 0;
        while v < n
            invariant
                v <= n,
                keep@.len() == n,
                pos@.len() == n,
                forall|w: usize| w < n ==> (#[trigger] keep@[w as int] <==> node_list@.contains(w)),
                sl@ == named_upto(node_list@, v as nat),
                forall|w: usize| w < v && #[trigger] keep@[w as int] ==> pos@[w as int] < sl@.len() && sl@[pos@[w as int] as int] == w,
            decreases n - v,
        {
            proof {
                lemma_named_upto(node_list@, v as nat);
            }
            if keep[v] {
                pos.set(v, sl.len());
                sl.push(v);
                proof {
                    assert(named_upto(node_list@, v as nat + 1) == named_upto(node_list@, v as nat).push(v));
                }
            } else {
                proof {
                    assert(named_upto(node_list@, v as nat + 1) == named_upto(node_list@, v as nat));
                }
            }
            v = v + 1;
        }
        let ghost slv = sl@;
        proof {
            lemma_named_upto(node_list@, n as nat);
            assert(slv.no_duplicates()) by {
                assert forall|a: int, b: int| 0 <= a < slv.len() && 0 <= b < slv.len() && a != b implies slv[a] != slv[b] by {
                    if a < b {
                        assert(slv[a] < slv[b]);
                    } else {
                        assert(slv[b] < slv[a]);
                    }
                }
            }
        }
        let ns = sl.len();
        let mut vertices: Vec<NodeContainer<T>> = Vec::with_capacity(ns);
        let mut k: usize = 0;
        while k < ns
            invariant
                self.wf(),
                adj == self.spec_adj(),
                n == adj.len(),
                ns == slv.len(),
                sl@ == slv,
                slv == named_upto(node_list@, n as nat),
                slv.no_duplicates(),
                forall|a: int| 0 <= a < slv.len() ==> #[trigger] slv[a] < n,
                keep@.len() == n,
                pos@.len() == n,
                forall|w: usize| w < n ==> (#[trigger] keep@[w as int] <==> slv.contains(w)),
                forall|w: usize| w < n && #[trigger] keep@[w as int] ==> pos@[w as int] < ns && slv[pos@[w as int] as int] == w,
                k <= ns,
                vertices@.len() == k,
                forall|a: int|
                    0 <= a < k ==> (#[trigger] vertices@[a]).id == a && vertices@[a].adj@ == relabel(
                        adj[slv[a] as int],
                        slv,
                    ) && cloned::<T>(self.spec_contained()[slv[a] as int], vertices@[a].node),
            decreases ns - k,
        {
            let vi = sl[k];
            let c = self.container(vi);
            let d = c.degree();
            let mut list: Vec<usize> = Vec::with_capacity(d);
            let mut q: usize = 0;
            while q < d
                invariant
                    self.wf(),
                    adj == self.spec_adj(),
                    n == adj.len(),
                    vi < n,
                    c.spec_adj() == adj[vi as int],
                    d == adj[vi as int].len(),
                    q <= d,
                    slv.no_duplicates(),
                    ns == slv.len(),
                    keep@.len() == n,
                    pos@.len() == n,
                    forall|w: usize| w < n ==> (#[trigger] keep@[w as int] <==> slv.contains(w)),
                    forall|w: usize| w < n && #[trigger] keep@[w as int] ==> pos@[w as int] < ns && slv[pos@[w as int] as int] == w,
                    list@ == relabel(adj[vi as int].take(q as int), slv),
                decreases d - q,
            {
                let w = c.neighbor_at(q);
                proof {
                    assert(adj[vi as int][q as int] == w);
                    assert(w < n);
                    let s0 = adj[vi as int].take(q as int);
                    assert(adj[vi as int].take(q as int + 1).drop_last() =~= s0);
                    assert(adj[vi as int].take(q as int + 1).last() == w);
                }
                if keep[w] {
                    proof {
                        lemma_rank(slv, pos@[w as int] as int);
                    }
                    list.push(pos[w]);
                }
                q = q + 1;
            }
            proof {
                assert(adj[vi as int].take(d as int) =~= adj[vi as int]);
            }
            vertices.push(NodeContainer { id: k, adj: list, node: c.contained().clone() });
            k = k + 1;
        }
        // every edge is counted twice in the degree sum
        let mut sum: usize = 0;
        let mut a: usize = 0;
        let ghost sub = Seq::new(ns as nat, |i: int| vertices@[i].adj@);
        proof {
            assert forall|i: int| 0 <= i < ns implies #[trigger] sub[i].len() <= adj[slv[i] as int].len() by {
                lemma_relabel(adj[slv[i] as int], slv);
            }
            if ns > 0 {
                lemma_sub_deg_sum(adj, sub, slv, ns as int);
                lemma_deg_sum_mono(adj, slv[ns - 1] + 1, n as int);
            }
        }
        while a < ns
            invariant
                a <= ns,
                ns == vertices@.len(),
                sub == Seq::new(ns as nat, |i: int| vertices@[i].adj@),
                sum == deg_sum_upto(sub, a as int),
                deg_sum_upto(sub, ns as int) <= usize::MAX,
            decreases ns - a,
        {
            proof {
                lemma_deg_sum_mono(sub, a as int + 1, ns as int);
            }
            sum = sum + vertices[a].adj.len();
            a = a + 1;
        }
        let g = Graph::<T>::from_parts(vertices, sum / 2);
        proof {
            let gadj = g.spec_adj();
            assert(gadj =~= sub);
            assert forall|i: int| 0 <= i < ns implies #[trigger] gadj[i] == relabel(adj[slv[i] as int], slv) by {}
            assert forall|i: int, j: int| 0 <= i < ns && 0 <= j < gadj[i].len() implies #[trigger] gadj[i][j]
                < ns && gadj[i][j] != i by {
                lemma_relabel(adj[slv[i] as int], slv);
                let x = gadj[i][j];
                assert(gadj[i].contains(x));
                assert(adj[slv[i] as int].contains(slv[x as int]));
                if x == i {
                    let q = choose|q: int| 0 <= q < adj[slv[i] as int].len() && adj[slv[i] as int][q] == slv[i];
                    assert(adj[slv[i] as int][q] != slv[i]);
                }
            }
            assert forall|i: int| 0 <= i < ns implies (#[trigger] gadj[i]).no_duplicates() by {
                lemma_relabel(adj[slv[i] as int], slv);
            }
            assert forall|i: usize, j: usize| i < ns && #[trigger] gadj[i as int].contains(j) implies gadj[j
                as int].contains(i) by {
                lemma_relabel(adj[slv[i as int] as int], slv);
                lemma_relabel(adj[slv[j as int] as int], slv);
                assert(adj[slv[i as int] as int].contains(slv[j as int]));
                assert(adj[slv[j as int] as int].contains(slv[i as int]));
            }
            lemma_handshake(gadj);
        }
        Some(g)
    }
}

} // verus!

verus! {

impl<T: Node, A: AdjContainer<T>> GenericGraph<T, A> {
    /// Use the topology from another graph and create a new one with
    /// the same topology but the function 'map' is used to
    /// map what is contained in the original Graph to the newly created one.
    pub fn clone_topology<F, T2>(&self, map: F) -> (r: Graph<T2>)
        where F: Fn(&T) -> T2,
        requires
            self.wf(),
            forall|t: &T| map.requires((t,)),
        ensures
            r.wf(),
            r.spec_adj() == self.spec_adj(),
            r.view_edge_count() == self.view_edge_count(),
            forall|i: int|
                0 <= i < self.spec_vertex_count() ==> map.ensures(
                    (&self.spec_contained()[i],),
                    #[trigger] r.spec_contained()[i],
                ),
    {
        let n = self.vertex_count();
        let mut vertices: Vec<NodeContainer<T2>> = Vec::with_capacity(n);
        let mut i: usize = 0;
        while i < n
            invariant
                self.wf(),
                forall|t: &T| map.requires((t,)),
                n == self.spec_vertex_count(),
                i <= n,
                vertices@.len() == i,
                forall|k: int|
                    0 <= k < i ==> (#[trigger] vertices@[k]).id == k && vertices@[k].adj@
                        == self.spec_adj()[k] && map.ensures(
                        (&self.spec_contained()[k],),
                        vertices@[k].node,
                    ),
            decreases n - i,
        {
            let c = self.container(i);
            let adj = c.neighbors();
            let node = map(c.contained());
            vertices.push(NodeContainer { id: i, adj, node });
            i = i + 1;
        }
        let r = Graph::<T2>::from_parts(vertices, self.edge_count());
        proof {
            assert(r.spec_adj() =~= self.spec_adj());
        }
        r
    }
}

impl<T: Node> GenericGraph<T, NodeContainer<T>> {
    /// The graph with the vertices and edges of `source`, each vertex holding a clone of
    /// what it holds there
    pub fn from<A: AdjContainer<T>>(source: &GenericGraph<T, A>) -> (r: Self)
        requires
            source.wf(),
        ensures
            r.wf(),
            r.spec_adj() == source.spec_adj(),
            r.view_edge_count() == source.view_edge_count(),
            forall|i: int|
                0 <= i < source.spec_vertex_count() ==> cloned::<T>(
                    source.spec_contained()[i],
                    #[trigger] r.spec_contained()[i],
                ),
    {
        source.clone_topology(|x: &T| -> (c: T)
            ensures
                cloned::<T>(*x, c),
            { x.clone() })
    }

    /// replaces the edges by those of `other`, which has at most as many vertices
    pub(crate) fn reset_from_graph(&mut self, other: &Self)
        requires
            old(self).wf(),
            other.wf(),
            other.spec_vertex_count() <= old(self).spec_vertex_count(),
        ensures
            final(self).wf(),
            final(self).spec_vertex_count() == old(self).spec_vertex_count(),
            final(self).spec_contained() == old(self).spec_contained(),
            final(self).view_edge_count() == other.view_edge_count(),
            forall|i: int|
                0 <= i < old(self).spec_vertex_count() ==> #[trigger] final(self).spec_adj()[i] == if i
                    < other.spec_vertex_count() {
                    other.spec_adj()[i]
                } else {
                    Seq::<usize>::empty()
                },
    {
        self.clear_edges();
        let m = other.vertex_count();
        let n = self.vertex_count();
        let ghost cleared = *self;
        let mut i: usize = 0;
        while i < m
            invariant
                cleared.wf(),
                other.wf(),
                m == other.spec_vertex_count(),
                n == cleared.spec_vertex_count(),
                m <= n,
                i <= m,
                self.spec_vertex_count() == n,
                self.counts_agree(),
                self.view_edge_count() == 0,
                self.spec_contained() == cleared.spec_contained(),
                forall|k: int|
                    0 <= k < n ==> (#[trigger] self.view_vertices()[k]).spec_id() == k,
                forall|k: int|
                    0 <= k < n ==> #[trigger] self.spec_adj()[k] == if k < i {
                        other.spec_adj()[k]
                    } else {
                        Seq::<usize>::empty()
                    },
            decreases m - i,
        {
            let list = other.container(i).neighbors();
            let ghost before = *self;
            let c = self.container_mut(i);
            c.adj = list;
            proof {
                assert(self.view_vertices() == before.view_vertices().update(
                    i as int,
                    self.view_vertices()[i as int],
                ));
                assert(self.view_vertices()[i as int].adj@ == other.spec_adj()[i as int]);
                assert(self.spec_contained() =~= before.spec_contained());
                assert forall|k: int|
                    0 <= k < n implies #[trigger] self.spec_adj()[k] == if k < i + 1 {
                        other.spec_adj()[k]
                    } else {
                        Seq::<usize>::empty()
                    } by {
                    assert(self.spec_adj()[k] == self.view_vertices()[k].spec_adj());
                    assert(before.spec_adj()[k] == before.view_vertices()[k].spec_adj());
                    if k != i {
                        assert(self.view_vertices()[k] == before.view_vertices()[k]);
                    }
                }
            }
            i = i + 1;
        }
        let ghost before = *self;
        self.set_edge_count(other.edge_count());
        proof {
            assert(self.spec_adj() == before.spec_adj());
            let a = self.spec_adj();
            let b = other.spec_adj();
            assert forall|k: int| 0 <= k < m implies #[trigger] a[k] == b[k] by {}
            lemma_prefix_graph(b, a);
        }
        assert(self.spec_contained() == cleared.spec_contained());
    }
}

/// a well formed graph with more vertices appended, without edges, stays well formed
proof fn lemma_prefix_graph(b: Seq<Seq<usize>>, a: Seq<Seq<usize>>)
    requires
        adj_wf(b),
        b.len() <= a.len(),
        forall|k: int| 0 <= k < b.len() ==> #[trigger] a[k] == b[k],
        forall|k: int| b.len() <= k < a.len() ==> #[trigger] a[k] == Seq::<usize>::empty(),
    ensures
        adj_wf(a),
        deg_sum(a) == deg_sum(b),
{
    lemma_prefix_deg_sum(b, a, a.len() as int);
    assert forall|i: usize, j: usize| i < a.len() && #[trigger] a[i as int].contains(j) implies a[j as int].contains(i) by {
        if i >= b.len() {
            assert(a[i as int] == Seq::<usize>::empty());
        }
        assert(b[i as int].contains(j));
        let q = choose|q: int| 0 <= q < b[i as int].len() && b[i as int][q] == j;
        assert(b[i as int][q] < b.len());
    }
    assert forall|i: int, k: int| 0 <= i < a.len() && 0 <= k < a[i].len() implies #[trigger] a[i][k] < a.len() && a[i][k] != i by {
        if i >= b.len() {
            assert(a[i] == Seq::<usize>::empty());
        }
        assert(b[i][k] < b.len());
    }
    assert forall|i: int| 0 <= i < a.len() implies (#[trigger] a[i]).no_duplicates() by {
        if i >= b.len() {
            assert(a[i] == Seq::<usize>::empty());
        } else {
            assert(b[i].no_duplicates());
        }
    }
}

/// appended empty lists do not change the degree sum
proof fn lemma_prefix_deg_sum(b: Seq<Seq<usize>>, a: Seq<Seq<usize>>, k: int)
    requires
        b.len() <= a.len(),
        0 <= k <= a.len(),
        forall|i: int| 0 <= i < b.len() ==> #[trigger] a[i] == b[i],
        forall|i: int| b.len() <= i < a.len() ==> #[trigger] a[i] == Seq::<usize>::empty(),
    ensures
        deg_sum_upto(a, k) == deg_sum_upto(b, if k < b.len() { k } else { b.len() as int }),
    decreases k,
{
    if k > 0 {
        lemma_prefix_deg_sum(b, a, k - 1);
        if k > b.len() {
            assert(a[k - 1] == Seq::<usize>::empty());
        }
    }
}

} // verus!
