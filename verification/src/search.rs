//! Depth first search over a [`GenericGraph`] and what it tells about the graph:
//! connectivity and connected components.
use vstd::prelude::*;
use crate::traits::AdjContainer;
use crate::generic_graph::GenericGraph;
use crate::graph_spec::{
    adj_wf, reachable, lemma_reachable_bounds, lemma_reachable_sym, lemma_reachable_trans, lemma_reachable_refl, lemma_reachable_step, lemma_closed_set_reach,
    lemma_push_contains, lemma_push_contains_one, lemma_push_no_dup, lemma_push_no_dup_rev,
};
use crate::seq_util::{lemma_cover, below, lemma_below_card, sort_usizes_down, sorted_down, seq_sum, seq_sum_upto};

verus! {

/// `s` lists, each once, exactly the vertices that `start` reaches, beginning with `start`;
/// it is empty when `start` is no vertex
pub open spec fn lists_component(adj: Seq<Seq<usize>>, start: usize, s: Seq<usize>) -> bool {
    &&& start >= adj.len() ==> s.len() == 0
    &&& start < adj.len() ==> s.len() > 0 && s[0] == start
    &&& s.no_duplicates()
    &&& forall|v: usize| #[trigger] s.contains(v) <==> (start < adj.len() && reachable(adj, start, v))
}

/// no smaller vertex reaches `v`, i.e., `v` is the smallest vertex of its component
pub open spec fn is_min_vertex(adj: Seq<Seq<usize>>, v: usize) -> bool {
    forall|u: usize| u < v ==> !reachable(adj, u, v)
}

/// the smallest vertices of the components among the vertices below `k`, ascending
pub open spec fn mins_upto(adj: Seq<Seq<usize>>, k: nat) -> Seq<usize>
    decreases k,
{
    if k == 0 {
        Seq::empty()
    } else {
        let p = mins_upto(adj, (k - 1) as nat);
        if is_min_vertex(adj, (k - 1) as usize) {
            p.push((k - 1) as usize)
        } else {
            p
        }
    }
}

/// the smallest vertex of each connected component, ascending; one entry per component
pub open spec fn component_minima(adj: Seq<Seq<usize>>) -> Seq<usize> {
    mins_upto(adj, adj.len())
}

/// the number of vertices that `v` reaches, i.e., the size of its connected component
pub open spec fn component_size(adj: Seq<Seq<usize>>, v: usize) -> nat {
    below(adj.len()).filter(|w: usize| reachable(adj, v, w)).len()
}

/// the size of each connected component, in the order of their smallest vertices
pub open spec fn component_sizes(adj: Seq<Seq<usize>>) -> Seq<usize> {
    component_minima(adj).map_values(|m: usize| component_size(adj, m) as usize)
}

/// the vertices that `v` reaches
pub open spec fn component_set(adj: Seq<Seq<usize>>, v: usize) -> Set<usize> {
    below(adj.len()).filter(|w: usize| reachable(adj, v, w))
}

/// the vertices that the first `k` of `ms` reach
pub open spec fn components_union(adj: Seq<Seq<usize>>, ms: Seq<usize>, k: int) -> Set<usize>
    decreases k,
{
    if k <= 0 {
        Set::empty()
    } else {
        components_union(adj, ms, k - 1).union(component_set(adj, ms[k - 1]))
    }
}

/// the smallest vertex that reaches `w`, found below one that does
proof fn lemma_least_reacher(adj: Seq<Seq<usize>>, w: usize, m0: usize) -> (m: usize)
    requires
        reachable(adj, m0, w),
    ensures
        m <= m0,
        reachable(adj, m, w),
        forall|u: usize| u < m ==> !reachable(adj, u, w),
    decreases m0,
{
    if exists|u: usize| u < m0 && reachable(adj, u, w) {
        let u = choose|u: usize| u < m0 && reachable(adj, u, w);
        lemma_least_reacher(adj, w, u)
    } else {
        m0
    }
}

/// the components of the first `k` smallest vertices are disjoint, so their union has as
/// many vertices as their sizes add up to
proof fn lemma_components_union_len(adj: Seq<Seq<usize>>, k: int)
    requires
        adj_wf(adj),
        adj.len() <= usize::MAX,
        0 <= k <= component_minima(adj).len(),
    ensures
        components_union(adj, component_minima(adj), k).finite(),
        components_union(adj, component_minima(adj), k).len() == seq_sum_upto(component_sizes(adj), k),
        forall|w: usize|
            #[trigger] components_union(adj, component_minima(adj), k).contains(w) <==> exists|q: int|
                0 <= q < k && component_set(adj, component_minima(adj)[q]).contains(w),
    decreases k,
{
    let ms = component_minima(adj);
    let n = adj.len();
    lemma_mins_upto(adj, n);
    if k > 0 {
        lemma_components_union_len(adj, k - 1);
        let u = components_union(adj, ms, k - 1);
        let c = component_set(adj, ms[k - 1]);
        lemma_below_card(n);
        assert(c.finite()) by {
            vstd::set_lib::lemma_len_subset(c, below(n));
        }
        assert(u.disjoint(c)) by {
            assert forall|w: usize| !(u.contains(w) && c.contains(w)) by {
                if u.contains(w) && c.contains(w) {
                    let q = choose|q: int| 0 <= q < k - 1 && component_set(adj, ms[q]).contains(w);
                    assert(reachable(adj, ms[q], w));
                    assert(reachable(adj, ms[k - 1], w));
                    lemma_reachable_sym(adj, ms[k - 1], w);
                    lemma_reachable_trans(adj, ms[q], w, ms[k - 1]);
                    assert(ms[q] < ms[k - 1]);
                    assert(ms.contains(ms[k - 1]));
                    assert(is_min_vertex(adj, ms[k - 1]));
                }
            }
        }
        vstd::set_lib::lemma_set_disjoint_lens(u, c);
        lemma_component_size_bound(adj, ms[k - 1]);
        assert(component_sizes(adj)[k - 1] == component_size(adj, ms[k - 1]) as usize);
        assert forall|w: usize|
            #[trigger] components_union(adj, ms, k).contains(w) implies exists|q: int|
                0 <= q < k && component_set(adj, ms[q]).contains(w) by {
            if u.contains(w) {
                let q = choose|q: int| 0 <= q < k - 1 && component_set(adj, ms[q]).contains(w);
                assert(0 <= q < k && component_set(adj, ms[q]).contains(w));
            } else {
                assert(0 <= k - 1 < k && component_set(adj, ms[k - 1]).contains(w));
            }
        }
        assert forall|w: usize|
            (exists|q: int| 0 <= q < k && component_set(adj, ms[q]).contains(w)) implies #[trigger] components_union(
            adj,
            ms,
            k,
        ).contains(w) by {
            let q = choose|q: int| 0 <= q < k && component_set(adj, ms[q]).contains(w);
            if q < k - 1 {
                assert(u.contains(w));
            }
        }
    } else {
        assert(components_union(adj, ms, 0) =~= Set::<usize>::empty());
    }
}

/// # The connected components partition the vertices
/// The sizes of the connected components add up to the number of vertices.
pub proof fn lemma_component_sizes_sum(adj: Seq<Seq<usize>>)
    requires
        adj_wf(adj),
        adj.len() <= usize::MAX,
    ensures
        seq_sum(component_sizes(adj)) == adj.len(),
{
    let ms = component_minima(adj);
    let n = adj.len();
    lemma_mins_upto(adj, n);
    lemma_components_union_len(adj, ms.len() as int);
    let u = components_union(adj, ms, ms.len() as int);
    assert(u =~= below(n)) by {
        assert forall|w: usize| u.contains(w) implies below(n).contains(w) by {
            let q = choose|q: int| 0 <= q < ms.len() && component_set(adj, ms[q]).contains(w);
        }
        assert forall|w: usize| below(n).contains(w) implies u.contains(w) by {
            lemma_reachable_refl(adj, w);
            let m = lemma_least_reacher(adj, w, w);
            assert(is_min_vertex(adj, m)) by {
                assert forall|x: usize| x < m implies !reachable(adj, x, m) by {
                    if reachable(adj, x, m) {
                        lemma_reachable_trans(adj, x, m, w);
                    }
                }
            }
            assert(ms.contains(m));
            let q = choose|q: int| 0 <= q < ms.len() && ms[q] == m;
            assert(component_set(adj, ms[q]).contains(w));
        }
    }
    lemma_below_card(n);
    assert(component_sizes(adj).len() == ms.len());
}

/// the vertices below `bound` with id `k`
pub open spec fn class_below(ids: Seq<isize>, bound: nat, k: int) -> Set<usize> {
    Set::new(|w: usize| w < bound && ids[w as int] == k)
}

/// a component has at most as many vertices as the graph
pub proof fn lemma_component_size_bound(adj: Seq<Seq<usize>>, v: usize)
    requires
        adj.len() <= usize::MAX,
    ensures
        component_size(adj, v) <= adj.len(),
{
    lemma_below_card(adj.len());
    vstd::set_lib::lemma_len_subset(
        below(adj.len()).filter(|w: usize| reachable(adj, v, w)),
        below(adj.len()),
    );
}

/// entries of `mins_upto` ascend, lie below `k`, and are exactly the smallest vertices
/// below `k`
pub proof fn lemma_mins_upto(adj: Seq<Seq<usize>>, k: nat)
    requires
        k <= usize::MAX + 1,
    ensures
        forall|a: int, b: int|
            0 <= a < b < mins_upto(adj, k).len() ==> mins_upto(adj, k)[a] < mins_upto(adj, k)[b],
        forall|a: int| 0 <= a < mins_upto(adj, k).len() ==> #[trigger] mins_upto(adj, k)[a] < k,
        forall|v: usize| #[trigger] mins_upto(adj, k).contains(v) <==> (v < k && is_min_vertex(adj, v)),
        mins_upto(adj, k).len() <= k,
    decreases k,
{
    if k > 0 {
        let k1 = (k - 1) as nat;
        lemma_mins_upto(adj, k1);
        let p = mins_upto(adj, k1);
        if is_min_vertex(adj, k1 as usize) {
            lemma_push_contains(p, k1 as usize);
            assert(mins_upto(adj, k) == p.push(k1 as usize));
            assert forall|v: usize| #[trigger] mins_upto(adj, k).contains(v) <==> (v < k
                && is_min_vertex(adj, v)) by {
                lemma_push_contains_one(p, k1 as usize, v);
            }
        } else {
            assert(mins_upto(adj, k) == p);
            assert forall|v: usize| #[trigger] mins_upto(adj, k).contains(v) <==> (v < k
                && is_min_vertex(adj, v)) by {
                assert(p.contains(v) <==> (v < k1 && is_min_vertex(adj, v)));
            }
        }
    } else {
        assert(mins_upto(adj, 0) =~= Seq::<usize>::empty());
    }
}

/// A graph that the searches can walk: its adjacency lists, read one entry at a time
pub trait Searchable {
    /// the adjacency lists
    spec fn view_adj(&self) -> Seq<Seq<usize>>;

    /// the graph is fit to be searched
    spec fn searchable(&self) -> bool;

    /// a searchable graph is well formed and has at most `usize::MAX` vertices
    proof fn lemma_searchable(&self)
        requires
            self.searchable(),
        ensures
            adj_wf(self.view_adj()),
            self.view_adj().len() <= usize::MAX,
    ;

    /// number of vertices
    fn node_count(&self) -> (r: usize)
        requires
            self.searchable(),
        ensures
            r == self.view_adj().len(),
    ;

    /// number of neighbors of `v`
    fn degree_of(&self, v: usize) -> (r: usize)
        requires
            self.searchable(),
            v < self.view_adj().len(),
        ensures
            r == self.view_adj()[v as int].len(),
    ;

    /// the `k`-th neighbor of `v`
    fn neighbor_of(&self, v: usize, k: usize) -> (r: usize)
        requires
            self.searchable(),
            v < self.view_adj().len(),
            k < self.view_adj()[v as int].len(),
        ensures
            r == self.view_adj()[v as int][k as int],
    ;
}

impl<T, A: AdjContainer<T>> Searchable for GenericGraph<T, A> {
    open spec fn view_adj(&self) -> Seq<Seq<usize>> {
        self.spec_adj()
    }

    open spec fn searchable(&self) -> bool {
        self.wf()
    }

    proof fn lemma_searchable(&self) {
        self.lemma_len_bound();
    }

    fn node_count(&self) -> (r: usize) {
        self.vertex_count()
    }

    fn degree_of(&self, v: usize) -> (r: usize) {
        self.container(v).degree()
    }

    fn neighbor_of(&self, v: usize, k: usize) -> (r: usize) {
        self.container(v).neighbor_at(k)
    }
}

/// The state of a depth first search: the vertices seen so far and those waiting on the
/// stack. Each call of [`DfsState::step`] hands out the next vertex.
/// the vertex at position `k` of `order` is a neighbor of a vertex before it
pub open spec fn linked_at(adj: Seq<Seq<usize>>, order: Seq<usize>, k: int) -> bool {
    exists|j: int| 0 <= j < k && #[trigger] adj[order[j] as int].contains(order[k])
}

/// each vertex of `order` after the first is a neighbor of a vertex before it
pub open spec fn dfs_linked(adj: Seq<Seq<usize>>, order: Seq<usize>) -> bool {
    forall|k: int| 0 < k < order.len() ==> #[trigger] linked_at(adj, order, k)
}

/// a vertex that is a neighbor of one in the list may follow it
proof fn lemma_linked_push(adj: Seq<Seq<usize>>, o: Seq<usize>, v: usize, j0: int)
    requires
        dfs_linked(adj, o),
        o.len() > 0 ==> 0 <= j0 < o.len() && adj[o[j0] as int].contains(v),
    ensures
        dfs_linked(adj, o.push(v)),
{
    let p = o.push(v);
    assert forall|k: int| 0 < k < p.len() implies #[trigger] linked_at(adj, p, k) by {
        if k < o.len() {
            assert(p[k] == o[k]);
            assert(linked_at(adj, o, k));
            let j = choose|j: int| 0 <= j < k && #[trigger] adj[o[j] as int].contains(o[k]);
            assert(p[j] == o[j]);
            assert(adj[p[j] as int].contains(p[k]));
        } else {
            assert(p[k] == v);
            assert(p[j0] == o[j0]);
            assert(adj[p[j0] as int].contains(p[k]));
        }
    }
}

/// `w` is the `q`-th neighbor of `order[j]`, and no vertex before position `j` of `order`
/// has `w` as a neighbor: a search that hands out `order` first meets `w` there
pub open spec fn discovered_at(adj: Seq<Seq<usize>>, order: Seq<usize>, w: usize, j: int, q: int) -> bool {
    &&& 0 <= j < order.len()
    &&& 0 <= q < adj[order[j] as int].len()
    &&& adj[order[j] as int][q] == w
    &&& forall|i: int| 0 <= i < j ==> !(#[trigger] adj[order[i] as int].contains(w))
}

/// `v` is the vertex that a depth first search hands out right after the vertices
/// `order`: it is not among them, and of all the vertices outside `order` that are
/// neighbors of a vertex in it, `v` was met last (the last one pushed on the stack):
/// the vertex of `order` where it was first met comes latest, and among that vertex's
/// neighbors it comes last
pub open spec fn next_in_dfs(adj: Seq<Seq<usize>>, order: Seq<usize>, v: usize) -> bool {
    &&& !order.contains(v)
    &&& exists|j: int, q: int|
        #[trigger] discovered_at(adj, order, v, j, q) && forall|w: usize, j2: int, q2: int|
            #[trigger] discovered_at(adj, order, w, j2, q2) && !order.contains(w) ==> (j2 < j || (j2 == j
                && q2 <= q))
}

/// each vertex of `order` after the first is the one a depth first search hands out next
pub open spec fn is_dfs_order(adj: Seq<Seq<usize>>, order: Seq<usize>) -> bool {
    forall|k: int| 0 < k < order.len() ==> #[trigger] next_in_dfs(adj, order.take(k), order[k])
}

/// the stack holds its vertices in the order in which the search met them
spec fn stack_sorted(adj: Seq<Seq<usize>>, order: Seq<usize>, stack: Seq<usize>) -> bool {
    forall|a: int, b: int, j1: int, q1: int, j2: int, q2: int|
        0 <= a < b < stack.len() && #[trigger] discovered_at(adj, order, stack[a], j1, q1)
            && #[trigger] discovered_at(adj, order, stack[b], j2, q2) ==> (j1 < j2 || (j1 == j2 && q1 < q2))
}

/// where the search first met a vertex is determined
proof fn lemma_discovered_unique(
    adj: Seq<Seq<usize>>,
    order: Seq<usize>,
    w: usize,
    j1: int,
    q1: int,
    j2: int,
    q2: int,
)
    requires
        adj_wf(adj),
        forall|k: int| 0 <= k < order.len() ==> #[trigger] order[k] < adj.len(),
        discovered_at(adj, order, w, j1, q1),
        discovered_at(adj, order, w, j2, q2),
    ensures
        j1 == j2,
        q1 == q2,
{
    if j1 < j2 {
        assert(adj[order[j1] as int].contains(w));
    }
    if j2 < j1 {
        assert(adj[order[j2] as int].contains(w));
    }
    assert(order[j1] < adj.len());
    assert(adj[order[j1] as int].no_duplicates());
}

/// a vertex that is a neighbor of some vertex in `order` was first met somewhere
proof fn lemma_first_discovered(adj: Seq<Seq<usize>>, order: Seq<usize>, w: usize, j0: int)
    requires
        0 <= j0 < order.len(),
        adj[order[j0] as int].contains(w),
    ensures
        exists|j: int, q: int| #[trigger] discovered_at(adj, order, w, j, q),
    decreases j0,
{
    if exists|i: int| 0 <= i < j0 && #[trigger] adj[order[i] as int].contains(w) {
        let i = choose|i: int| 0 <= i < j0 && #[trigger] adj[order[i] as int].contains(w);
        lemma_first_discovered(adj, order, w, i);
    } else {
        let q = choose|q: int| 0 <= q < adj[order[j0] as int].len() && adj[order[j0] as int][q] == w;
        assert(discovered_at(adj, order, w, j0, q));
    }
}

/// handing out one more vertex does not change where the search first met a vertex
/// that it had met already
proof fn lemma_discovered_push(adj: Seq<Seq<usize>>, o: Seq<usize>, v: usize, w: usize, j0: int, q0: int)
    requires
        discovered_at(adj, o, w, j0, q0),
    ensures
        forall|j: int, q: int|
            #[trigger] discovered_at(adj, o.push(v), w, j, q) <==> discovered_at(adj, o, w, j, q),
{
    let p = o.push(v);
    assert forall|j: int, q: int| #[trigger] discovered_at(adj, p, w, j, q) <==> discovered_at(adj, o, w, j, q) by {
        if discovered_at(adj, p, w, j, q) {
            if j == o.len() {
                assert(p[j0] == o[j0]);
                assert(adj[p[j0] as int].contains(w));
            }
            assert(p[j] == o[j]);
            assert forall|i: int| 0 <= i < j implies !(#[trigger] adj[o[i] as int].contains(w)) by {
                assert(p[i] == o[i]);
            }
        }
        if discovered_at(adj, o, w, j, q) {
            assert(p[j] == o[j]);
            assert forall|i: int| 0 <= i < j implies !(#[trigger] adj[p[i] as int].contains(w)) by {
                assert(p[i] == o[i]);
            }
        }
    }
}

/// a depth first order stays one when the vertex handed out next is appended
proof fn lemma_dfs_order_push(adj: Seq<Seq<usize>>, o: Seq<usize>, v: usize)
    requires
        is_dfs_order(adj, o),
        o.len() > 0 ==> next_in_dfs(adj, o, v),
    ensures
        is_dfs_order(adj, o.push(v)),
{
    let p = o.push(v);
    assert forall|k: int| 0 < k < p.len() implies #[trigger] next_in_dfs(adj, p.take(k), p[k]) by {
        if k < o.len() {
            assert(p.take(k) =~= o.take(k));
            assert(p[k] == o[k]);
            assert(next_in_dfs(adj, o.take(k), o[k]));
        } else {
            assert(p.take(k) =~= o);
        }
    }
}

/// two smallest vertices of components that reach one another are the same vertex
pub proof fn lemma_same_min(adj: Seq<Seq<usize>>, a: usize, b: usize)
    requires
        adj_wf(adj),
        is_min_vertex(adj, a),
        is_min_vertex(adj, b),
        reachable(adj, a, b),
    ensures
        a == b,
{
    if b < a {
        lemma_reachable_sym(adj, a, b);
    }
}

pub struct DfsState {
    handled: Vec<bool>,
    stack: Vec<usize>,
    start: Ghost<usize>,
    order: Ghost<Seq<usize>>,
}

impl DfsState {
    /// the vertex the search began at
    pub closed spec fn start(&self) -> usize {
        self.start@
    }

    /// the vertices handed out so far, in order
    pub closed spec fn emitted(&self) -> Seq<usize> {
        self.order@
    }

    /// the state belongs to a search over the graph with adjacency lists `adj`
    pub closed spec fn dfs_inv(&self, adj: Seq<Seq<usize>>) -> bool {
        let n = adj.len();
        let index = self.start@;
        let order = self.order@;
        let stack = self.stack@;
        let handled = self.handled@;
        &&& adj_wf(adj)
        &&& n <= usize::MAX
        &&& handled.len() == n
        &&& forall|k: int| 0 <= k < stack.len() ==> #[trigger] stack[k] < n
        &&& forall|k: int| 0 <= k < order.len() ==> #[trigger] order[k] < n
        &&& order.no_duplicates()
        &&& stack.no_duplicates()
        &&& forall|v: usize| v < n ==> (#[trigger] handled[v as int] <==> (order.contains(v) || stack.contains(v)))
        &&& forall|v: usize| !(#[trigger] order.contains(v) && stack.contains(v))
        &&& forall|v: usize| v < n && #[trigger] handled[v as int] ==> reachable(adj, index, v)
        &&& forall|v: usize, w: usize|
            #![trigger order.contains(v), adj[v as int].contains(w)]
            order.contains(v) && adj[v as int].contains(w) ==> w < n && handled[w as int]
        &&& index < n ==> order.len() > 0 ==> order[0] == index
        &&& index < n ==> order.len() == 0 ==> stack == seq![index]
        &&& index >= n ==> stack.len() == 0 && order.len() == 0
        &&& dfs_linked(adj, order)
        &&& forall|x: usize|
            #[trigger] stack.contains(x) && order.len() > 0 ==> exists|y: usize|
                #[trigger] order.contains(y) && adj[y as int].contains(x)
        &&& forall|x: usize|
            #[trigger] stack.contains(x) && order.len() > 0 ==> exists|j: int, q: int|
                #[trigger] discovered_at(adj, order, x, j, q)
        &&& stack_sorted(adj, order, stack)
        &&& is_dfs_order(adj, order)
    }

    /// the vertices handed out are distinct vertices of the graph
    pub proof fn lemma_emitted(&self, adj: Seq<Seq<usize>>)
        requires
            self.dfs_inv(adj),
        ensures
            self.emitted().no_duplicates(),
            forall|k: int| 0 <= k < self.emitted().len() ==> #[trigger] self.emitted()[k] < adj.len(),
            self.emitted().len() <= adj.len(),
    {
        lemma_cover(self.order@, adj.len());
    }

    /// what handing out the top of the stack keeps: the top is the vertex a depth first
    /// search hands out next, and the rest of the stack keeps the order in which the
    /// search met its vertices
    proof fn lemma_pop_facts(&self, adj: Seq<Seq<usize>>)
        requires
            self.dfs_inv(adj),
            self.stack@.len() > 0,
        ensures
            ({
                let order = self.order@;
                let v = self.stack@.last();
                let rest = self.stack@.drop_last();
                let ordp = order.push(v);
                &&& order.len() > 0 ==> next_in_dfs(adj, order, v)
                &&& is_dfs_order(adj, ordp)
                &&& forall|x: usize| #[trigger] rest.contains(x) ==> exists|j: int, q: int|
                    #[trigger] discovered_at(adj, ordp, x, j, q)
                &&& stack_sorted(adj, ordp, rest)
                &&& forall|a: int, j: int, q: int|
                    0 <= a < rest.len() && #[trigger] discovered_at(adj, ordp, rest[a], j, q) ==> j < order.len()
            }),
    {
        let order = self.order@;
        let stack = self.stack@;
        let handled = self.handled@;
        let n = adj.len();
        let t = stack.len() - 1;
        let v = stack[t];
        let rest = stack.drop_last();
        let ordp = order.push(v);
        assert(stack.last() == v);
        if order.len() == 0 {
            assert(rest.len() == 0);
            lemma_dfs_order_push(adj, order, v);
        } else {
            assert(stack.contains(v));
            let (j, q) = choose|j: int, q: int| #[trigger] discovered_at(adj, order, v, j, q);
            assert forall|w: usize, j2: int, q2: int|
                #[trigger] discovered_at(adj, order, w, j2, q2) && !order.contains(w) implies (j2 < j || (j2 == j
                    && q2 <= q)) by {
                let y = order[j2];
                assert(order.contains(y));
                assert(adj[y as int][q2] == w);
                assert(adj[y as int].contains(w));
                assert(w < n && handled[w as int]);
                assert(stack.contains(w));
                let a = choose|a: int| 0 <= a < stack.len() && stack[a] == w;
                if a == t {
                    lemma_discovered_unique(adj, order, w, j, q, j2, q2);
                } else {
                    assert(discovered_at(adj, order, stack[a], j2, q2));
                    assert(discovered_at(adj, order, stack[t], j, q));
                }
            }
            assert(discovered_at(adj, order, v, j, q));
            assert(next_in_dfs(adj, order, v));
            lemma_dfs_order_push(adj, order, v);
            assert forall|x: usize| #[trigger] rest.contains(x) implies exists|j1: int, q1: int|
                #[trigger] discovered_at(adj, ordp, x, j1, q1) by {
                let i = choose|i: int| 0 <= i < rest.len() && rest[i] == x;
                assert(stack[i] == x);
                assert(stack.contains(x));
                let (j0, q0) = choose|j0: int, q0: int| #[trigger] discovered_at(adj, order, x, j0, q0);
                lemma_discovered_push(adj, order, v, x, j0, q0);
                assert(discovered_at(adj, ordp, x, j0, q0));
            }
            assert forall|a: int, b: int, j1: int, q1: int, j2: int, q2: int|
                0 <= a < b < rest.len() && #[trigger] discovered_at(adj, ordp, rest[a], j1, q1)
                    && #[trigger] discovered_at(adj, ordp, rest[b], j2, q2) implies (j1 < j2 || (j1 == j2 && q1
                < q2)) by {
                assert(rest[a] == stack[a] && rest[b] == stack[b]);
                assert(stack.contains(stack[a]));
                assert(stack.contains(stack[b]));
                let (ja, qa) = choose|ja: int, qa: int| #[trigger] discovered_at(adj, order, stack[a], ja, qa);
                let (jb, qb) = choose|jb: int, qb: int| #[trigger] discovered_at(adj, order, stack[b], jb, qb);
                lemma_discovered_push(adj, order, v, stack[a], ja, qa);
                lemma_discovered_push(adj, order, v, stack[b], jb, qb);
                assert(discovered_at(adj, order, stack[a], j1, q1));
                assert(discovered_at(adj, order, stack[b], j2, q2));
            }
            assert forall|a: int, j1: int, q1: int|
                0 <= a < rest.len() && #[trigger] discovered_at(adj, ordp, rest[a], j1, q1) implies j1
                < order.len() by {
                assert(rest[a] == stack[a]);
                assert(stack.contains(stack[a]));
                let (ja, qa) = choose|ja: int, qa: int| #[trigger] discovered_at(adj, order, stack[a], ja, qa);
                lemma_discovered_push(adj, order, v, stack[a], ja, qa);
                assert(discovered_at(adj, order, stack[a], j1, q1));
            }
        }
    }

    /// pushing a vertex met for the first time as the `k`-th neighbor of the vertex `v`
    /// being handed out keeps the stack in the order in which the search met its vertices
    proof fn lemma_push_discovered(adj: Seq<Seq<usize>>, o_in: Seq<usize>, v: usize, s0: Seq<usize>, w: usize, k: int)
        requires
            adj_wf(adj),
            v < adj.len(),
            forall|i: int| 0 <= i < o_in.len() ==> #[trigger] o_in[i] < adj.len(),
            0 <= k < adj[v as int].len(),
            adj[v as int][k] == w,
            forall|i: int| 0 <= i < o_in.len() ==> !(#[trigger] adj[o_in[i] as int].contains(w)),
            stack_sorted(adj, o_in.push(v), s0),
            forall|a: int, j: int, q: int|
                0 <= a < s0.len() && #[trigger] discovered_at(adj, o_in.push(v), s0[a], j, q) ==> j < o_in.len()
                    || q < k,
        ensures
            discovered_at(adj, o_in.push(v), w, o_in.len() as int, k),
            stack_sorted(adj, o_in.push(v), s0.push(w)),
            forall|a: int, j: int, q: int|
                0 <= a < s0.len() + 1 && #[trigger] discovered_at(adj, o_in.push(v), s0.push(w)[a], j, q) ==> j
                    < o_in.len() || q < k + 1,
    {
        let ordp = o_in.push(v);
        let m = o_in.len() as int;
        let st = s0.push(w);
        assert(ordp[m] == v);
        assert forall|i: int| 0 <= i < m implies !(#[trigger] adj[ordp[i] as int].contains(w)) by {
            assert(ordp[i] == o_in[i]);
        }
        assert(discovered_at(adj, ordp, w, m, k));
        assert forall|i: int| 0 <= i < ordp.len() implies #[trigger] ordp[i] < adj.len() by {
            if i < m {
                assert(ordp[i] == o_in[i]);
            }
        }
        assert forall|a: int, b: int, j1: int, q1: int, j2: int, q2: int|
            0 <= a < b < st.len() && #[trigger] discovered_at(adj, ordp, st[a], j1, q1)
                && #[trigger] discovered_at(adj, ordp, st[b], j2, q2) implies (j1 < j2 || (j1 == j2 && q1 < q2)) by {
            assert(st[a] == s0[a]);
            if b < s0.len() {
                assert(st[b] == s0[b]);
                assert(discovered_at(adj, ordp, s0[a], j1, q1));
                assert(discovered_at(adj, ordp, s0[b], j2, q2));
            } else {
                assert(st[b] == w);
                lemma_discovered_unique(adj, ordp, w, m, k, j2, q2);
                assert(discovered_at(adj, ordp, s0[a], j1, q1));
            }
        }
        assert forall|a: int, j: int, q: int|
            0 <= a < s0.len() + 1 && #[trigger] discovered_at(adj, ordp, st[a], j, q) implies j < m || q < k + 1 by {
            if a < s0.len() {
                assert(st[a] == s0[a]);
                assert(discovered_at(adj, ordp, s0[a], j, q));
            } else {
                assert(st[a] == w);
                lemma_discovered_unique(adj, ordp, w, m, k, j, q);
            }
        }
    }

    /// a search over `g` beginning at vertex `index`
    pub fn new<G: Searchable>(g: &G, index: usize) -> (r: Self)
        requires
            g.searchable(),
        ensures
            r.dfs_inv(g.view_adj()),
            r.start() == index,
            r.emitted() == Seq::<usize>::empty(),
    {
        proof {
            g.lemma_searchable();
        }
        let ghost adj = g.view_adj();
        let n = g.node_count();
        let mut handled: Vec<bool> = vec![false; n];
        let mut stack: Vec<usize> = Vec::new();
        if index < n {
            stack.push(index);
            handled.set(index, true);
            proof {
                lemma_reachable_refl(adj, index);
                assert(stack@[0] == index);
                assert(stack@ == seq![index]);
            }
        }
        DfsState { handled, stack, start: Ghost(index), order: Ghost(Seq::empty()) }
    }

    /// hands out the next vertex in depth first search order; `None` once every vertex
    /// that the start reaches was handed out
    pub fn step<G: Searchable>(&mut self, g: &G) -> (r: Option<usize>)
        requires
            g.searchable(),
            old(self).dfs_inv(g.view_adj()),
        ensures
            final(self).dfs_inv(g.view_adj()),
            final(self).start() == old(self).start(),
            r is None ==> final(self).emitted() == old(self).emitted() && lists_component(
                g.view_adj(),
                old(self).start(),
                old(self).emitted(),
            ),
            r matches Some(v) ==> final(self).emitted() == old(self).emitted().push(v),
            r matches Some(v) ==> (old(self).emitted().len() == 0 ==> v == old(self).start()),
            r matches Some(v) ==> (old(self).emitted().len() > 0 ==> next_in_dfs(
                g.view_adj(),
                old(self).emitted(),
                v,
            )),
            dfs_linked(g.view_adj(), final(self).emitted()),
            is_dfs_order(g.view_adj(), final(self).emitted()),
    {
        proof {
            g.lemma_searchable();
        }
        let ghost adj = g.view_adj();
        let ghost index = self.start@;
        let n = g.node_count();
        if self.stack.len() == 0 {
            proof {
                let order = self.order@;
                let handled = self.handled@;
                let st = order.to_set();
                assert forall|v: usize| order.contains(v) <==> (index < n && reachable(adj, index, v)) by {
                    if order.contains(v) {
                        assert(v < n) by {
                            let q = choose|q: int| 0 <= q < order.len() && order[q] == v;
                        }
                        assert(handled[v as int]);
                    }
                    if index < n && reachable(adj, index, v) {
                        assert(st.contains(index)) by {
                            assert(order[0] == index);
                        }
                        assert forall|x: usize, w: usize|
                            st.contains(x) && x < adj.len() && #[trigger] adj[x as int].contains(w) implies st.contains(
                            w,
                        ) by {
                            assert(order.contains(x));
                            assert(handled[w as int]);
                        }
                        lemma_closed_set_reach(adj, st, index, v);
                    }
                }
            }
            return None;
        }
        let ghost sb = self.stack@;
        proof {
            self.lemma_pop_facts(adj);
        }
        let v = self.stack.pop().unwrap();
        proof {
            assert(sb == self.stack@.push(v));
            lemma_push_contains(self.stack@, v);
            lemma_push_no_dup_rev(self.stack@, v);
            assert(!self.order@.contains(v));
            assert forall|x: usize| #[trigger] self.stack@.contains(x) implies adj[v as int].contains(x) || exists|y: usize|
                #[trigger] self.order@.contains(y) && adj[y as int].contains(x) by {
                assert(sb.contains(x));
                if self.order@.len() == 0 {
                    assert(sb == seq![index]);
                    assert(x == index && v == index);
                    let q = choose|q: int| 0 <= q < self.stack@.len() && self.stack@[q] == x;
                    assert(sb[q] == x);
                }
            }
        }
        let d = g.degree_of(v);
        let mut k: usize = 0;
        let ghost o_in = self.order@;
        while k < d
            invariant
                g.searchable(),
                adj == g.view_adj(),
                adj_wf(adj),
                n == adj.len(),
                index == self.start@,
                self.order@ == o_in,
                v < n,
                d == adj[v as int].len(),
                k <= d,
                self.handled@.len() == n,
                self.handled@[v as int],
                forall|q: int| 0 <= q < self.stack@.len() ==> #[trigger] self.stack@[q] < n,
                forall|q: int| 0 <= q < self.order@.len() ==> #[trigger] self.order@[q] < n,
                self.order@.no_duplicates(),
                self.stack@.no_duplicates(),
                !self.order@.contains(v),
                !self.stack@.contains(v),
                forall|x: usize|
                    x < n ==> (#[trigger] self.handled@[x as int] <==> (self.order@.contains(x)
                        || self.stack@.contains(x) || x == v)),
                forall|x: usize| !(#[trigger] self.order@.contains(x) && self.stack@.contains(x)),
                forall|x: usize| x < n && #[trigger] self.handled@[x as int] ==> reachable(adj, index, x),
                forall|q: int| 0 <= q < k ==> self.handled@[#[trigger] adj[v as int][q] as int],
                forall|x: usize, w: usize|
                    #![trigger self.order@.contains(x), adj[x as int].contains(w)]
                    self.order@.contains(x) && adj[x as int].contains(w) ==> w < n && self.handled@[w as int],
                index < n ==> self.order@.len() > 0 ==> self.order@[0] == index,
                index < n ==> self.order@.len() == 0 ==> v == index,
                index < n,
                dfs_linked(adj, o_in),
                forall|x: usize|
                    #[trigger] self.stack@.contains(x) ==> adj[v as int].contains(x) || exists|y: usize|
                        #[trigger] o_in.contains(y) && adj[y as int].contains(x),
                forall|x: usize|
                    #[trigger] self.stack@.contains(x) ==> exists|j: int, q: int|
                        #[trigger] discovered_at(adj, o_in.push(v), x, j, q),
                stack_sorted(adj, o_in.push(v), self.stack@),
                forall|a: int, j: int, q: int|
                    0 <= a < self.stack@.len() && #[trigger] discovered_at(adj, o_in.push(v), self.stack@[a], j, q)
                        ==> j < o_in.len() || q < k,
                o_in.len() > 0 ==> next_in_dfs(adj, o_in, v),
                is_dfs_order(adj, o_in.push(v)),
            decreases d - k,
        {
            let w = g.neighbor_of(v, k);
            proof {
                assert(adj[v as int][k as int] == w);
                assert(w < n);
            }
            if !self.handled[w] {
                proof {
                    assert forall|i: int| 0 <= i < o_in.len() implies !(#[trigger] adj[o_in[i] as int].contains(w)) by {
                        assert(self.order@.contains(o_in[i]));
                    }
                }
                let ghost s0 = self.stack@;
                self.handled.set(w, true);
                self.stack.push(w);
                proof {
                    Self::lemma_push_discovered(adj, o_in, v, s0, w, k as int);
                    assert forall|x: usize| #[trigger] self.stack@.contains(x) implies exists|j: int, q: int|
                        #[trigger] discovered_at(adj, o_in.push(v), x, j, q) by {
                        if x == w {
                            assert(discovered_at(adj, o_in.push(v), w, o_in.len() as int, k as int));
                        } else {
                            assert(self.stack@ == s0.push(w));
                            lemma_push_contains(s0, w);
                            assert(s0.contains(x));
                        }
                    }
                    assert(reachable(adj, index, v));
                    assert(adj[v as int].contains(w));
                    lemma_reachable_step(adj, index, v, w);
                    assert(self.stack@ == s0.push(w));
                    lemma_push_contains(s0, w);
                    lemma_push_no_dup(s0, w);
                    assert forall|x: usize| #[trigger] self.stack@.contains(x) implies adj[v as int].contains(x)
                        || exists|y: usize| #[trigger] o_in.contains(y) && adj[y as int].contains(x) by {
                        if x != w {
                            assert(s0.contains(x));
                        }
                    }
                }
            }
            k = k + 1;
        }
        let ghost o0 = self.order@;
        self.order = Ghost(o0.push(v));
        proof {
            lemma_push_contains(o0, v);
            lemma_push_no_dup(o0, v);
            assert forall|x: usize| !(#[trigger] self.order@.contains(x) && self.stack@.contains(x)) by {
                lemma_push_contains_one(o0, v, x);
            }
            assert forall|x: usize, w: usize|
                #![trigger self.order@.contains(x), adj[x as int].contains(w)]
                self.order@.contains(x) && adj[x as int].contains(w) implies w < n && self.handled@[w as int] by {
                if x == v {
                    let q = choose|q: int| 0 <= q < adj[v as int].len() && adj[v as int][q] == w;
                    assert(self.handled@[adj[v as int][q] as int]);
                } else {
                    assert(o0.contains(x));
                }
            }
            if o0.len() == 0 {
                assert(self.order@[0] == v);
            } else {
                assert(self.order@[0] == o0[0]);
            }
            assert forall|q: int| 0 <= q < self.order@.len() implies #[trigger] self.order@[q] < n by {
                if q < o0.len() {
                    assert(self.order@[q] == o0[q]);
                }
            }
            let ord = self.order@;
            if o0.len() > 0 {
                assert(sb.contains(v));
                let y = choose|y: usize| #[trigger] o0.contains(y) && adj[y as int].contains(v);
                let j0 = choose|j: int| 0 <= j < o0.len() && o0[j] == y;
                lemma_linked_push(adj, o0, v, j0);
            } else {
                lemma_linked_push(adj, o0, v, 0);
            }
            assert(dfs_linked(adj, ord));
            assert forall|x: usize| #[trigger] self.stack@.contains(x) && ord.len() > 0 implies exists|y: usize|
                #[trigger] ord.contains(y) && adj[y as int].contains(x) by {
                if adj[v as int].contains(x) {
                    assert(ord.contains(v));
                } else {
                    let y = choose|y: usize| #[trigger] o0.contains(y) && adj[y as int].contains(x);
                    assert(ord.contains(y));
                }
            }
        }
        Some(v)
    }
}

/// # Depth first search
/// the indices of the vertices in depth first search order, beginning with vertex `index`
/// * Will only contain vertices within the connected component that contains vertex `index`
/// * empty if index out of bounds
pub fn dfs_indices<G: Searchable>(g: &G, index: usize) -> (r: Vec<usize>)
    requires
        g.searchable(),
    ensures
        lists_component(g.view_adj(), index, r@),
        dfs_linked(g.view_adj(), r@),
        is_dfs_order(g.view_adj(), r@),
{
    let ghost adj = g.view_adj();
    let mut state = DfsState::new(g, index);
    let mut order: Vec<usize> = Vec::new();
    loop
        invariant
            g.searchable(),
            adj == g.view_adj(),
            state.dfs_inv(adj),
            state.start() == index,
            order@ == state.emitted(),
            order@.len() <= adj.len(),
            dfs_linked(adj, order@),
            is_dfs_order(adj, order@),
        ensures
            lists_component(adj, index, order@),
            dfs_linked(adj, order@),
            is_dfs_order(adj, order@),
        decreases adj.len() - order@.len(),
    {
        match state.step(g) {
            Some(v) => {
                order.push(v);
                proof {
                    state.lemma_emitted(adj);
                }
            },
            None => {
                break ;
            },
        }
    }
    order
}


impl<T, A: AdjContainer<T>> GenericGraph<T, A> {
    /// # Depth first search
    /// the indices of the vertices in depth first search order, beginning with vertex `index`
    /// * Will only contain vertices within the connected component that contains vertex `index`
    /// * empty if index out of bounds
    pub fn dfs_order(&self, index: usize) -> (r: Vec<usize>)
        requires
            self.wf(),
        ensures
            lists_component(self.spec_adj(), index, r@),
            dfs_linked(self.spec_adj(), r@),
            is_dfs_order(self.spec_adj(), r@),
    {
        dfs_indices(self, index)
    }

    /// | result       |                          condition                       |
    /// |--------------|----------------------------------------------------------|
    /// | `None`       | **if** graph does not contain any vertices               |
    /// | `Some(true)` | **else if** all vertices are connected by paths of edges |
    /// | `Some(false)`| **otherwise**                                            |
    pub fn is_connected(&self) -> (r: Option<bool>)
        requires
            self.wf(),
        ensures
            self.spec_vertex_count() == 0 ==> r.is_none(),
            self.spec_vertex_count() > 0 ==> r == Some(
                forall|v: usize| v < self.spec_vertex_count() ==> reachable(self.spec_adj(), 0, v),
            ),
    {
        let n = self.vertex_count();
        if n == 0 {
            None
        } else {
            let order = self.dfs_order(0);
            proof {
                assert forall|k: int| 0 <= k < order@.len() implies #[trigger] order@[k] < n by {
                    assert(order@.contains(order@[k]));
                    lemma_reachable_bounds(self.spec_adj(), 0, order@[k]);
                }
                lemma_cover(order@, n as nat);
                assert(lists_component(self.spec_adj(), 0, order@));
                if forall|v: usize| v < n ==> reachable(self.spec_adj(), 0, v) {
                    assert forall|v: usize| v < n implies order@.contains(v) by {
                        assert(reachable(self.spec_adj(), 0, v));
                    }
                }
                if forall|v: usize| v < n ==> order@.contains(v) {
                    assert forall|v: usize| v < n implies reachable(self.spec_adj(), 0, v) by {
                        assert(order@.contains(v));
                    }
                }
            }
            Some(order.len() == n)
        }
    }

    /// # compute connected component ids
    /// * used for `self.connected_components()`
    /// * each vertex gets an id, all vertices with the same id are in the same connected component
    /// * the components are numbered in the order of their smallest vertices
    /// * returns (number of components, vector of ids)
    pub fn connected_components_ids(&self) -> (r: (usize, Vec<isize>))
        requires
            self.wf(),
            self.spec_vertex_count() <= isize::MAX,
        ensures
            r.0 == component_minima(self.spec_adj()).len(),
            r.1@.len() == self.spec_vertex_count(),
            forall|v: int|
                0 <= v < self.spec_vertex_count() ==> 0 <= #[trigger] r.1@[v] < r.0 && reachable(
                    self.spec_adj(),
                    component_minima(self.spec_adj())[r.1@[v] as int],
                    v as usize,
                ),
            forall|v: usize, w: usize|
                v < self.spec_vertex_count() && w < self.spec_vertex_count() ==> (r.1@[v as int] == r.1@[w as int]
                    <==> #[trigger] reachable(self.spec_adj(), v, w)),
            forall|c: int|
                0 <= c < r.0 ==> #[trigger] component_minima(self.spec_adj())[c] < self.spec_vertex_count()
                    && r.1@[component_minima(self.spec_adj())[c] as int] == c,
    {
        let (num, ids, _) = self.components_with_minima();
        proof {
            let adj = self.spec_adj();
            let n = adj.len();
            let m = component_minima(adj);
            lemma_mins_upto(adj, n);
            assert forall|v: usize, w: usize| v < n && w < n implies (ids@[v as int] == ids@[w as int]
                <==> #[trigger] reachable(adj, v, w)) by {
                let mv = m[ids@[v as int] as int];
                let mw = m[ids@[w as int] as int];
                assert(reachable(adj, mv, v));
                assert(reachable(adj, mw, w));
                lemma_reachable_sym(adj, mv, v);
                lemma_reachable_sym(adj, mw, w);
                if ids@[v as int] == ids@[w as int] {
                    lemma_reachable_trans(adj, v, mv, w);
                }
                if reachable(adj, v, w) {
                    lemma_reachable_trans(adj, mv, v, w);
                    lemma_reachable_trans(adj, mv, w, mw);
                    assert(m.contains(mv) && m.contains(mw));
                    lemma_same_min(adj, mv, mw);
                    if ids@[v as int] < ids@[w as int] {
                        assert(m[ids@[v as int] as int] < m[ids@[w as int] as int]);
                    } else if ids@[w as int] < ids@[v as int] {
                        assert(m[ids@[w as int] as int] < m[ids@[v as int] as int]);
                    }
                }
            }
            assert forall|c: int| 0 <= c < num implies #[trigger] m[c] < n && ids@[m[c] as int] == c by {
                let v = m[c];
                let mv = m[ids@[v as int] as int];
                assert(reachable(adj, mv, v));
                assert(m.contains(mv) && m.contains(v));
                lemma_same_min(adj, mv, v);
                if ids@[v as int] < c {
                    assert(m[ids@[v as int] as int] < m[c]);
                } else if c < ids@[v as int] {
                    assert(m[c] < m[ids@[v as int] as int]);
                }
            }
        }
        (num, ids)
    }

    /// # Connects connected components (CCs)
    /// * returns vector of indices, where each corresponding node is in a different
    /// connected component: the smallest vertex of each component, ascending
    pub(crate) fn suggest_connections(&self) -> (r: Vec<usize>)
        requires
            self.wf(),
            self.spec_vertex_count() <= isize::MAX,
        ensures
            r@ == component_minima(self.spec_adj()),
    {
        let (_, _, mins) = self.components_with_minima();
        mins
    }

    /// the component ids of `connected_components_ids` together with the smallest
    /// vertex of each component
    pub(crate) fn components_with_minima(&self) -> (r: (usize, Vec<isize>, Vec<usize>))
        requires
            self.wf(),
            self.spec_vertex_count() <= isize::MAX,
        ensures
            r.0 == component_minima(self.spec_adj()).len(),
            r.2@ == component_minima(self.spec_adj()),
            r.1@.len() == self.spec_vertex_count(),
            forall|v: int|
                0 <= v < self.spec_vertex_count() ==> 0 <= #[trigger] r.1@[v] < r.0 && reachable(
                    self.spec_adj(),
                    component_minima(self.spec_adj())[r.1@[v] as int],
                    v as usize,
                ),
    {
        let ghost adj = self.spec_adj();
        let n = self.vertex_count();
        let mut ids: Vec<isize> = vec![-1; n];
        let mut cur: isize = 0;
        let mut mins: Vec<usize> = Vec::new();
        let ghost mut reps: Seq<usize> = Seq::empty();
        let mut i: usize = 0;
        proof {
            assert(reps =~= mins_upto(adj, 0));
        }
        while i < n
            invariant
                self.wf(),
                adj == self.spec_adj(),
                adj_wf(adj),
                n == adj.len(),
                n <= isize::MAX,
                i <= n,
                ids@.len() == n,
                reps == mins_upto(adj, i as nat),
                mins@ == reps,
                cur == reps.len(),
                0 <= cur <= i,
                forall|v: int| 0 <= v < n ==> #[trigger] ids@[v] == -1 || 0 <= ids@[v] < cur,
                forall|v: int| 0 <= v < i ==> #[trigger] ids@[v] != -1,
                forall|v: int|
                    0 <= v < n && #[trigger] ids@[v] != -1 ==> reachable(
                        adj,
                        reps[ids@[v] as int],
                        v as usize,
                    ),
                forall|u: usize, v: usize|
                    u < n && v < n && ids@[u as int] != -1 && #[trigger] reachable(adj, u, v)
                        ==> ids@[v as int] == ids@[u as int],
            decreases n - i,
        {
            proof {
                lemma_mins_upto(adj, i as nat);
            }
            if ids[i] == -1 {
                let order = self.dfs_order(i);
                let ghost ids0 = ids@;
                proof {
                    assert forall|w: usize| #[trigger] order@.contains(w) implies w < n && ids0[w as int]
                        == -1 by {
                        assert(reachable(adj, i, w));
                        let q = choose|q: int| 0 <= q < order@.len() && order@[q] == w;
                        assert(w < n) by {
                            let pth = choose|pth: Seq<usize>|
                                crate::graph_spec::is_walk(adj, pth) && pth[0] == i && pth.last() == w;
                            assert(pth[pth.len() - 1] < n);
                        }
                        if ids0[w as int] != -1 {
                            lemma_reachable_sym(adj, i, w);
                            assert(ids0[i as int] == ids0[w as int]);
                        }
                    }
                }
                let m = order.len();
                let mut p: usize = 0;
                while p < m
                    invariant
                        m == order@.len(),
                        p <= m,
                        ids@.len() == n,
                        forall|w: usize| #[trigger] order@.contains(w) ==> w < n,
                        forall|v: int|
                            0 <= v < n ==> #[trigger] ids@[v] == if order@.take(p as int).contains(
                                v as usize,
                            ) {
                                cur
                            } else {
                                ids0[v]
                            },
                    decreases m - p,
                {
                    let w = order[p];
                    proof {
                        assert(order@.contains(w));
                    }
                    ids.set(w, cur);
                    proof {
                        assert(order@.take(p as int + 1) == order@.take(p as int).push(w));
                        assert forall|v: int| 0 <= v < n implies #[trigger] ids@[v] == if order@.take(
                            p as int + 1,
                        ).contains(v as usize) {
                            cur
                        } else {
                            ids0[v]
                        } by {
                            lemma_push_contains_one(order@.take(p as int), w, v as usize);
                        }
                    }
                    p = p + 1;
                }
                proof {
                    assert(order@.take(m as int) == order@);
                    let reps1 = reps.push(i);
                    assert(is_min_vertex(adj, i)) by {
                        assert forall|u: usize| u < i implies !reachable(adj, u, i) by {
                            assert(ids0[u as int] != -1);
                        }
                    }
                    assert(mins_upto(adj, i as nat + 1) == reps1);
                    assert(order@.contains(i)) by {
                        assert(order@[0] == i);
                    }
                    assert forall|v: int|
                        0 <= v < n && #[trigger] ids@[v] != -1 implies reachable(
                        adj,
                        reps1[ids@[v] as int],
                        v as usize,
                    ) by {
                        if order@.contains(v as usize) {
                            assert(reps1[cur as int] == i);
                        } else {
                            assert(ids0[v] != -1);
                            assert(reps1[ids0[v] as int] == reps[ids0[v] as int]);
                        }
                    }
                    assert forall|u: usize, v: usize|
                        u < n && v < n && ids@[u as int] != -1 && #[trigger] reachable(adj, u, v)
                            implies ids@[v as int] == ids@[u as int] by {
                        if order@.contains(u) {
                            assert(reachable(adj, i, u));
                            lemma_reachable_trans(adj, i, u, v);
                            assert(order@.contains(v));
                        } else {
                            assert(ids0[u as int] != -1);
                            assert(ids0[v as int] == ids0[u as int]);
                            if order@.contains(v) {
                                assert(ids0[v as int] == -1);
                            }
                        }
                    }
                    reps = reps1;
                }
                mins.push(i);
                cur = cur + 1;
            } else {
                proof {
                    let k = ids@[i as int];
                    assert(reachable(adj, reps[k as int], i));
                    assert(reps.contains(reps[k as int]));
                    assert(reps[k as int] < i);
                    assert(!is_min_vertex(adj, i));
                    assert(mins_upto(adj, i as nat + 1) == reps);
                }
            }
            i = i + 1;
        }
        (cur as usize, ids, mins)
    }

    /// # compute sizes of all *connected components*
    ///
    /// * the **number** of connected components is the **size** of the returned vector, i.e. `result.len()`
    /// * returns **empty** vector, if graph does not contain vertices
    /// * returns (reverse) **ordered vector of sizes** of the connected components,
    /// i.e. the biggest component is of size `result[0]` and the smallest is of size `result[result.len() - 1]`
    #[verifier::spinoff_prover]
    pub fn connected_components(&self) -> (r: Vec<usize>)
        requires
            self.wf(),
            self.spec_vertex_count() <= isize::MAX,
        ensures
            r@.to_multiset() == component_sizes(self.spec_adj()).to_multiset(),
            sorted_down(r@),
    {
        let ghost adj = self.spec_adj();
        let n = self.vertex_count();
        let (num, ids) = self.connected_components_ids();
        let ghost mins = component_minima(adj);
        let mut counts: Vec<usize> = vec![0; num];
        let mut v: usize = 0;
        proof {
            lemma_mins_upto(adj, n as nat);
            assert forall|k: int| 0 <= k < num implies #[trigger] counts@[k] == class_below(
                ids@,
                0,
                k,
            ).len() && class_below(ids@, 0, k).finite() by {
                assert(class_below(ids@, 0, k) =~= Set::<usize>::empty());
            }
        }
        while v < n
            invariant
                n == adj.len(),
                n == ids@.len(),
                num == mins.len(),
                v <= n,
                counts@.len() == num,
                forall|w: int| 0 <= w < n ==> 0 <= #[trigger] ids@[w] < num,
                forall|k: int|
                    0 <= k < num ==> #[trigger] counts@[k] == class_below(ids@, v as nat, k).len()
                        && class_below(ids@, v as nat, k).finite(),
            decreases n - v,
        {
            let k = ids[v] as usize;
            proof {
                assert forall|j: int| 0 <= j < num implies #[trigger] class_below(
                    ids@,
                    v as nat + 1,
                    j,
                ) == if j == k {
                    class_below(ids@, v as nat, j).insert(v)
                } else {
                    class_below(ids@, v as nat, j)
                } by {
                    assert(class_below(ids@, v as nat + 1, j) =~= if j == k {
                        class_below(ids@, v as nat, j).insert(v)
                    } else {
                        class_below(ids@, v as nat, j)
                    });
                }
                let sk = class_below(ids@, v as nat, k as int);
                lemma_below_card(v as nat);
                assert(sk.subset_of(below(v as nat)));
                vstd::set_lib::lemma_len_subset(sk, below(v as nat));
                assert(!sk.contains(v));
            }
            let c = counts[k];
            let ghost counts0 = counts@;
            counts.set(k, c + 1);
            proof {
                broadcast use vstd::set::group_set_axioms;

                assert(counts0[k as int] == class_below(ids@, v as nat, k as int).len());

                assert forall|j: int| 0 <= j < num implies #[trigger] counts@[j] == class_below(
                    ids@,
                    v as nat + 1,
                    j,
                ).len() && class_below(ids@, v as nat + 1, j).finite() by {
                    if j == k {
                        assert(class_below(ids@, v as nat + 1, j) == class_below(ids@, v as nat, j).insert(v));
                        assert(counts@[j] == counts0[j] + 1);
                    } else {
                        assert(class_below(ids@, v as nat + 1, j) == class_below(ids@, v as nat, j));
                        assert(counts@[j] == counts0[j]);
                    }
                }
            }
            v = v + 1;
        }
        proof {
            assert forall|k: int| 0 <= k < num implies #[trigger] counts@[k] == component_sizes(adj)[k] by {
                let m = mins[k];
                assert(mins.contains(m));
                assert(class_below(ids@, n as nat, k) =~= below(n as nat).filter(
                    |w: usize| reachable(adj, m, w),
                )) by {
                    assert forall|w: usize|
                        below(n as nat).filter(|w: usize| reachable(adj, m, w)).contains(w) implies w
                        < n && ids@[w as int] == k by {
                        let j = ids@[w as int];
                        let mj = mins[j as int];
                        assert(mins.contains(mj));
                        assert(reachable(adj, mj, w));
                        lemma_reachable_sym(adj, mj, w);
                        lemma_reachable_trans(adj, m, w, mj);
                        lemma_reachable_sym(adj, m, mj);
                        if m < mj {
                            assert(is_min_vertex(adj, mj));
                        } else if mj < m {
                            assert(is_min_vertex(adj, m));
                        }
                        if j < k {
                            assert(mins[j as int] < mins[k]);
                        } else if k < j {
                            assert(mins[k] < mins[j as int]);
                        }
                    }
                }
                lemma_component_size_bound(adj, m);
            }
            assert(counts@ =~= component_sizes(adj));
        }
        sort_usizes_down(&mut counts);
        counts
    }

    /// # Depth first search with indices
    /// * pairs `(index, what the vertex holds)` in depth first search order,
    /// beginning with vertex `index`
    /// * Will only contain vertices within the connected component that contains vertex `index`
    /// * empty if index out of bounds
    pub fn dfs_with_index(&self, index: usize) -> (r: Vec<(usize, &T)>)
        requires
            self.wf(),
        ensures
            lists_component(self.spec_adj(), index, r@.map_values(|p: (usize, &T)| p.0)),
            dfs_linked(self.spec_adj(), r@.map_values(|p: (usize, &T)| p.0)),
            is_dfs_order(self.spec_adj(), r@.map_values(|p: (usize, &T)| p.0)),
            forall|k: int| 0 <= k < r@.len() ==> *r@[k].1 == self.spec_contained()[r@[k].0 as int],
    {
        let order = self.dfs_order(index);
        let m = order.len();
        let mut r: Vec<(usize, &T)> = Vec::with_capacity(m);
        let mut k: usize = 0;
        while k < m
            invariant
                self.wf(),
                lists_component(self.spec_adj(), index, order@),
                m == order@.len(),
                k <= m,
                r@.len() == k,
                forall|q: int| 0 <= q < k ==> r@[q].0 == order@[q],
                forall|q: int| 0 <= q < k ==> *r@[q].1 == self.spec_contained()[r@[q].0 as int],
            decreases m - k,
        {
            let v = order[k];
            proof {
                assert(order@.contains(v));
                lemma_reachable_bounds(self.spec_adj(), index, v);
            }
            r.push((v, self.at(v)));
            k = k + 1;
        }
        assert(r@.map_values(|p: (usize, &T)| p.0) =~= order@);
        r
    }

    /// # Depth first search
    /// * what the vertices hold, in depth first search order, beginning with vertex `index`
    /// * Will only contain vertices within the connected component that contains vertex `index`
    /// * empty if index out of bounds
    pub fn dfs(&self, index: usize) -> (r: Vec<&T>)
        requires
            self.wf(),
        ensures
            exists|order: Seq<usize>|
                lists_component(self.spec_adj(), index, order) && (dfs_linked(self.spec_adj(), order) && is_dfs_order(self.spec_adj(), order))
                    && order.len() == r@.len() && forall|k: int|
                    0 <= k < r@.len() ==> *#[trigger] r@[k] == self.spec_contained()[order[k] as int],
    {
        let order = self.dfs_order(index);
        let m = order.len();
        let mut r: Vec<&T> = Vec::with_capacity(m);
        let mut k: usize = 0;
        while k < m
            invariant
                self.wf(),
                lists_component(self.spec_adj(), index, order@),
                m == order@.len(),
                k <= m,
                r@.len() == k,
                forall|q: int| 0 <= q < k ==> *r@[q] == self.spec_contained()[order@[q] as int],
            decreases m - k,
        {
            let v = order[k];
            proof {
                assert(order@.contains(v));
                lemma_reachable_bounds(self.spec_adj(), index, v);
            }
            r.push(self.at(v));
            k = k + 1;
        }
        r
    }
}

} // verus!
