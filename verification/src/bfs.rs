//! Breadth first search and shortest path lengths: the depth at which the search
//! meets a vertex is the number of edges on a shortest walk to it.
use vstd::prelude::*;
use crate::traits::AdjContainer;
use crate::generic_graph::GenericGraph;
use crate::graph_spec::{
    adj_wf, is_walk, reachable, lemma_reachable_bounds, lemma_reachable_sym, lemma_reachable_trans, lemma_closed_set_reach, lemma_push_contains,
    lemma_push_contains_one, lemma_push_no_dup, lemma_push_no_dup_rev,
};
use crate::search::{Searchable, lists_component};
use crate::seq_util::lemma_cover;

verus! {

/// there is a walk from `s` to `t` along at most `d` edges
pub open spec fn within(adj: Seq<Seq<usize>>, s: usize, t: usize, d: nat) -> bool {
    exists|p: Seq<usize>| is_walk(adj, p) && p[0] == s && p.last() == t && p.len() <= d + 1
}

/// a shortest walk from `s` to `t` has exactly `d` edges
pub open spec fn is_dist(adj: Seq<Seq<usize>>, s: usize, t: usize, d: nat) -> bool {
    &&& within(adj, s, t, d)
    &&& d > 0 ==> !within(adj, s, t, (d - 1) as nat)
}

/// `x` occurs in `s` at a position `i` or later
pub open spec fn occurs_from(s: Seq<usize>, i: int, x: usize) -> bool {
    exists|j: int| i <= j < s.len() && s[j] == x
}

/// a vertex is within zero edges of exactly itself
pub proof fn lemma_within_zero(adj: Seq<Seq<usize>>, s: usize, t: usize)
    ensures
        within(adj, s, t, 0) <==> (s == t && s < adj.len()),
{
    if within(adj, s, t, 0) {
        let p = choose|p: Seq<usize>| is_walk(adj, p) && p[0] == s && p.last() == t && p.len() <= 1;
        assert(p[0] < adj.len());
    }
    if s == t && s < adj.len() {
        let p = seq![s];
        assert(is_walk(adj, p));
        assert(p[0] == s && p.last() == t);
    }
}

/// more edges allowed, fewer walks excluded
pub proof fn lemma_within_mono(adj: Seq<Seq<usize>>, s: usize, t: usize, d: nat, e: nat)
    requires
        within(adj, s, t, d),
        d <= e,
    ensures
        within(adj, s, t, e),
{
    let p = choose|p: Seq<usize>| is_walk(adj, p) && p[0] == s && p.last() == t && p.len() <= d + 1;
    assert(is_walk(adj, p) && p[0] == s && p.last() == t && p.len() <= e + 1);
}

/// a short walk is a walk
pub proof fn lemma_within_reachable(adj: Seq<Seq<usize>>, s: usize, t: usize, d: nat)
    requires
        within(adj, s, t, d),
    ensures
        reachable(adj, s, t),
{
    let p = choose|p: Seq<usize>| is_walk(adj, p) && p[0] == s && p.last() == t && p.len() <= d + 1;
    assert(is_walk(adj, p) && p[0] == s && p.last() == t);
}

/// one more edge at the end of a short walk
pub proof fn lemma_within_step(adj: Seq<Seq<usize>>, s: usize, u: usize, w: usize, d: nat)
    requires
        adj_wf(adj),
        within(adj, s, u, d),
        u < adj.len(),
        adj[u as int].contains(w),
    ensures
        within(adj, s, w, d + 1),
{
    let p = choose|p: Seq<usize>| is_walk(adj, p) && p[0] == s && p.last() == u && p.len() <= d + 1;
    let q = p.push(w);
    let k = choose|k: int| 0 <= k < adj[u as int].len() && adj[u as int][k] == w;
    assert(adj[u as int][k] < adj.len());
    assert forall|i: int| 0 <= i < q.len() - 1 implies adj[#[trigger] q[i] as int].contains(q[i + 1]) by {
        if i < p.len() - 1 {
            assert(q[i] == p[i] && q[i + 1] == p[i + 1]);
        }
    }
    assert(is_walk(adj, q));
    assert(q[0] == s && q.last() == w && q.len() <= d + 2);
}

/// a vertex at distance `d + 1` has a neighbor within `d` edges of the start
pub proof fn lemma_within_pred(adj: Seq<Seq<usize>>, s: usize, w: usize, d: nat) -> (u: usize)
    requires
        within(adj, s, w, d + 1),
        !within(adj, s, w, d),
    ensures
        within(adj, s, u, d),
        u < adj.len(),
        adj[u as int].contains(w),
{
    let p = choose|p: Seq<usize>| is_walk(adj, p) && p[0] == s && p.last() == w && p.len() <= d + 2;
    if p.len() <= d + 1 {
        assert(is_walk(adj, p) && p[0] == s && p.last() == w && p.len() <= d + 1);
    }
    let q = p.drop_last();
    assert(p.len() >= 2);
    let u = p[p.len() - 2];
    assert(adj[p[p.len() - 2] as int].contains(p[p.len() - 1]));
    assert(is_walk(adj, q)) by {
        assert forall|k: int| 0 <= k < q.len() - 1 implies adj[#[trigger] q[k] as int].contains(q[k + 1]) by {
            assert(q[k] == p[k] && q[k + 1] == p[k + 1]);
        }
    }
    assert(q[0] == s && q.last() == u && q.len() <= d + 1);
    u
}

/// walks can be reversed in an undirected graph, keeping their length
pub proof fn lemma_within_sym(adj: Seq<Seq<usize>>, s: usize, t: usize, d: nat)
    requires
        adj_wf(adj),
        within(adj, s, t, d),
    ensures
        within(adj, t, s, d),
{
    let p = choose|p: Seq<usize>| is_walk(adj, p) && p[0] == s && p.last() == t && p.len() <= d + 1;
    let q = p.reverse();
    assert forall|i: int| 0 <= i < q.len() - 1 implies adj[#[trigger] q[i] as int].contains(q[i + 1]) by {
        let a = p.len() - 1 - i;
        assert(q[i] == p[a]);
        assert(q[i + 1] == p[a - 1]);
        assert(adj[p[a - 1] as int].contains(p[a]));
    }
    assert(is_walk(adj, q));
    assert(q[0] == t && q.last() == s && q.len() <= d + 1);
}

/// the distance between two vertices is unique
pub proof fn lemma_dist_unique(adj: Seq<Seq<usize>>, s: usize, t: usize, d: nat, e: nat)
    requires
        is_dist(adj, s, t, d),
        is_dist(adj, s, t, e),
    ensures
        d == e,
{
    if d < e {
        lemma_within_mono(adj, s, t, d, (e - 1) as nat);
    } else if e < d {
        lemma_within_mono(adj, s, t, e, (d - 1) as nat);
    }
}

/// Marks the unmarked neighbors of `v` and appends them to `next`, in the order of the
/// adjacency list of `v`.
fn mark_neighbors<G: Searchable>(g: &G, v: usize, handled: &mut Vec<bool>, next: &mut Vec<usize>)
    requires
        g.searchable(),
        v < g.view_adj().len(),
        old(handled)@.len() == g.view_adj().len(),
        old(next)@.no_duplicates(),
        forall|j: int| 0 <= j < old(next)@.len() ==> #[trigger] old(next)@[j] < g.view_adj().len(),
        forall|j: int| 0 <= j < old(next)@.len() ==> old(handled)@[#[trigger] old(next)@[j] as int],
    ensures
        final(handled)@.len() == g.view_adj().len(),
        forall|x: usize|
            x < g.view_adj().len() ==> (#[trigger] final(handled)@[x as int] <==> (old(handled)@[x as int]
                || g.view_adj()[v as int].contains(x))),
        final(next)@.no_duplicates(),
        forall|j: int| 0 <= j < final(next)@.len() ==> #[trigger] final(next)@[j] < g.view_adj().len(),
        forall|x: usize|
            #[trigger] final(next)@.contains(x) <==> (old(next)@.contains(x) || (g.view_adj()[v as int].contains(x)
                && x < g.view_adj().len() && !old(handled)@[x as int])),
{
    proof {
        g.lemma_searchable();
    }
    let ghost adj = g.view_adj();
    let ghost h0 = handled@;
    let ghost n0 = next@;
    let n = g.node_count();
    let d = g.degree_of(v);
    let mut k: usize = 0;
    while k < d
        invariant
            g.searchable(),
            adj == g.view_adj(),
            adj_wf(adj),
            n == adj.len(),
            v < n,
            d == adj[v as int].len(),
            k <= d,
            handled@.len() == n,
            h0.len() == n,
            next@.no_duplicates(),
            forall|j: int| 0 <= j < next@.len() ==> #[trigger] next@[j] < n,
            forall|j: int| 0 <= j < next@.len() ==> handled@[#[trigger] next@[j] as int],
            forall|x: usize|
                x < n ==> (#[trigger] handled@[x as int] <==> (h0[x as int]
                    || adj[v as int].take(k as int).contains(x))),
            forall|x: usize|
                #[trigger] next@.contains(x) <==> (n0.contains(x) || (adj[v as int].take(k as int).contains(x)
                    && x < n && !h0[x as int])),
        decreases d - k,
    {
        let w = g.neighbor_of(v, k);
        proof {
            assert(adj[v as int][k as int] == w);
            assert(w < n);
            assert(adj[v as int].take(k as int + 1) == adj[v as int].take(k as int).push(w));
            lemma_push_contains(adj[v as int].take(k as int), w);
        }
        if !handled[w] {
            let ghost s0 = next@;
            handled.set(w, true);
            next.push(w);
            proof {
                assert(!s0.contains(w)) by {
                    if s0.contains(w) {
                        let j = choose|j: int| 0 <= j < s0.len() && s0[j] == w;
                        assert(handled@[s0[j] as int]);
                    }
                }
                lemma_push_contains(s0, w);
                lemma_push_no_dup(s0, w);
                assert forall|x: usize|
                    #[trigger] next@.contains(x) <==> (n0.contains(x) || (adj[v as int].take(
                        k as int + 1,
                    ).contains(x) && x < n && !h0[x as int])) by {
                    lemma_push_contains_one(s0, w, x);
                    lemma_push_contains_one(adj[v as int].take(k as int), w, x);
                }
                assert forall|x: usize|
                    x < n implies (#[trigger] handled@[x as int] <==> (h0[x as int] || adj[v as int].take(
                        k as int + 1,
                    ).contains(x))) by {
                    lemma_push_contains_one(adj[v as int].take(k as int), w, x);
                }
            }
        } else {
            proof {
                assert forall|x: usize|
                    #[trigger] next@.contains(x) <==> (n0.contains(x) || (adj[v as int].take(
                        k as int + 1,
                    ).contains(x) && x < n && !h0[x as int])) by {
                    lemma_push_contains_one(adj[v as int].take(k as int), w, x);
                    if x == w && !h0[x as int] && !n0.contains(x) {
                        assert(adj[v as int].take(k as int).contains(w));
                    }
                }
                assert forall|x: usize|
                    x < n implies (#[trigger] handled@[x as int] <==> (h0[x as int] || adj[v as int].take(
                        k as int + 1,
                    ).contains(x))) by {
                    lemma_push_contains_one(adj[v as int].take(k as int), w, x);
                }
            }
        }
        k = k + 1;
    }
    proof {
        assert(adj[v as int].take(d as int) == adj[v as int]);
    }
}

/// what a breadth first search from `start` returns: the vertices that `start` reaches,
/// each once and beginning with `start`, each with its distance from `start`, in
/// ascending distance
pub open spec fn bfs_result(adj: Seq<Seq<usize>>, start: usize, r: Seq<(usize, usize)>) -> bool {
    &&& lists_component(adj, start, r.map_values(|p: (usize, usize)| p.0))
    &&& forall|k: int| 0 <= k < r.len() ==> is_dist(adj, start, #[trigger] r[k].0, r[k].1 as nat)
    &&& forall|a: int, b: int| 0 <= a <= b < r.len() ==> #[trigger] r[a].1 <= #[trigger] r[b].1
}

/// The state of a breadth first search: the vertices seen so far, the layer at the
/// current depth with a cursor into it, and the next layer. Each call of
/// [`BfsState::step`] hands out the next vertex with its depth.
pub struct BfsState {
    handled: Vec<bool>,
    cur: Vec<usize>,
    next: Vec<usize>,
    ci: usize,
    depth: usize,
    start: Ghost<usize>,
    order: Ghost<Seq<(usize, usize)>>,
    oi: Ghost<Seq<usize>>,
}

impl BfsState {
    /// the vertex the search began at
    pub closed spec fn start(&self) -> usize {
        self.start@
    }

    /// the pairs `(vertex, depth)` handed out so far, in order
    pub closed spec fn emitted(&self) -> Seq<(usize, usize)> {
        self.order@
    }

    /// the state belongs to a search over the graph with adjacency lists `adj`
    pub closed spec fn bfs_inv(&self, adj: Seq<Seq<usize>>) -> bool {
        let n = adj.len();
        let index = self.start@;
        let order = self.order@;
        let oi = self.oi@;
        let cur = self.cur@;
        let next = self.next@;
        let handled = self.handled@;
        let ci = self.ci;
        let depth = self.depth;
        &&& adj_wf(adj)
        &&& n <= usize::MAX
        &&& handled.len() == n
        &&& ci <= cur.len()
        &&& oi.len() == order.len()
        &&& forall|k: int| 0 <= k < order.len() ==> #[trigger] order[k].0 == oi[k]
        &&& forall|k: int| 0 <= k < oi.len() ==> #[trigger] oi[k] < n
        &&& forall|j: int| 0 <= j < cur.len() ==> #[trigger] cur[j] < n
        &&& forall|j: int| 0 <= j < next.len() ==> #[trigger] next[j] < n
        &&& oi.no_duplicates()
        &&& cur.no_duplicates()
        &&& next.no_duplicates()
        &&& forall|x: usize|
            x < n ==> (#[trigger] handled[x as int] <==> (oi.contains(x) || occurs_from(cur, ci as int, x)
                || next.contains(x)))
        &&& forall|x: usize| !(#[trigger] oi.contains(x) && occurs_from(cur, ci as int, x))
        &&& forall|x: usize| !(#[trigger] oi.contains(x) && next.contains(x))
        &&& forall|x: usize| !(#[trigger] next.contains(x) && occurs_from(cur, ci as int, x))
        &&& forall|k: int| 0 <= k < order.len() ==> is_dist(adj, index, #[trigger] order[k].0, order[k].1 as nat)
        &&& forall|j: int| 0 <= j < cur.len() ==> is_dist(adj, index, #[trigger] cur[j], depth as nat)
        &&& forall|j: int| 0 <= j < next.len() ==> is_dist(adj, index, #[trigger] next[j], depth as nat + 1)
        &&& forall|a: int, b: int| 0 <= a <= b < order.len() ==> #[trigger] order[a].1 <= #[trigger] order[b].1
        &&& forall|k: int| 0 <= k < order.len() ==> #[trigger] order[k].1 <= depth
        &&& depth <= order.len()
        &&& ci > 0 ==> depth < order.len()
        &&& forall|x: usize, w: usize|
            #![trigger oi.contains(x), adj[x as int].contains(w)]
            oi.contains(x) && adj[x as int].contains(w) ==> w < n && handled[w as int]
        &&& index < n ==> forall|w: usize| within(adj, index, w, depth as nat) ==> w < n && #[trigger] handled[w as int]
        &&& index < n ==> cur.len() > 0
        &&& index < n ==> oi.len() > 0 ==> oi[0] == index
        &&& index < n ==> oi.len() == 0 ==> cur == seq![index] && ci == 0
        &&& index >= n ==> cur.len() == 0 && next.len() == 0 && oi.len() == 0
    }

    /// the vertices handed out are distinct vertices of the graph
    pub proof fn lemma_emitted(&self, adj: Seq<Seq<usize>>)
        requires
            self.bfs_inv(adj),
        ensures
            self.emitted().len() <= adj.len(),
            forall|k: int| 0 <= k < self.emitted().len() ==> #[trigger] self.emitted()[k].0 < adj.len(),
    {
        lemma_cover(self.oi@, adj.len());
        assert forall|k: int| 0 <= k < self.emitted().len() implies #[trigger] self.emitted()[k].0 < adj.len() by {
            assert(self.order@[k].0 == self.oi@[k]);
        }
    }

    /// the search met vertex `v`: it was handed out or waits to be
    pub closed spec fn seen(&self, v: usize) -> bool {
        self.handled@[v as int]
    }

    /// the first vertex handed out is the start, at depth zero
    pub proof fn lemma_first(&self, adj: Seq<Seq<usize>>)
        requires
            self.bfs_inv(adj),
            self.emitted().len() > 0,
        ensures
            self.emitted()[0] == (self.start(), 0usize),
    {
        let index = self.start@;
        let first = self.order@[0];
        assert(is_dist(adj, index, first.0, first.1 as nat));
        let p = choose|p: Seq<usize>|
            is_walk(adj, p) && p[0] == index && p.last() == first.0 && p.len() <= first.1 as nat + 1;
        assert(index < adj.len());
        assert(self.oi@[0] == index);
        lemma_within_zero(adj, index, index);
        lemma_dist_unique(adj, index, index, first.1 as nat, 0);
    }

    /// the number of vertices of the graph searched
    pub closed spec fn size(&self) -> nat {
        self.handled@.len()
    }

    /// what the search met it reaches from its start, and every vertex handed out was met
    pub proof fn lemma_seen(&self, adj: Seq<Seq<usize>>)
        requires
            self.bfs_inv(adj),
        ensures
            self.size() == adj.len(),
            forall|v: usize| v < adj.len() && #[trigger] self.seen(v) ==> reachable(adj, self.start(), v),
            forall|k: int| 0 <= k < self.emitted().len() ==> #[trigger] self.seen(self.emitted()[k].0),
    {
        let n = adj.len();
        let index = self.start@;
        assert forall|v: usize| v < n && #[trigger] self.seen(v) implies reachable(adj, index, v) by {
            if self.oi@.contains(v) {
                let k = choose|k: int| 0 <= k < self.oi@.len() && self.oi@[k] == v;
                assert(is_dist(adj, index, self.order@[k].0, self.order@[k].1 as nat));
                lemma_within_reachable(adj, index, v, self.order@[k].1 as nat);
            } else if occurs_from(self.cur@, self.ci as int, v) {
                let j = choose|j: int| self.ci <= j < self.cur@.len() && self.cur@[j] == v;
                assert(is_dist(adj, index, self.cur@[j], self.depth as nat));
                lemma_within_reachable(adj, index, v, self.depth as nat);
            } else {
                assert(self.next@.contains(v));
                let j = choose|j: int| 0 <= j < self.next@.len() && self.next@[j] == v;
                assert(is_dist(adj, index, self.next@[j], self.depth as nat + 1));
                lemma_within_reachable(adj, index, v, self.depth as nat + 1);
            }
        }
        assert forall|k: int| 0 <= k < self.emitted().len() implies #[trigger] self.seen(self.emitted()[k].0) by {
            assert(self.order@[k].0 == self.oi@[k]);
            assert(self.oi@.contains(self.oi@[k]));
        }
    }

    /// whether the search met vertex `v`
    pub fn is_handled(&self, v: usize) -> (r: bool)
        requires
            v < self.size(),
        ensures
            r == self.seen(v),
    {
        self.handled[v]
    }

    /// a search over `g` beginning at vertex `index`
    pub fn new<G: Searchable>(g: &G, index: usize) -> (r: Self)
        requires
            g.searchable(),
        ensures
            r.bfs_inv(g.view_adj()),
            r.start() == index,
            r.emitted() == Seq::<(usize, usize)>::empty(),
            forall|v: usize| v < g.view_adj().len() ==> (#[trigger] r.seen(v) <==> v == index),
    {
        proof {
            g.lemma_searchable();
        }
        let ghost adj = g.view_adj();
        let n = g.node_count();
        let mut handled: Vec<bool> = vec![false; n];
        let mut cur: Vec<usize> = Vec::new();
        let next: Vec<usize> = Vec::new();
        let ghost oi: Seq<usize> = Seq::empty();
        if index < n {
            cur.push(index);
            handled.set(index, true);
            proof {
                lemma_within_zero(adj, index, index);
                assert(cur@ == seq![index]);
                assert forall|w: usize| within(adj, index, w, 0) implies w < n && handled@[w as int] by {
                    lemma_within_zero(adj, index, w);
                }
                assert forall|x: usize| x < n implies (#[trigger] handled@[x as int] <==> (oi.contains(x)
                    || occurs_from(cur@, 0, x) || next@.contains(x))) by {
                    if x == index {
                        assert(cur@[0] == index);
                    }
                }
            }
        }
        BfsState {
            handled,
            cur,
            next,
            ci: 0,
            depth: 0,
            start: Ghost(index),
            order: Ghost(Seq::empty()),
            oi: Ghost(oi),
        }
    }

    /// hands out the vertex under the cursor of the current layer
    fn emit<G: Searchable>(&mut self, g: &G) -> (r: (usize, usize))
        requires
            g.searchable(),
            old(self).bfs_inv(g.view_adj()),
            old(self).ci < old(self).cur@.len(),
        ensures
            final(self).bfs_inv(g.view_adj()),
            final(self).start() == old(self).start(),
            final(self).emitted() == old(self).emitted().push(r),
    {
        proof {
            g.lemma_searchable();
        }
        let ghost adj = g.view_adj();
        let ghost index = self.start@;
        let n = g.node_count();
        let len = self.cur.len();
        let v = self.cur[self.ci];
        let depth = self.depth;
        proof {
            let cur = self.cur@;
            let ci = self.ci;
            assert(occurs_from(cur, ci as int, v));
            assert forall|x: usize| #[trigger] occurs_from(cur, ci as int + 1, x) <==> (occurs_from(
                cur,
                ci as int,
                x,
            ) && x != v) by {
                if occurs_from(cur, ci as int, x) && x != v {
                    let j = choose|j: int| ci <= j < cur.len() && cur[j] == x;
                    assert(j != ci);
                }
                if occurs_from(cur, ci as int + 1, x) {
                    let j = choose|j: int| ci + 1 <= j < cur.len() && cur[j] == x;
                    assert(j != ci);
                }
            }
            assert(is_dist(adj, index, cur[ci as int], depth as nat));
        }
        self.ci = self.ci + 1;
        let ghost h0 = self.handled@;
        let ghost n0 = self.next@;
        mark_neighbors(g, v, &mut self.handled, &mut self.next);
        let ghost o0 = self.oi@;
        let ghost ord0 = self.order@;
        self.order = Ghost(ord0.push((v, depth)));
        self.oi = Ghost(o0.push(v));
        proof {
            let oi = self.oi@;
            let order = self.order@;
            let cur = self.cur@;
            let ci = self.ci;
            let handled = self.handled@;
            let next = self.next@;
            lemma_push_contains(o0, v);
            lemma_push_no_dup(o0, v);
            assert(order[order.len() - 1] == (v, depth));
            assert forall|k: int| 0 <= k < order.len() implies #[trigger] order[k].0 == oi[k] by {
                if k < o0.len() {
                    assert(order[k] == ord0[k]);
                }
            }
            assert(index < n);
            assert(!o0.contains(v));
            assert(h0[v as int]);
            assert forall|x: usize| x < n implies (#[trigger] handled[x as int] <==> (oi.contains(x)
                || occurs_from(cur, ci as int, x) || next.contains(x))) by {
                lemma_push_contains_one(o0, v, x);
                assert(h0[x as int] <==> (o0.contains(x) || occurs_from(cur, ci - 1, x) || n0.contains(x)));
            }
            assert forall|x: usize| !(#[trigger] oi.contains(x) && occurs_from(cur, ci as int, x)) by {
                lemma_push_contains_one(o0, v, x);
            }
            assert forall|x: usize| !(#[trigger] oi.contains(x) && next.contains(x)) by {
                lemma_push_contains_one(o0, v, x);
                if o0.contains(x) {
                    let k = choose|k: int| 0 <= k < o0.len() && o0[k] == x;
                    assert(x < n);
                    assert(h0[x as int]);
                }
                if x == v && n0.contains(x) {
                    assert(occurs_from(cur, ci - 1, x));
                }
            }
            assert forall|x: usize| !(#[trigger] next.contains(x) && occurs_from(cur, ci as int, x)) by {
                if occurs_from(cur, ci as int, x) {
                    assert(occurs_from(cur, ci - 1, x));
                    let j = choose|j: int| ci <= j < cur.len() && cur[j] == x;
                    assert(x < n);
                    assert(h0[x as int]);
                }
            }
            assert(within(adj, index, v, depth as nat));
            assert forall|j: int| 0 <= j < next.len() implies is_dist(
                adj,
                index,
                #[trigger] next[j],
                depth as nat + 1,
            ) by {
                let x = next[j];
                assert(next.contains(x));
                if n0.contains(x) {
                    let j0 = choose|j0: int| 0 <= j0 < n0.len() && n0[j0] == x;
                    assert(is_dist(adj, index, n0[j0], depth as nat + 1));
                } else {
                    lemma_within_step(adj, index, v, x, depth as nat);
                }
            }
            assert forall|x: usize, w: usize|
                #![trigger oi.contains(x), adj[x as int].contains(w)]
                oi.contains(x) && adj[x as int].contains(w) implies w < n && handled[w as int] by {
                lemma_push_contains_one(o0, v, x);
                if x == v {
                    let q = choose|q: int| 0 <= q < adj[v as int].len() && adj[v as int][q] == w;
                    assert(adj[v as int][q] < n);
                } else {
                    assert(o0.contains(x));
                    assert(w < n && h0[w as int]);
                }
            }
            assert forall|w: usize| within(adj, index, w, depth as nat) implies w < n
                && #[trigger] handled[w as int] by {
                assert(w < n && h0[w as int]);
            }
            assert forall|k: int| 0 <= k < oi.len() implies #[trigger] oi[k] < n by {
                if k < o0.len() {
                    assert(oi[k] == o0[k]);
                }
            }
            lemma_cover(oi, n as nat);
            if o0.len() > 0 {
                assert(oi[0] == o0[0]);
            }
        }
        (v, depth)
    }

    /// moves on to the next layer, one deeper
    fn advance<G: Searchable>(&mut self, g: &G)
        requires
            g.searchable(),
            old(self).bfs_inv(g.view_adj()),
            old(self).ci == old(self).cur@.len(),
            old(self).next@.len() > 0,
        ensures
            final(self).bfs_inv(g.view_adj()),
            final(self).start() == old(self).start(),
            final(self).emitted() == old(self).emitted(),
            final(self).ci < final(self).cur@.len(),
    {
        proof {
            g.lemma_searchable();
        }
        let ghost adj = g.view_adj();
        let ghost index = self.start@;
        let ghost n = adj.len();
        proof {
            let oi = self.oi@;
            let cur = self.cur@;
            let ci = self.ci;
            let next = self.next@;
            let handled = self.handled@;
            let depth = self.depth;
            assert(next.contains(next[0]));
            assert(index < n);
            lemma_cover(oi, n as nat);
            assert forall|x: usize| occurs_from(next, 0, x) <==> #[trigger] next.contains(x) by {
                if next.contains(x) {
                    let j = choose|j: int| 0 <= j < next.len() && next[j] == x;
                    assert(0 <= j < next.len() && next[j] == x);
                }
            }
            assert forall|x: usize| !occurs_from(cur, ci as int, x) by {}
            assert forall|w: usize| within(adj, index, w, depth as nat + 1) implies w < n
                && #[trigger] handled[w as int] by {
                if !within(adj, index, w, depth as nat) {
                    let u = lemma_within_pred(adj, index, w, depth as nat);
                    assert(handled[u as int]);
                    if next.contains(u) {
                        let j = choose|j: int| 0 <= j < next.len() && next[j] == u;
                        assert(is_dist(adj, index, next[j], depth as nat + 1));
                    }
                    assert(oi.contains(u));
                    let q = choose|q: int| 0 <= q < adj[u as int].len() && adj[u as int][q] == w;
                    assert(adj[u as int][q] < n);
                }
            }
        }
        std::mem::swap(&mut self.cur, &mut self.next);
        self.next = Vec::new();
        self.ci = 0;
        self.depth = self.depth + 1;
    }

    /// hands out the next pair `(vertex, depth)` in breadth first search order; `None`
    /// once every vertex that the start reaches was handed out
    pub fn step<G: Searchable>(&mut self, g: &G) -> (r: Option<(usize, usize)>)
        requires
            g.searchable(),
            old(self).bfs_inv(g.view_adj()),
        ensures
            final(self).bfs_inv(g.view_adj()),
            final(self).start() == old(self).start(),
            r is None ==> final(self).emitted() == old(self).emitted() && bfs_result(
                g.view_adj(),
                old(self).start(),
                old(self).emitted(),
            ),
            r matches Some(p) ==> final(self).emitted() == old(self).emitted().push(p),
    {
        if self.ci < self.cur.len() {
            Some(self.emit(g))
        } else if self.next.len() > 0 {
            self.advance(g);
            Some(self.emit(g))
        } else {
            proof {
                g.lemma_searchable();
                let adj = g.view_adj();
                let n = adj.len();
                let index = self.start@;
                let oi = self.oi@;
                let order = self.order@;
                let cur = self.cur@;
                let ci = self.ci;
                let handled = self.handled@;
                let st = oi.to_set();
                assert(order.map_values(|p: (usize, usize)| p.0) =~= oi);
                assert forall|x: usize| !occurs_from(cur, ci as int, x) by {}
                if index < n {
                    assert(oi.len() > 0);
                }
                assert forall|v: usize| #[trigger] oi.contains(v) <==> (index < n && reachable(adj, index, v)) by {
                    if oi.contains(v) {
                        let k = choose|k: int| 0 <= k < oi.len() && oi[k] == v;
                        assert(is_dist(adj, index, order[k].0, order[k].1 as nat));
                        lemma_within_reachable(adj, index, v, order[k].1 as nat);
                        lemma_reachable_bounds(adj, index, v);
                    }
                    if index < n && reachable(adj, index, v) {
                        assert(st.contains(index)) by {
                            assert(oi[0] == index);
                        }
                        assert forall|x: usize, w: usize|
                            st.contains(x) && x < adj.len() && #[trigger] adj[x as int].contains(w) implies st.contains(
                            w,
                        ) by {
                            assert(oi.contains(x));
                            assert(handled[w as int]);
                        }
                        lemma_closed_set_reach(adj, st, index, v);
                    }
                }
            }
            None
        }
    }
}

/// # Breadth first search
/// pairs `(index, depth)` in breadth first search order, beginning with vertex `index`
/// * `depth` is the number of edges on a shortest path from `index` to the vertex
/// * Will only contain vertices within the connected component that contains vertex `index`
/// * empty if index out of bounds
pub fn bfs_indices<G: Searchable>(g: &G, index: usize) -> (r: Vec<(usize, usize)>)
    requires
        g.searchable(),
    ensures
        bfs_result(g.view_adj(), index, r@),
{
    let ghost adj = g.view_adj();
    let mut state = BfsState::new(g, index);
    let mut order: Vec<(usize, usize)> = Vec::new();
    loop
        invariant
            g.searchable(),
            adj == g.view_adj(),
            state.bfs_inv(adj),
            state.start() == index,
            order@ == state.emitted(),
            order@.len() <= adj.len(),
        ensures
            bfs_result(adj, index, order@),
        decreases adj.len() - order@.len(),
    {
        match state.step(g) {
            Some(p) => {
                order.push(p);
                proof {
                    state.lemma_emitted(adj);
                }
            },
            None => {
                break ;
            },
        }
    }
    order
}

/// `d` is the greatest distance from `s` to a vertex that `s` reaches
pub open spec fn is_eccentricity(adj: Seq<Seq<usize>>, s: usize, d: nat) -> bool {
    &&& exists|t: usize| is_dist(adj, s, t, d)
    &&& forall|t: usize| reachable(adj, s, t) ==> within(adj, s, t, d)
}

/// `d` is the greatest distance between two vertices, each pair within `d` edges
pub open spec fn is_diameter(adj: Seq<Seq<usize>>, d: nat) -> bool {
    &&& exists|s: usize, t: usize| is_dist(adj, s, t, d)
    &&& forall|s: usize, t: usize| s < adj.len() && t < adj.len() ==> within(adj, s, t, d)
}

/// the size of the longest shortest path starting from vertex `index`,
/// `None` if `index` is no vertex
pub fn eccentricity<G: Searchable>(g: &G, index: usize) -> (r: Option<usize>)
    requires
        g.searchable(),
    ensures
        r.is_none() <==> index >= g.view_adj().len(),
        r matches Some(d) ==> is_eccentricity(g.view_adj(), index, d as nat),
{
    let ghost adj = g.view_adj();
    let order = bfs_indices(g, index);
    let m = order.len();
    if m == 0 {
        proof {
            if index < adj.len() {
                assert(order@.map_values(|p: (usize, usize)| p.0).len() > 0);
            }
        }
        None
    } else {
        let d = order[m - 1].1;
        proof {
            let s = order@.map_values(|p: (usize, usize)| p.0);
            if index >= adj.len() {
                assert(s.len() == 0);
            }
            assert(is_dist(adj, index, order@[m - 1].0, d as nat));
            assert forall|t: usize| reachable(adj, index, t) implies within(adj, index, t, d as nat) by {
                lemma_reachable_bounds(adj, index, t);
                assert(s.contains(t));
                let k = choose|k: int| 0 <= k < s.len() && s[k] == t;
                assert(is_dist(adj, index, order@[k].0, order@[k].1 as nat));
                assert(order@[k].1 <= order@[m - 1].1);
                lemma_within_mono(adj, index, t, order@[k].1 as nat, d as nat);
            }
        }
        Some(d)
    }
}

/// The greatest eccentricity of the vertices other than `skip`, which is the diameter of a
/// connected graph: a pair that involves `skip` is measured from its other end.
pub(crate) fn max_eccentricity_except<G: Searchable>(g: &G, skip: usize) -> (r: usize)
    requires
        g.searchable(),
        g.view_adj().len() > 0,
        forall|s: usize, t: usize|
            s < g.view_adj().len() && t < g.view_adj().len() ==> #[trigger] reachable(g.view_adj(), s, t),
    ensures
        is_diameter(g.view_adj(), r as nat),
{
    proof {
        g.lemma_searchable();
    }
    let ghost adj = g.view_adj();
    let n = g.node_count();
    let mut max: usize = 0;
    let ghost mut ws: usize = 0;
    let ghost mut wt: usize = 0;
    proof {
        lemma_within_zero(adj, 0, 0);
    }
    let mut i: usize = 0;
    while i < n
        invariant
            g.searchable(),
            adj == g.view_adj(),
            adj_wf(adj),
            n == adj.len(),
            n > 0,
            i <= n,
            forall|s: usize, t: usize| s < n && t < n ==> #[trigger] reachable(adj, s, t),
            is_dist(adj, ws, wt, max as nat),
            forall|s: usize, t: usize|
                s < i && s != skip && t < n ==> #[trigger] within(adj, s, t, max as nat),
        decreases n - i,
    {
        if i != skip {
            let e = eccentricity(g, i);
            let d = e.unwrap();
            proof {
                assert(is_eccentricity(adj, i, d as nat));
            }
            if d > max {
                proof {
                    let t = choose|t: usize| is_dist(adj, i, t, d as nat);
                    ws = i;
                    wt = t;
                    assert forall|s: usize, t: usize| s < i + 1 && s != skip && t < n implies #[trigger] within(
                        adj,
                        s,
                        t,
                        d as nat,
                    ) by {
                        if s < i {
                            lemma_within_mono(adj, s, t, max as nat, d as nat);
                        } else {
                            assert(reachable(adj, i, t));
                        }
                    }
                }
                max = d;
            } else {
                proof {
                    assert forall|s: usize, t: usize| s < i + 1 && s != skip && t < n implies #[trigger] within(
                        adj,
                        s,
                        t,
                        max as nat,
                    ) by {
                        if s == i {
                            assert(reachable(adj, i, t));
                            lemma_within_mono(adj, s, t, d as nat, max as nat);
                        }
                    }
                }
            }
        }
        i = i + 1;
    }
    proof {
        assert forall|s: usize, t: usize| s < adj.len() && t < adj.len() implies within(
            adj,
            s,
            t,
            max as nat,
        ) by {
            if s == skip {
                if t == skip {
                    lemma_within_zero(adj, s, t);
                    lemma_within_mono(adj, s, t, 0, max as nat);
                } else {
                    assert(within(adj, t, s, max as nat));
                    lemma_within_sym(adj, t, s, max as nat);
                }
            } else {
                assert(within(adj, s, t, max as nat));
            }
        }
    }
    max
}

impl<T, A: AdjContainer<T>> GenericGraph<T, A> {
    /// # Breadth first search
    /// * triples `(index, what the vertex holds, depth)` in breadth first search order,
    /// beginning with vertex `index`
    /// * `depth` starts at 0 and equals number of edges in the *shortest path* from the
    /// vertex to the *first* vertex (i.e. to the vertex with index `index`)
    /// * Will only contain vertices within the connected component that contains vertex `index`
    /// * empty if index out of bounds
    pub fn bfs_index_depth(&self, index: usize) -> (r: Vec<(usize, &T, usize)>)
        requires
            self.wf(),
        ensures
            bfs_result(self.spec_adj(), index, r@.map_values(|p: (usize, &T, usize)| (p.0, p.2))),
            forall|k: int| 0 <= k < r@.len() ==> *r@[k].1 == self.spec_contained()[r@[k].0 as int],
    {
        let order = bfs_indices(self, index);
        let m = order.len();
        let mut r: Vec<(usize, &T, usize)> = Vec::with_capacity(m);
        let mut k: usize = 0;
        while k < m
            invariant
                self.wf(),
                bfs_result(self.spec_adj(), index, order@),
                m == order@.len(),
                k <= m,
                r@.len() == k,
                forall|q: int| 0 <= q < k ==> r@[q].0 == order@[q].0 && r@[q].2 == order@[q].1,
                forall|q: int| 0 <= q < k ==> *r@[q].1 == self.spec_contained()[r@[q].0 as int],
            decreases m - k,
        {
            let (v, d) = order[k];
            proof {
                assert(is_dist(self.spec_adj(), index, order@[k as int].0, order@[k as int].1 as nat));
                lemma_within_reachable(self.spec_adj(), index, v, d as nat);
                lemma_reachable_bounds(self.spec_adj(), index, v);
            }
            r.push((v, self.at(v), d));
            k = k + 1;
        }
        assert(r@.map_values(|p: (usize, &T, usize)| (p.0, p.2)) =~= order@);
        r
    }

    /// calculate the size of the longest shortest path **starting from** vertex with
    /// **index** `index` using breadth first search; `None` if `index` is out of bounds
    pub fn longest_shortest_path_from_index(&self, index: usize) -> (r: Option<usize>)
        requires
            self.wf(),
        ensures
            r.is_none() <==> index >= self.spec_vertex_count(),
            r matches Some(d) ==> is_eccentricity(self.spec_adj(), index, d as nat),
    {
        eccentricity(self, index)
    }

    /// * returns `None` **if** graph not connected **or** does not contain any vertices
    /// * otherwise the greatest number of edges on a shortest path between two vertices
    /// * uses repeated breadth first search
    pub fn diameter(&self) -> (r: Option<usize>)
        requires
            self.wf(),
        ensures
            r.is_some() <==> (self.spec_vertex_count() > 0 && forall|v: usize|
                v < self.spec_vertex_count() ==> reachable(self.spec_adj(), 0, v)),
            r matches Some(d) ==> is_diameter(self.spec_adj(), d as nat),
    {
        match self.is_connected() {
            None => None,
            Some(false) => None,
            Some(true) => {
                proof {
                    let adj = self.spec_adj();
                    assert forall|s: usize, t: usize|
                        s < adj.len() && t < adj.len() implies #[trigger] reachable(adj, s, t) by {
                        assert(reachable(adj, 0, s));
                        assert(reachable(adj, 0, t));
                        lemma_reachable_sym(adj, 0, s);
                        lemma_reachable_trans(adj, s, 0, t);
                    }
                }
                Some(max_eccentricity_except(self, 0))
            },
        }
    }
}

} // verus!
