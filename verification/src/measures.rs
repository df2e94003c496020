//! Counts that measures of a graph are made of: paths of length two, closed ones among
//! them (for the transitivity), and sums of distances (for the closeness centrality).
use vstd::prelude::*;
use crate::traits::AdjContainer;
use crate::generic_graph::GenericGraph;
use crate::graph_spec::{adj_wf, reachable, lemma_reachable_bounds};
use crate::bfs::{bfs_indices, bfs_result, is_dist, lemma_dist_unique, lemma_within_reachable};
use crate::seq_util::lemma_cover;

verus! {

/// among the first `k` neighbors `b` of `a`, those other than `s` (the paths `s, a, b`)
pub open spec fn open_at(adj: Seq<Seq<usize>>, s: usize, a: usize, k: int) -> nat
    decreases k,
{
    if k <= 0 {
        0
    } else {
        open_at(adj, s, a, k - 1) + if adj[a as int][k - 1] != s {
            1nat
        } else {
            0
        }
    }
}

/// among the first `k` neighbors `b` of `a`, those other than `s` that are neighbors of
/// `s` (the paths `s, a, b` that close to a triangle)
pub open spec fn closed_at(adj: Seq<Seq<usize>>, s: usize, a: usize, k: int) -> nat
    decreases k,
{
    if k <= 0 {
        0
    } else {
        closed_at(adj, s, a, k - 1) + if adj[a as int][k - 1] != s && adj[adj[a as int][k - 1] as int].contains(
            s,
        ) {
            1nat
        } else {
            0
        }
    }
}

/// the paths of length two that start at `s` and pass one of its first `j` neighbors
pub open spec fn open_from(adj: Seq<Seq<usize>>, s: usize, j: int) -> nat
    decreases j,
{
    if j <= 0 {
        0
    } else {
        let a = adj[s as int][j - 1];
        open_from(adj, s, j - 1) + open_at(adj, s, a, adj[a as int].len() as int)
    }
}

/// the closed paths of length two that start at `s` and pass one of its first `j` neighbors
pub open spec fn closed_from(adj: Seq<Seq<usize>>, s: usize, j: int) -> nat
    decreases j,
{
    if j <= 0 {
        0
    } else {
        let a = adj[s as int][j - 1];
        closed_from(adj, s, j - 1) + closed_at(adj, s, a, adj[a as int].len() as int)
    }
}

/// the paths of length two that start at one of the first `u` vertices
pub open spec fn open_upto(adj: Seq<Seq<usize>>, u: int) -> nat
    decreases u,
{
    if u <= 0 {
        0
    } else {
        open_upto(adj, u - 1) + open_from(adj, (u - 1) as usize, adj[u - 1].len() as int)
    }
}

/// the closed paths of length two that start at one of the first `u` vertices
pub open spec fn closed_upto(adj: Seq<Seq<usize>>, u: int) -> nat
    decreases u,
{
    if u <= 0 {
        0
    } else {
        closed_upto(adj, u - 1) + closed_from(adj, (u - 1) as usize, adj[u - 1].len() as int)
    }
}

/// counting the paths from more vertices counts no fewer
proof fn lemma_open_upto_mono(adj: Seq<Seq<usize>>, u: int, w: int)
    requires
        0 <= u <= w,
    ensures
        open_upto(adj, u) <= open_upto(adj, w),
    decreases w - u,
{
    if u < w {
        lemma_open_upto_mono(adj, u, w - 1);
    }
}

/// a closed path is an open path that closes
proof fn lemma_closed_at_le(adj: Seq<Seq<usize>>, s: usize, a: usize, k: int)
    ensures
        closed_at(adj, s, a, k) <= open_at(adj, s, a, k),
        k >= 0 ==> open_at(adj, s, a, k) <= k,
    decreases k,
{
    if k > 0 {
        lemma_closed_at_le(adj, s, a, k - 1);
    }
}

proof fn lemma_closed_from_le(adj: Seq<Seq<usize>>, s: usize, j: int, n: nat)
    requires
        forall|v: int| 0 <= v < adj.len() ==> #[trigger] adj[v].len() <= n,
        forall|q: int| 0 <= q < adj[s as int].len() ==> #[trigger] adj[s as int][q] < adj.len(),
        j <= adj[s as int].len(),
    ensures
        closed_from(adj, s, j) <= open_from(adj, s, j),
        j >= 0 ==> open_from(adj, s, j) <= j * n,
    decreases j,
{
    if j > 0 {
        lemma_closed_from_le(adj, s, j - 1, n);
        let a = adj[s as int][j - 1];
        lemma_closed_at_le(adj, s, a, adj[a as int].len() as int);
        assert(adj[a as int].len() <= n);
        assert((j - 1) * n + n == j * n) by (nonlinear_arith);
    }
}

proof fn lemma_closed_upto_le(adj: Seq<Seq<usize>>, u: int, n: nat)
    requires
        adj_wf(adj),
        adj.len() == n,
        n <= usize::MAX,
        forall|v: int| 0 <= v < adj.len() ==> #[trigger] adj[v].len() <= n,
        u <= n,
    ensures
        closed_upto(adj, u) <= open_upto(adj, u),
        u >= 0 ==> open_upto(adj, u) <= u * (n * n),
    decreases u,
{
    if u > 0 {
        lemma_closed_upto_le(adj, u - 1, n);
        let s = (u - 1) as usize;
        lemma_closed_from_le(adj, s, adj[u - 1].len() as int, n);
        assert(adj[u - 1].len() * n <= n * n) by (nonlinear_arith)
            requires
                adj[u - 1].len() <= n,
        ;
        assert((u - 1) * (n * n) + n * n == u * (n * n)) by (nonlinear_arith);
    }
}

/// the path `s, a, b` with `b` the `q`-th neighbor of `a` either ends back at `s` or ends
/// at a neighbor of `s`
pub open spec fn path_closes(adj: Seq<Seq<usize>>, s: usize, a: usize, q: int) -> bool {
    adj[a as int][q] != s ==> adj[adj[a as int][q] as int].contains(s)
}

/// the neighbors `b` of `a` other than `s` that are neighbors of `s`
pub open spec fn closing_neighbors(adj: Seq<Seq<usize>>, s: usize, a: usize) -> Seq<usize> {
    adj[a as int].filter(closes_to(adj, s))
}

/// whether `b` is a neighbor of `s` other than `s`
pub open spec fn closes_to(adj: Seq<Seq<usize>>, s: usize) -> spec_fn(usize) -> bool {
    |b: usize| b != s && adj[b as int].contains(s)
}

/// whether `b` is a vertex other than `s`
pub open spec fn other_than(s: usize) -> spec_fn(usize) -> bool {
    |b: usize| b != s
}

/// the neighbors `b` of `a` other than `s`
pub open spec fn other_neighbors(adj: Seq<Seq<usize>>, s: usize, a: usize) -> Seq<usize> {
    adj[a as int].filter(other_than(s))
}

proof fn lemma_at_counts_filter(adj: Seq<Seq<usize>>, s: usize, a: usize, k: int)
    requires
        0 <= k <= adj[a as int].len(),
    ensures
        closed_at(adj, s, a, k) == adj[a as int].take(k).filter(closes_to(adj, s)).len(),
        open_at(adj, s, a, k) == adj[a as int].take(k).filter(other_than(s)).len(),
    decreases k,
{
    reveal(Seq::filter);
    let t = adj[a as int].take(k);
    if k == 0 {
        assert(t.len() == 0);
    } else {
        lemma_at_counts_filter(adj, s, a, k - 1);
        assert(t.drop_last() =~= adj[a as int].take(k - 1));
        assert(t.last() == adj[a as int][k - 1]);
    }
}

/// Of the paths `s, a, b` through the middle vertex `a`, the closed ones counted are
/// exactly those that end at a neighbor `b` of `s` other than `s`, and all paths counted
/// are those that end at a vertex `b` other than `s`, whatever the degrees.
pub proof fn lemma_path_counts_at_middle(adj: Seq<Seq<usize>>, s: usize, a: usize)
    ensures
        closed_at(adj, s, a, adj[a as int].len() as int) == closing_neighbors(adj, s, a).len(),
        open_at(adj, s, a, adj[a as int].len() as int) == other_neighbors(adj, s, a).len(),
{
    lemma_at_counts_filter(adj, s, a, adj[a as int].len() as int);
    assert(adj[a as int].take(adj[a as int].len() as int) =~= adj[a as int]);
}

proof fn lemma_at_all_close(adj: Seq<Seq<usize>>, s: usize, a: usize, k: int)
    requires
        0 <= k,
    ensures
        closed_at(adj, s, a, k) <= open_at(adj, s, a, k),
        closed_at(adj, s, a, k) == open_at(adj, s, a, k) <==> (forall|q: int|
            0 <= q < k ==> #[trigger] path_closes(adj, s, a, q)),
    decreases k,
{
    if k > 0 {
        lemma_at_all_close(adj, s, a, k - 1);
        if closed_at(adj, s, a, k) == open_at(adj, s, a, k) {
            assert forall|q: int| 0 <= q < k implies #[trigger] path_closes(adj, s, a, q) by {
                if q < k - 1 {
                    assert(path_closes(adj, s, a, q));
                }
            }
        }
        if forall|q: int| 0 <= q < k ==> #[trigger] path_closes(adj, s, a, q) {
            assert(path_closes(adj, s, a, k - 1));
            assert forall|q: int| 0 <= q < k - 1 implies #[trigger] path_closes(adj, s, a, q) by {
                assert(path_closes(adj, s, a, q));
            }
        }
    }
}

/// every path of length two from `s` through one of its first `j` neighbors closes
pub open spec fn all_close_from(adj: Seq<Seq<usize>>, s: usize, j: int) -> bool {
    forall|i: int, q: int|
        0 <= i < j && 0 <= q < adj[adj[s as int][i] as int].len() ==> #[trigger] path_closes(
            adj,
            s,
            adj[s as int][i],
            q,
        )
}

proof fn lemma_from_all_close(adj: Seq<Seq<usize>>, s: usize, j: int)
    requires
        0 <= j,
    ensures
        closed_from(adj, s, j) <= open_from(adj, s, j),
        closed_from(adj, s, j) == open_from(adj, s, j) <==> all_close_from(adj, s, j),
    decreases j,
{
    if j > 0 {
        lemma_from_all_close(adj, s, j - 1);
        let a = adj[s as int][j - 1];
        let d = adj[a as int].len() as int;
        lemma_at_all_close(adj, s, a, d);
        if closed_from(adj, s, j) == open_from(adj, s, j) {
            assert forall|i: int, q: int|
                0 <= i < j && 0 <= q < adj[adj[s as int][i] as int].len() implies #[trigger] path_closes(
                adj,
                s,
                adj[s as int][i],
                q,
            ) by {
                if i < j - 1 {
                    assert(all_close_from(adj, s, j - 1));
                } else {
                    assert(path_closes(adj, s, a, q));
                }
            }
        }
        if all_close_from(adj, s, j) {
            assert forall|q: int| 0 <= q < d implies #[trigger] path_closes(adj, s, a, q) by {
                assert(path_closes(adj, s, adj[s as int][j - 1], q));
            }
            assert forall|i: int, q: int|
                0 <= i < j - 1 && 0 <= q < adj[adj[s as int][i] as int].len() implies #[trigger] path_closes(
                adj,
                s,
                adj[s as int][i],
                q,
            ) by {
                assert(path_closes(adj, s, adj[s as int][i], q));
            }
        }
    }
}

/// every path of length two that starts at one of the first `u` vertices closes
pub open spec fn all_close_upto(adj: Seq<Seq<usize>>, u: int) -> bool {
    forall|v: int| 0 <= v < u ==> #[trigger] all_close_from(adj, v as usize, adj[v].len() as int)
}

proof fn lemma_upto_all_close(adj: Seq<Seq<usize>>, u: int)
    requires
        0 <= u,
    ensures
        closed_upto(adj, u) <= open_upto(adj, u),
        closed_upto(adj, u) == open_upto(adj, u) <==> all_close_upto(adj, u),
    decreases u,
{
    if u > 0 {
        lemma_upto_all_close(adj, u - 1);
        lemma_from_all_close(adj, (u - 1) as usize, adj[u - 1].len() as int);
        if all_close_upto(adj, u) {
            assert(all_close_from(adj, (u - 1) as usize, adj[u - 1].len() as int));
        }
    }
}

/// The closed count equals the count of all paths of length two (transitivity one)
/// exactly when every path `s, a, b` along two edges with `b != s` closes, that is when
/// `b` is a neighbor of `s`; in any graph the closed count is at most the full count.
pub proof fn lemma_transitivity_one(adj: Seq<Seq<usize>>)
    requires
        adj.len() <= usize::MAX,
    ensures
        closed_upto(adj, adj.len() as int) <= open_upto(adj, adj.len() as int),
        closed_upto(adj, adj.len() as int) == open_upto(adj, adj.len() as int) <==> (forall|
            s: int,
            i: int,
            q: int,
        |
            0 <= s < adj.len() && 0 <= i < adj[s].len() && 0 <= q < adj[adj[s][i] as int].len()
                ==> #[trigger] path_closes(adj, s as usize, adj[s][i], q)),
{
    let n = adj.len() as int;
    lemma_upto_all_close(adj, n);
    if all_close_upto(adj, n) {
        assert forall|s: int, i: int, q: int|
            0 <= s < adj.len() && 0 <= i < adj[s].len() && 0 <= q < adj[adj[s][i] as int].len()
                implies #[trigger] path_closes(adj, s as usize, adj[s][i], q) by {
            assert(all_close_from(adj, s as usize, adj[s].len() as int));
            assert((s as usize) as int == s);
        }
    }
    if forall|s: int, i: int, q: int|
        0 <= s < adj.len() && 0 <= i < adj[s].len() && 0 <= q < adj[adj[s][i] as int].len()
            ==> #[trigger] path_closes(adj, s as usize, adj[s][i], q) {
        assert forall|v: int| 0 <= v < n implies #[trigger] all_close_from(
            adj,
            v as usize,
            adj[v].len() as int,
        ) by {
            assert((v as usize) as int == v);
            assert forall|i: int, q: int|
                0 <= i < adj[v].len() && 0 <= q < adj[adj[(v as usize) as int][i] as int].len()
                    implies #[trigger] path_closes(adj, v as usize, adj[(v as usize) as int][i], q) by {
                assert(path_closes(adj, v as usize, adj[v][i], q));
            }
        }
    }
}

/// the distance from `i` to `v` if `i` reaches `v`, else zero
pub open spec fn dist_or_zero(adj: Seq<Seq<usize>>, i: usize, v: usize) -> nat {
    if reachable(adj, i, v) {
        choose|d: nat| #[trigger] is_dist(adj, i, v, d)
    } else {
        0
    }
}

/// the distances to `v` from the first `u` vertices that reach it
pub open spec fn dist_sum(adj: Seq<Seq<usize>>, v: usize, u: int) -> nat
    decreases u,
{
    if u <= 0 {
        0
    } else {
        dist_sum(adj, v, u - 1) + dist_or_zero(adj, (u - 1) as usize, v)
    }
}

impl<T, A: AdjContainer<T>> GenericGraph<T, A> {
    /// # Counts paths of length two
    /// * `(closed, all)`: `all` counts the paths `source, a, b` along two edges with
    /// `b != source`, `closed` those of them where `b` is a neighbor of `source`
    /// * the transitivity is `closed / all`
    pub fn transitivity_counts(&self) -> (r: (usize, usize))
        requires
            self.wf(),
            open_upto(self.spec_adj(), self.spec_vertex_count() as int) <= usize::MAX,
        ensures
            r.0 == closed_upto(self.spec_adj(), self.spec_vertex_count() as int),
            r.1 == open_upto(self.spec_adj(), self.spec_vertex_count() as int),
    {
        let ghost adj = self.spec_adj();
        let n = self.vertex_count();
        proof {
            assert forall|v: int| 0 <= v < adj.len() implies #[trigger] adj[v].len() <= n by {
                lemma_cover(adj[v], n as nat);
            }
        }
        let mut path_count: usize = 0;
        let mut closed_path_count: usize = 0;
        let mut s: usize = 0;
        while s < n
            invariant
                self.wf(),
                adj == self.spec_adj(),
                n == adj.len(),
                open_upto(adj, n as int) <= usize::MAX,
                forall|v: int| 0 <= v < adj.len() ==> #[trigger] adj[v].len() <= n,
                s <= n,
                path_count == open_upto(adj, s as int),
                closed_path_count == closed_upto(adj, s as int),
            decreases n - s,
        {
            let ds = self.container(s).degree();
            proof {
                lemma_closed_upto_le(adj, s as int + 1, n as nat);
                lemma_open_upto_mono(adj, s as int + 1, n as int);
                lemma_closed_from_le(adj, s, ds as int, n as nat);
            }
            let mut j: usize = 0;
            while j < ds
                invariant
                    self.wf(),
                    adj == self.spec_adj(),
                    adj_wf(adj),
                    n == adj.len(),
                    s < n,
                    ds == adj[s as int].len(),
                    j <= ds,
                    forall|v: int| 0 <= v < adj.len() ==> #[trigger] adj[v].len() <= n,
                    open_upto(adj, s as int) + open_from(adj, s, ds as int) <= usize::MAX,
                    closed_upto(adj, s as int) + closed_from(adj, s, ds as int) <= open_upto(adj, s as int)
                        + open_from(adj, s, ds as int),
                    path_count == open_upto(adj, s as int) + open_from(adj, s, j as int),
                    closed_path_count == closed_upto(adj, s as int) + closed_from(adj, s, j as int),
                decreases ds - j,
            {
                let a = self.container(s).neighbor_at(j);
                proof {
                    assert(adj[s as int][j as int] == a);
                    assert(a < n);
                    lemma_open_from_mono(adj, s, j as int + 1, ds as int);
                    lemma_closed_from_mono(adj, s, j as int + 1, ds as int);
                }
                let da = self.container(a).degree();
                let mut k: usize = 0;
                while k < da
                    invariant
                        self.wf(),
                        adj == self.spec_adj(),
                        adj_wf(adj),
                        n == adj.len(),
                        s < n,
                        a < n,
                        da == adj[a as int].len(),
                        k <= da,
                        open_upto(adj, s as int) + open_from(adj, s, j as int) + open_at(adj, s, a, da as int) <= usize::MAX,
                        closed_upto(adj, s as int) + closed_from(adj, s, j as int) + closed_at(adj, s, a, da as int)
                            <= usize::MAX,
                        path_count == open_upto(adj, s as int) + open_from(adj, s, j as int) + open_at(adj, s, a, k as int),
                        closed_path_count == closed_upto(adj, s as int) + closed_from(adj, s, j as int) + closed_at(
                            adj,
                            s,
                            a,
                            k as int,
                        ),
                    decreases da - k,
                {
                    let b = self.container(a).neighbor_at(k);
                    proof {
                        assert(adj[a as int][k as int] == b);
                        assert(b < n);
                        lemma_at_mono(adj, s, a, k as int + 1, da as int);
                    }
                    if b != s {
                        if self.container(b).is_adjacent(s) {
                            closed_path_count = closed_path_count + 1;
                        }
                        path_count = path_count + 1;
                    }
                    k = k + 1;
                }
                j = j + 1;
            }
            s = s + 1;
        }
        (closed_path_count, path_count)
    }

    /// # Sums of distances
    /// * entry `v` is the sum of the distances to `v` from all vertices that reach it
    /// * the closeness centrality of `v` is `(vertex_count - 1) / entry`
    pub fn distance_sums(&self) -> (r: Vec<usize>)
        requires
            self.wf(),
            self.spec_vertex_count() * self.spec_vertex_count() <= usize::MAX,
        ensures
            r@.len() == self.spec_vertex_count(),
            forall|v: int|
                0 <= v < self.spec_vertex_count() ==> #[trigger] r@[v] == dist_sum(
                    self.spec_adj(),
                    v as usize,
                    self.spec_vertex_count() as int,
                ),
    {
        let ghost adj = self.spec_adj();
        let n = self.vertex_count();
        proof {
            self.lemma_len_bound();
        }
        let mut count: Vec<usize> = vec![0; n];
        let mut i: usize = 0;
        while i < n
            invariant
                self.wf(),
                adj == self.spec_adj(),
                adj_wf(adj),
                n == adj.len(),
                n * n <= usize::MAX,
                i <= n,
                count@.len() == n,
                forall|v: int| 0 <= v < n ==> #[trigger] count@[v] == dist_sum(adj, v as usize, i as int),
                forall|v: int| 0 <= v < n ==> #[trigger] count@[v] <= i * n,
            decreases n - i,
        {
            let order = bfs_indices(self, i);
            let ghost c0 = count@;
            let ghost oi = order@.map_values(|p: (usize, usize)| p.0);
            let m = order.len();
            let mut k: usize = 0;
            while k < m
                invariant
                    adj == self.spec_adj(),
                    adj_wf(adj),
                    n == adj.len(),
                    n * n <= usize::MAX,
                    i < n,
                    m == order@.len(),
                    k <= m,
                    count@.len() == n,
                    bfs_result(adj, i, order@),
                    oi == order@.map_values(|p: (usize, usize)| p.0),
                    forall|v: int| 0 <= v < n ==> #[trigger] c0[v] <= i * n,
                    forall|v: int|
                        0 <= v < n ==> #[trigger] count@[v] == c0[v] + if oi.take(k as int).contains(v as usize) {
                            dist_or_zero(adj, i, v as usize)
                        } else {
                            0
                        },
                decreases m - k,
            {
                let (v, d) = order[k];
                proof {
                    assert(oi[k as int] == v);
                    assert(oi.contains(v));
                    assert(is_dist(adj, i, order@[k as int].0, order@[k as int].1 as nat));
                    lemma_within_reachable(adj, i, v, d as nat);
                    lemma_reachable_bounds(adj, i, v);
                    let dd = choose|dd: nat| #[trigger] is_dist(adj, i, v, dd);
                    lemma_dist_unique(adj, i, v, d as nat, dd);
                    assert(dist_or_zero(adj, i, v) == d);
                    assert(!oi.take(k as int).contains(v)) by {
                        if oi.take(k as int).contains(v) {
                            let q = choose|q: int| 0 <= q < k && oi.take(k as int)[q] == v;
                            assert(oi[q] == oi[k as int]);
                        }
                    }
                    lemma_cover(adj[v as int], n as nat);
                    assert(d < n) by {
                        lemma_dist_le_n(adj, i, v, d as nat);
                    }
                    assert(c0[v as int] + d <= i * n + n);
                    assert(i * n + n <= n * n) by (nonlinear_arith)
                        requires
                            i < n,
                    ;
                }
                let c = count[v];
                count.set(v, c + d);
                proof {
                    assert(oi.take(k as int + 1) == oi.take(k as int).push(v));
                    assert forall|w: int| 0 <= w < n implies #[trigger] count@[w] == c0[w] + if oi.take(
                        k as int + 1,
                    ).contains(w as usize) {
                        dist_or_zero(adj, i, w as usize)
                    } else {
                        0
                    } by {
                        crate::graph_spec::lemma_push_contains_one(oi.take(k as int), v, w as usize);
                    }
                }
                k = k + 1;
            }
            proof {
                assert(oi.take(m as int) == oi);
                assert forall|v: int| 0 <= v < n implies #[trigger] count@[v] == dist_sum(adj, v as usize, i + 1) by {
                    if reachable(adj, i, v as usize) {
                        assert(oi.contains(v as usize));
                    }
                }
                assert forall|v: int| 0 <= v < n implies #[trigger] count@[v] <= (i + 1) * n by {
                    if oi.contains(v as usize) {
                        let q = choose|q: int| 0 <= q < oi.len() && oi[q] == v as usize;
                        assert(is_dist(adj, i, order@[q].0, order@[q].1 as nat));
                        let dd = choose|dd: nat| #[trigger] is_dist(adj, i, v as usize, dd);
                        lemma_dist_unique(adj, i, v as usize, order@[q].1 as nat, dd);
                        lemma_dist_le_n(adj, i, v as usize, dd);
                    }
                    assert((i + 1) * n == i * n + n) by (nonlinear_arith);
                }
            }
            i = i + 1;
        }
        count
    }
}

/// the counts over fewer neighbors are no larger
proof fn lemma_at_mono(adj: Seq<Seq<usize>>, s: usize, a: usize, k: int, l: int)
    requires
        0 <= k <= l,
    ensures
        open_at(adj, s, a, k) <= open_at(adj, s, a, l),
        closed_at(adj, s, a, k) <= closed_at(adj, s, a, l),
    decreases l - k,
{
    if k < l {
        lemma_at_mono(adj, s, a, k, l - 1);
    }
}

proof fn lemma_open_from_mono(adj: Seq<Seq<usize>>, s: usize, j: int, l: int)
    requires
        0 <= j <= l,
    ensures
        open_from(adj, s, j) <= open_from(adj, s, l),
    decreases l - j,
{
    if j < l {
        lemma_open_from_mono(adj, s, j, l - 1);
    }
}

proof fn lemma_closed_from_mono(adj: Seq<Seq<usize>>, s: usize, j: int, l: int)
    requires
        0 <= j <= l,
    ensures
        closed_from(adj, s, j) <= closed_from(adj, s, l),
    decreases l - j,
{
    if j < l {
        lemma_closed_from_mono(adj, s, j, l - 1);
    }
}

/// cutting out the part of a walk between two visits of one vertex leaves a walk
proof fn lemma_shortcut(adj: Seq<Seq<usize>>, p: Seq<usize>, a: int, b: int) -> (q: Seq<usize>)
    requires
        crate::graph_spec::is_walk(adj, p),
        0 <= a < b < p.len(),
        p[a] == p[b],
    ensures
        crate::graph_spec::is_walk(adj, q),
        q[0] == p[0],
        q.last() == p.last(),
        q.len() == p.len() - (b - a),
{
    let q = p.take(a + 1) + p.skip(b + 1);
    assert forall|k: int| 0 <= k < q.len() implies #[trigger] q[k] < adj.len() by {
        if k <= a {
            assert(q[k] == p[k]);
        } else {
            assert(q[k] == p[k + b - a]);
        }
    }
    assert forall|k: int| 0 <= k < q.len() - 1 implies adj[#[trigger] q[k] as int].contains(q[k + 1]) by {
        if k < a {
            assert(q[k] == p[k] && q[k + 1] == p[k + 1]);
        } else if k == a {
            assert(q[k] == p[b]);
            assert(q[k + 1] == p[b + 1]);
        } else {
            assert(q[k] == p[k + b - a]);
            assert(q[k + 1] == p[k + 1 + b - a]);
        }
    }
    if b == p.len() - 1 {
        assert(q.last() == p[a]);
    } else {
        assert(q.last() == p.last());
    }
    q
}

/// a distance is below the number of vertices: a shortest walk repeats no vertex
proof fn lemma_dist_le_n(adj: Seq<Seq<usize>>, i: usize, v: usize, d: nat)
    requires
        adj_wf(adj),
        adj.len() <= usize::MAX,
        is_dist(adj, i, v, d),
    ensures
        d < adj.len(),
{
    let p = choose|p: Seq<usize>| crate::graph_spec::is_walk(adj, p) && p[0] == i && p.last() == v && p.len() <= d + 1;
    if !p.no_duplicates() {
        let (x, y) = choose|x: int, y: int| 0 <= x < p.len() && 0 <= y < p.len() && x != y && p[x] == p[y];
        let q = if x < y {
            lemma_shortcut(adj, p, x, y)
        } else {
            lemma_shortcut(adj, p, y, x)
        };
        assert(q.len() <= d);
        assert(crate::bfs::within(adj, i, v, (d - 1) as nat));
    } else {
        assert forall|k: int| 0 <= k < p.len() implies #[trigger] p[k] < adj.len() by {}
        lemma_cover(p, adj.len());
    }
}

impl<T, A: AdjContainer<T>> GenericGraph<T, A> {
    /// # Shortest paths from a vertex
    /// * the pairs `(index, depth)` of a breadth first search from `source`
    /// * for each vertex `v`, its neighbors one edge closer to `source` than `v`, i.e.,
    /// those on which a shortest path from `source` to `v` can arrive, in the order of the
    /// adjacency list of `v`
    /// * from these, the vertex load counts the shortest paths through each vertex
    pub fn shortest_path_predecessors(&self, source: usize) -> (r: (Vec<(usize, usize)>, Vec<Vec<usize>>))
        requires
            self.wf(),
        ensures
            bfs_result(self.spec_adj(), source, r.0@),
            r.1@.len() == self.spec_vertex_count(),
            forall|v: int| 0 <= v < self.spec_vertex_count() ==> (#[trigger] r.1@[v])@.no_duplicates(),
            forall|v: usize, u: usize|
                v < self.spec_vertex_count() ==> (#[trigger] r.1@[v as int]@.contains(u) <==> (self.spec_adj()[v as int].contains(u)
                    && exists|d: nat| #[trigger] is_dist(self.spec_adj(), source, u, d) && is_dist(self.spec_adj(), source, v, d + 1))),
    {
        proof {
            self.lemma_len_bound();
        }
        let ghost adj = self.spec_adj();
        let n = self.vertex_count();
        let order = bfs_indices(self, source);
        let m = order.len();
        let mut dep: Vec<usize> = vec![0; n];
        let mut reached: Vec<bool> = vec![false; n];
        let mut k: usize = 0;
        while k < m
            invariant
                self.wf(),
                adj == self.spec_adj(),
                adj_wf(adj),
                n == adj.len(),
                m == order@.len(),
                bfs_result(adj, source, order@),
                k <= m,
                dep@.len() == n,
                reached@.len() == n,
                forall|x: int| 0 <= x < n && #[trigger] reached@[x] ==> is_dist(adj, source, x as usize, dep@[x] as nat),
                forall|q: int| 0 <= q < k ==> #[trigger] reached@[order@[q].0 as int],
            decreases m - k,
        {
            let (x, d) = order[k];
            proof {
                assert(is_dist(adj, source, order@[k as int].0, order@[k as int].1 as nat));
                lemma_within_reachable(adj, source, x, d as nat);
                lemma_reachable_bounds(adj, source, x);
            }
            dep.set(x, d);
            reached.set(x, true);
            k = k + 1;
        }
        proof {
            let oi = order@.map_values(|p: (usize, usize)| p.0);
            assert forall|x: usize| x < n && reachable(adj, source, x) implies #[trigger] reached@[x as int] by {
                assert(oi.contains(x));
                let q = choose|q: int| 0 <= q < oi.len() && oi[q] == x;
                assert(reached@[order@[q].0 as int]);
            }
        }
        let mut pred: Vec<Vec<usize>> = Vec::with_capacity(n);
        let mut v: usize = 0;
        while v < n
            invariant
                self.wf(),
                adj == self.spec_adj(),
                adj_wf(adj),
                n == adj.len(),
                dep@.len() == n,
                reached@.len() == n,
                forall|x: int| 0 <= x < n && #[trigger] reached@[x] ==> is_dist(adj, source, x as usize, dep@[x] as nat),
                forall|x: usize| x < n && reachable(adj, source, x) ==> #[trigger] reached@[x as int],
                v <= n,
                pred@.len() == v,
                forall|p: int| 0 <= p < v ==> (#[trigger] pred@[p])@.no_duplicates(),
                forall|p: usize, u: usize|
                    p < v ==> (#[trigger] pred@[p as int]@.contains(u) <==> (adj[p as int].contains(u) && reached@[p as int]
                        && reached@[u as int] && dep@[u as int] + 1 == dep@[p as int])),
            decreases n - v,
        {
            let mut l: Vec<usize> = Vec::new();
            if reached[v] {
                let dv = self.container(v).degree();
                let mut j: usize = 0;
                while j < dv
                    invariant
                        self.wf(),
                        adj == self.spec_adj(),
                        adj_wf(adj),
                        n == adj.len(),
                        v < n,
                        reached@[v as int],
                        dep@.len() == n,
                        reached@.len() == n,
                        dv == adj[v as int].len(),
                        j <= dv,
                        l@.no_duplicates(),
                        forall|u: usize|
                            #[trigger] l@.contains(u) <==> (adj[v as int].take(j as int).contains(u) && reached@[u as int]
                                && dep@[u as int] + 1 == dep@[v as int]),
                    decreases dv - j,
                {
                    let u = self.container(v).neighbor_at(j);
                    proof {
                        assert(adj[v as int][j as int] == u);
                        assert(u < n);
                        assert(adj[v as int].take(j as int + 1) == adj[v as int].take(j as int).push(u));
                        assert(!adj[v as int].take(j as int).contains(u)) by {
                            if adj[v as int].take(j as int).contains(u) {
                                let q = choose|q: int| 0 <= q < j && adj[v as int].take(j as int)[q] == u;
                                assert(adj[v as int][q] == adj[v as int][j as int]);
                            }
                        }
                    }
                    if reached[u] && dep[u] < dep[v] && dep[u] + 1 == dep[v] {
                        let ghost l0 = l@;
                        l.push(u);
                        proof {
                            crate::graph_spec::lemma_push_no_dup(l0, u);
                            assert forall|x: usize| #[trigger] l@.contains(x) <==> (adj[v as int].take(j as int + 1).contains(x)
                                && reached@[x as int] && dep@[x as int] + 1 == dep@[v as int]) by {
                                crate::graph_spec::lemma_push_contains_one(l0, u, x);
                                crate::graph_spec::lemma_push_contains_one(adj[v as int].take(j as int), u, x);
                            }
                        }
                    } else {
                        proof {
                            assert forall|x: usize| #[trigger] l@.contains(x) <==> (adj[v as int].take(j as int + 1).contains(x)
                                && reached@[x as int] && dep@[x as int] + 1 == dep@[v as int]) by {
                                crate::graph_spec::lemma_push_contains_one(adj[v as int].take(j as int), u, x);
                            }
                        }
                    }
                    j = j + 1;
                }
                proof {
                    assert(adj[v as int].take(dv as int) == adj[v as int]);
                }
            }
            let ghost p0 = pred@;
            pred.push(l);
            proof {
                assert forall|p: usize, u: usize|
                    p < v + 1 implies (#[trigger] pred@[p as int]@.contains(u) <==> (adj[p as int].contains(u)
                        && reached@[p as int] && reached@[u as int] && dep@[u as int] + 1 == dep@[p as int])) by {
                    if p < v {
                        assert(pred@[p as int] == p0[p as int]);
                    }
                }
                assert forall|p: int| 0 <= p < v + 1 implies (#[trigger] pred@[p])@.no_duplicates() by {
                    if p < v {
                        assert(pred@[p] == p0[p]);
                    }
                }
            }
            v = v + 1;
        }
        proof {
            assert forall|w: usize, u: usize|
                w < n implies (#[trigger] pred@[w as int]@.contains(u) <==> (adj[w as int].contains(u) && exists|d: nat|
                    #[trigger] is_dist(adj, source, u, d) && is_dist(adj, source, w, d + 1))) by {
                if pred@[w as int]@.contains(u) {
                    assert(u < n);
                    assert(is_dist(adj, source, u, dep@[u as int] as nat));
                    assert(is_dist(adj, source, w, dep@[u as int] as nat + 1));
                }
                if adj[w as int].contains(u) && exists|d: nat|
                    #[trigger] is_dist(adj, source, u, d) && is_dist(adj, source, w, d + 1) {
                    let d = choose|d: nat| #[trigger] is_dist(adj, source, u, d) && is_dist(adj, source, w, d + 1);
                    assert(u < n);
                    lemma_within_reachable(adj, source, u, d);
                    lemma_within_reachable(adj, source, w, d + 1);
                    assert(reached@[u as int]);
                    assert(reached@[w as int]);
                    lemma_dist_unique(adj, source, u, d, dep@[u as int] as nat);
                    lemma_dist_unique(adj, source, w, d + 1, dep@[w as int] as nat);
                }
            }
        }
        (order, pred)
    }
}

} // verus!
