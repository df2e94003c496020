//! The Barabási-Albert ensemble: beginning with a source graph, the remaining vertices
//! arrive in a random order, and each attaches to `m` vertices that arrived before it,
//! chosen with probability proportional to their degree.
use vstd::prelude::*;
use crate::traits::{AdjContainer, Node};
use crate::graph::Graph;
use crate::generic_graph::GenericGraph;
use crate::sampling::WithGraph;
use crate::graph_spec::{adj_wf, is_edge, deg_sum_upto, added_edge, lemma_add_edge, lemma_same_lists_wf, lemma_same_multiset};
use crate::random::{weighted_index, weighted_draw, weighted_set, weighted_weights, shuffle_entries};
use crate::seq_util::{sorted_up, lemma_holds_all_below, lemma_cover, seq_sum, seq_sum_upto, lemma_seq_sum_update, lemma_seq_sum_ge};

verus! {

/// the neighbors in `ba` of the `q`-th vertex of the arrival order `ord` that were there
/// before it: the source vertices (those below `n0`) and the vertices that arrived earlier
pub open spec fn earlier_nbrs(ba: Seq<Seq<usize>>, n0: nat, ord: Seq<usize>, q: int) -> Set<usize> {
    Set::new(|u: usize| is_edge(ba, ord[q], u) && (u < n0 || ord.take(q).contains(u)))
}

/// each of the first `k` vertices of the arrival order has exactly `m` neighbors among
/// the vertices there before it
pub open spec fn arrivals_attach(ba: Seq<Seq<usize>>, n0: nat, ord: Seq<usize>, k: int, m: nat) -> bool {
    forall|q: int|
        0 <= q < k ==> (#[trigger] earlier_nbrs(ba, n0, ord, q)).finite() && earlier_nbrs(ba, n0, ord, q).len()
            == m
}

/// `ord` is an order in which the vertices from `n0` on arrived, each attaching to exactly
/// `m` of the vertices there before it
pub open spec fn ba_arrivals(ba: Seq<Seq<usize>>, n0: nat, ord: Seq<usize>, m: nat) -> bool {
    &&& ord.len() == ba.len() - n0
    &&& ord.no_duplicates()
    &&& forall|v: usize| #[trigger] ord.contains(v) <==> n0 <= v < ba.len()
    &&& arrivals_attach(ba, n0, ord, ord.len() as int, m)
}

/// The graph `ba` grew from the graph `source` as a Barabási-Albert graph with `m` edges
/// per arriving vertex: on the vertices of `source` it has exactly the edges of `source`,
/// the other vertices arrived in some order, each attaching to exactly `m` vertices there
/// before it (and so having at least `m` edges), and it has `m` edges per other vertex on
/// top of those of `source`.
pub open spec fn is_ba_graph(source: Seq<Seq<usize>>, e0: nat, ba: Seq<Seq<usize>>, e: nat, m: nat) -> bool {
    &&& source.len() <= ba.len()
    &&& forall|u: usize, v: usize|
        u < source.len() && v < source.len() ==> (#[trigger] is_edge(ba, u, v) <==> is_edge(source, u, v))
    &&& forall|v: int| source.len() <= v < ba.len() ==> #[trigger] ba[v].len() >= m
    &&& e == e0 + (ba.len() - source.len()) * m
    &&& exists|ord: Seq<usize>| #[trigger] ba_arrivals(ba, source.len(), ord, m)
}

/// the arrival condition depends on the edges alone
proof fn lemma_arrivals_same_edges(a: Seq<Seq<usize>>, b: Seq<Seq<usize>>, n0: nat, ord: Seq<usize>, k: int, m: nat)
    requires
        a.len() == b.len(),
        forall|i: usize, j: usize| #[trigger] is_edge(b, i, j) <==> is_edge(a, i, j),
        arrivals_attach(a, n0, ord, k, m),
    ensures
        arrivals_attach(b, n0, ord, k, m),
{
    assert forall|q: int| 0 <= q < k implies (#[trigger] earlier_nbrs(b, n0, ord, q)).finite() && earlier_nbrs(
        b,
        n0,
        ord,
        q,
    ).len() == m by {
        assert(earlier_nbrs(b, n0, ord, q) =~= earlier_nbrs(a, n0, ord, q)) by {
            assert forall|u: usize| earlier_nbrs(b, n0, ord, q).contains(u) <==> earlier_nbrs(a, n0, ord, q).contains(u) by {
                assert(is_edge(b, ord[q], u) <==> is_edge(a, ord[q], u));
            }
        }
    }
}

/// the weights are the degrees
proof fn lemma_weights_degrees(w: Seq<usize>, adj: Seq<Seq<usize>>, k: int)
    requires
        w.len() == adj.len(),
        0 <= k <= w.len(),
        forall|v: int| 0 <= v < w.len() ==> #[trigger] w[v] == adj[v].len(),
    ensures
        seq_sum_upto(w, k) == deg_sum_upto(adj, k),
    decreases k,
{
    if k > 0 {
        lemma_weights_degrees(w, adj, k - 1);
    }
}

/// a vertex that leaves a slot of a list of distinct entries leaves the rest of the list
proof fn lemma_skip_contains(s: Seq<usize>, q: int, v: usize)
    requires
        s.no_duplicates(),
        0 <= q < s.len(),
    ensures
        s.skip(q).contains(v) <==> (v == s[q] || s.skip(q + 1).contains(v)),
        !s.skip(q + 1).contains(s[q]),
{
    if s.skip(q).contains(v) {
        let t = choose|t: int| 0 <= t < s.skip(q).len() && #[trigger] s.skip(q)[t] == v;
        if t > 0 {
            assert(s.skip(q + 1)[t - 1] == v);
        }
    }
    if s.skip(q + 1).contains(v) {
        let t = choose|t: int| 0 <= t < s.skip(q + 1).len() && #[trigger] s.skip(q + 1)[t] == v;
        assert(s.skip(q)[t + 1] == v);
    }
    assert(s.skip(q)[0] == s[q]);
    if s.skip(q + 1).contains(s[q]) {
        let t = choose|t: int| 0 <= t < s.skip(q + 1).len() && #[trigger] s.skip(q + 1)[t] == s[q];
        assert(s[q + 1 + t] == s[q]);
    }
}

/// A shuffled list of the values from `n0` up to `n` holds each of them once
proof fn lemma_shuffled_range(order: Seq<usize>, r: Seq<usize>, n0: nat, n: nat)
    requires
        n0 <= n,
        r.len() == n - n0,
        forall|q: int| 0 <= q < r.len() ==> #[trigger] r[q] == n0 + q,
        order.to_multiset() == r.to_multiset(),
    ensures
        order.len() == n - n0,
        order.no_duplicates(),
        forall|v: usize| #[trigger] order.contains(v) <==> n0 <= v < n,
{
    order.to_multiset_ensures();
    r.to_multiset_ensures();
    assert(r.no_duplicates());
    r.lemma_multiset_has_no_duplicates();
    order.lemma_multiset_has_no_duplicates_conv();
    assert forall|v: usize| #[trigger] order.contains(v) <==> n0 <= v < n by {
        assert(order.contains(v) <==> order.to_multiset().count(v) > 0);
        assert(r.contains(v) <==> r.to_multiset().count(v) > 0);
        if n0 <= v < n {
            assert(r[v - n0] == v);
        }
    }
}

/// Implements a Barabási-Albert graph ensemble
pub struct BAensemble<T, R> {
    source_graph: Graph<T>,
    ba_graph: Graph<T>,
    rng: R,
    m: usize,
    weights: Vec<usize>,
}

impl<T: Node, R> BAensemble<T, R> {
    /// the graph the ensemble grows from
    pub closed spec fn spec_source(&self) -> Graph<T> {
        self.source_graph
    }

    /// the current Barabási-Albert graph
    pub closed spec fn spec_graph(&self) -> Graph<T> {
        self.ba_graph
    }

    /// how many edges each arriving vertex attaches with
    pub closed spec fn spec_m(&self) -> nat {
        self.m as nat
    }

    /// the graph the ensemble grows from
    pub fn source_graph(&self) -> (r: &Graph<T>)
        ensures
            *r == self.spec_source(),
    {
        &self.source_graph
    }

    /// one weight per vertex is kept
    pub closed spec fn weights_sized(&self) -> bool {
        self.weights@.len() == self.ba_graph.spec_vertex_count()
    }

    /// The ensemble is well formed: both graphs are, the source graph has a vertex and no
    /// vertex without edges, there are more vertices than it has, at most as many edges per
    /// arriving vertex as it has vertices, and all edges can be counted twice.
    pub open spec fn wf(&self) -> bool {
        let s = self.spec_source();
        let g = self.spec_graph();
        &&& s.wf()
        &&& g.wf()
        &&& self.weights_sized()
        &&& 0 < s.spec_vertex_count() < g.spec_vertex_count()
        &&& self.spec_m() <= s.spec_vertex_count()
        &&& forall|v: int| 0 <= v < s.spec_vertex_count() ==> #[trigger] s.spec_adj()[v].len() > 0
        &&& 2 * (s.view_edge_count() + (g.spec_vertex_count() - s.spec_vertex_count()) * self.spec_m())
            <= usize::MAX
    }

    /// the current graph grew from the source graph as a Barabási-Albert graph
    pub open spec fn is_grown(&self) -> bool {
        is_ba_graph(
            self.spec_source().spec_adj(),
            self.spec_source().view_edge_count(),
            self.spec_graph().spec_adj(),
            self.spec_graph().view_edge_count(),
            self.spec_m(),
        )
    }

    /// The state while vertices arrive: the vertices in `p` (among them those of the
    /// source graph) arrived, `k` of them besides the source; the source edges are
    /// in place, the others have no edges yet, each weight is the degree of its vertex.
    closed spec fn growing(&self, p: Set<usize>, k: nat, ord: Seq<usize>) -> bool {
        let s = self.source_graph.spec_adj();
        let b = self.ba_graph.spec_adj();
        let n0 = s.len();
        let n = b.len();
        let w = self.weights@;
        let m = self.m;
        &&& self.wf()
        &&& k <= n - n0
        &&& w.len() == n
        &&& forall|v: int| 0 <= v < n ==> #[trigger] w[v] == b[v].len()
        &&& forall|v: usize| v < n && !p.contains(v) ==> #[trigger] b[v as int].len() == 0
        &&& forall|v: usize| v < n0 ==> #[trigger] p.contains(v)
        &&& forall|u: usize, v: usize| u < n0 && v < n0 ==> (#[trigger] is_edge(b, u, v) <==> is_edge(s, u, v))
        &&& forall|v: usize| n0 <= v < n && #[trigger] p.contains(v) ==> b[v as int].len() >= m
        &&& self.ba_graph.view_edge_count() == self.source_graph.view_edge_count() + k * m
        &&& forall|v: int| 0 <= v < n0 ==> #[trigger] b[v].len() > 0
        &&& ord.len() == k
        &&& forall|v: usize| #[trigger] p.contains(v) <==> (v < n0 || ord.contains(v))
        &&& forall|q: int| 0 <= q < ord.len() ==> n0 <= #[trigger] ord[q] < n
        &&& arrivals_attach(b, n0 as nat, ord, k as int, m as nat)
    }
}

impl<T: Node, R: rand::Rng> BAensemble<T, R> {
    /// vertex `i` arrives and attaches to `m` vertices that arrived before it, each drawn
    /// with probability proportional to its degree among those not drawn yet
    fn attach(&mut self, i: usize, Ghost(p): Ghost<Set<usize>>, Ghost(k): Ghost<nat>, Ghost(ord): Ghost<Seq<usize>>)
        requires
            old(self).growing(p, k, ord),
            old(self).spec_source().spec_vertex_count() <= i < old(self).spec_graph().spec_vertex_count(),
            !p.contains(i),
            k < old(self).spec_graph().spec_vertex_count() - old(self).spec_source().spec_vertex_count(),
        ensures
            final(self).growing(p.insert(i), k + 1, ord.push(i)),
            final(self).spec_source() == old(self).spec_source(),
            final(self).spec_m() == old(self).spec_m(),
            final(self).spec_graph().spec_vertex_count() == old(self).spec_graph().spec_vertex_count(),
            final(self).spec_graph().spec_contained() == old(self).spec_graph().spec_contained(),
    {
        let ghost s = self.source_graph.spec_adj();
        let ghost n0 = s.len();
        let ghost e0 = self.source_graph.view_edge_count();
        let ghost w0 = self.weights@;
        let ghost c0 = self.ba_graph.spec_contained();
        let ghost src = self.source_graph;
        let ghost bs = self.ba_graph.spec_adj();
        let n = self.ba_graph.vertex_count();
        let m = self.m;
        proof {
            let b = self.ba_graph.spec_adj();
            lemma_weights_degrees(w0, b, n as int);
            assert(k * m <= (n - n0) * m) by (nonlinear_arith)
                requires
                    k <= n - n0,
            ;
            assert((k + 1) * m <= (n - n0) * m) by (nonlinear_arith)
                requires
                    k + 1 <= n - n0,
            ;
            assert((k + 1) * m == k * m + m) by (nonlinear_arith);
            assert(seq_sum(w0) == 2 * self.ba_graph.view_edge_count());
            lemma_seq_sum_ge(w0, 0, n as int);
            assert(b[0].len() > 0);
        }
        let mut dist = match weighted_index(&self.weights) {
            Ok(d) => d,
            Err(_) => {
                proof {
                    assert(false);
                }
                return ;
            },
        };
        while self.ba_graph.container(i).degree() < m
            invariant
                self.source_graph == src,
                self.source_graph.spec_adj() == s,
                n0 == s.len(),
                e0 == self.source_graph.view_edge_count(),
                self.source_graph.wf(),
                self.ba_graph.wf(),
                self.ba_graph.spec_vertex_count() == n,
                self.ba_graph.spec_contained() == c0,
                self.weights@ == w0,
                self.m == m,
                self.weights_sized(),
                0 < n0 < n,
                m <= n0,
                n0 <= i < n,
                !p.contains(i),
                k < n - n0,
                w0.len() == n,
                w0[i as int] == 0,
                seq_sum(w0) <= usize::MAX,
                forall|v: int| 0 <= v < n0 ==> #[trigger] s[v].len() > 0,
                2 * (e0 + (n - n0) * m) <= usize::MAX,
                k * m <= (n - n0) * m,
                k * m + m <= (n - n0) * m,
                self.ba_graph.spec_adj()[i as int].len() <= m,
                forall|x: usize, u: usize|
                    x != i && u != i ==> (#[trigger] is_edge(self.ba_graph.spec_adj(), x, u) <==> is_edge(bs, x, u)),
                bs.len() == n,
                forall|v: usize| v < n && !p.contains(v) ==> #[trigger] bs[v as int].len() == 0,
                forall|v: int| 0 <= v < n ==> #[trigger] w0[v] == bs[v].len(),
                forall|v: usize|
                    v < n && v != i ==> #[trigger] self.ba_graph.spec_adj()[v as int].len() == w0[v as int] + if self.ba_graph.spec_adj()[i as int].contains(v) {
                        1nat
                    } else {
                        0nat
                    },
                forall|v: usize|
                    v < n && #[trigger] self.ba_graph.spec_adj()[i as int].contains(v) ==> w0[v as int] > 0,
                forall|v: usize| v < n && v != i && !p.contains(v) ==> #[trigger] self.ba_graph.spec_adj()[v as int].len() == 0,
                forall|v: usize| v < n0 ==> #[trigger] p.contains(v),
                forall|u: usize, v: usize|
                    u < n0 && v < n0 ==> (#[trigger] is_edge(self.ba_graph.spec_adj(), u, v) <==> is_edge(s, u, v)),
                forall|v: usize|
                    n0 <= v < n && #[trigger] p.contains(v) ==> self.ba_graph.spec_adj()[v as int].len() >= m,
                self.ba_graph.view_edge_count() == e0 + k * m + self.ba_graph.spec_adj()[i as int].len(),
                forall|v: int| 0 <= v < n0 ==> #[trigger] self.ba_graph.spec_adj()[v].len() > 0,
                self.ba_graph.spec_adj()[i as int].len() < m ==> {
                    &&& weighted_weights(dist).len() == n
                    &&& seq_sum(weighted_weights(dist)) <= seq_sum(w0)
                    &&& forall|v: usize|
                        v < n ==> #[trigger] weighted_weights(dist)[v as int] == if self.ba_graph.spec_adj()[i as int].contains(
                            v,
                        ) {
                            0
                        } else {
                            w0[v as int]
                        }
                },
            decreases m - self.ba_graph.spec_adj()[i as int].len(),
        {
            let ghost b0 = self.ba_graph.spec_adj();
            let ghost dw = weighted_weights(dist);
            proof {
                // some vertex of the source graph is not a neighbor yet, and its weight counts
                assert(adj_wf(b0));
                assert(b0[i as int].no_duplicates());
                if forall|v: usize| v < n0 ==> b0[i as int].contains(v) {
                    lemma_holds_all_below(b0[i as int], n0);
                }
                let v = choose|v: usize| v < n0 && !b0[i as int].contains(v);
                assert(dw[v as int] == w0[v as int]);
                assert(b0[v as int].len() > 0);
                lemma_seq_sum_ge(dw, v as int, n as int);
            }
            let idx = weighted_draw(&dist, &mut self.rng);
            proof {
                assert(!b0[i as int].contains(idx));
                assert(idx != i);
                assert(k * m + b0[i as int].len() < (n - n0) * m + m);
            }
            let _ = self.ba_graph.add_edge(i, idx);
            proof {
                lemma_add_edge(b0, i, idx);
                let b1 = self.ba_graph.spec_adj();
                assert(b1 == added_edge(b0, i, idx));
                assert(b1[i as int] == b0[i as int].push(idx));
                assert(b1[idx as int] == b0[idx as int].push(i));
                assert forall|v: usize| v < n && v != i implies #[trigger] b1[v as int].len() == w0[v as int]
                    + if b1[i as int].contains(v) {
                    1nat
                } else {
                    0nat
                } by {
                    crate::graph_spec::lemma_push_contains_one(b0[i as int], idx, v);
                    if v != idx {
                        assert(b1[v as int] == b0[v as int]);
                    }
                }
                assert forall|v: usize| v < n && #[trigger] b1[i as int].contains(v) implies w0[v as int] > 0 by {
                    crate::graph_spec::lemma_push_contains_one(b0[i as int], idx, v);
                }
                assert(b0[idx as int].len() == w0[idx as int]);
                assert forall|v: usize| v < n && v != i && !p.contains(v) implies #[trigger] b1[v as int].len() == 0 by {
                    if v == idx {
                        assert(b0[idx as int].len() > 0);
                    } else {
                        assert(b1[v as int] == b0[v as int]);
                    }
                }
                assert forall|u: usize, v: usize| u < n0 && v < n0 implies (#[trigger] is_edge(b1, u, v) <==> is_edge(
                    s,
                    u,
                    v,
                )) by {
                    assert(is_edge(b1, u, v) <==> is_edge(b0, u, v));
                }
                assert forall|v: usize| n0 <= v < n && #[trigger] p.contains(v) implies b1[v as int].len() >= m by {
                    if v == idx {
                        assert(b0[idx as int].len() >= m);
                    } else {
                        assert(b1[v as int] == b0[v as int]);
                    }
                }
                assert forall|v: int| 0 <= v < n0 implies #[trigger] b1[v].len() > 0 by {
                    if v != idx {
                        assert(b1[v] == b0[v]);
                    }
                }
                assert forall|x: usize, u: usize| x != i && u != i implies (#[trigger] is_edge(b1, x, u) <==> is_edge(
                    bs,
                    x,
                    u,
                )) by {
                    assert(is_edge(b0, x, u) <==> is_edge(bs, x, u));
                    if x == idx {
                        crate::graph_spec::lemma_push_contains_one(b0[idx as int], i, u);
                    } else if x < n {
                        assert(b1[x as int] == b0[x as int]);
                    }
                }
            }
            if self.ba_graph.container(i).degree() < m {
                proof {
                    let b1 = self.ba_graph.spec_adj();
                    assert(b1[i as int].no_duplicates());
                    if forall|v: usize| v < n0 ==> b1[i as int].contains(v) {
                        lemma_holds_all_below(b1[i as int], n0);
                    }
                    let v = choose|v: usize| v < n0 && !b1[i as int].contains(v);
                    crate::graph_spec::lemma_push_contains_one(b0[i as int], idx, v);
                    assert(v != idx) by {
                        crate::graph_spec::lemma_push_contains(b0[i as int], idx);
                    }
                    lemma_seq_sum_update(dw, idx as int, 0, n as int);
                    assert(dw.update(idx as int, 0)[v as int] == w0[v as int]);
                    assert(b1[v as int].len() > 0);
                    lemma_seq_sum_ge(dw.update(idx as int, 0), v as int, n as int);
                }
                match weighted_set(&mut dist, idx, 0) {
                    Ok(()) => {
                        proof {
                            let b1 = self.ba_graph.spec_adj();
                            assert forall|v: usize| v < n implies #[trigger] weighted_weights(dist)[v as int] == if b1[i as int].contains(v) {
                                0
                            } else {
                                w0[v as int]
                            } by {
                                crate::graph_spec::lemma_push_contains_one(b0[i as int], idx, v);
                            }
                        }
                    },
                    Err(_) => {
                        proof {
                            assert(false);
                        }
                    },
                }
            }
        }
        let ghost b2 = self.ba_graph.spec_adj();
        let ghost g2 = self.ba_graph;
        proof {
            assert(b2[i as int].skip(0) =~= b2[i as int]);
        }
        self.weights.set(i, m);
        let mut q: usize = 0;
        while q < m
            invariant
                self.source_graph == src,
                self.ba_graph == g2,
                self.m == m,
                self.source_graph.spec_adj() == s,
                n0 == s.len(),
                self.ba_graph.spec_adj() == b2,
                self.ba_graph.spec_vertex_count() == n,
                self.ba_graph.wf(),
                n0 <= i < n,
                b2[i as int].len() == m,
                q <= m,
                self.weights@.len() == n,
                self.weights@[i as int] == m,
                forall|v: usize|
                    v < n && v != i ==> #[trigger] b2[v as int].len() == self.weights@[v as int] + if b2[i as int].skip(
                        q as int,
                    ).contains(v) {
                        1nat
                    } else {
                        0nat
                    },
            decreases m - q,
        {
            let j = self.ba_graph.container(i).neighbor_at(q);
            proof {
                assert(adj_wf(b2));
                assert(b2[i as int][q as int] == j);
                assert(j < n && j != i);
                lemma_skip_contains(b2[i as int], q as int, j);
                lemma_cover(b2[j as int], n as nat);
            }
            let wj = self.weights[j];
            self.weights.set(j, wj + 1);
            proof {
                assert forall|v: usize| v < n && v != i implies #[trigger] b2[v as int].len() == self.weights@[v as int]
                    + if b2[i as int].skip(q as int + 1).contains(v) {
                    1nat
                } else {
                    0nat
                } by {
                    lemma_skip_contains(b2[i as int], q as int, v);
                }
            }
            q = q + 1;
        }
        proof {
            let b = self.ba_graph.spec_adj();
            let w = self.weights@;
            assert(b2[i as int].skip(m as int).len() == 0);
            assert forall|v: int| 0 <= v < n implies #[trigger] w[v] == b[v].len() by {
                if v != i {
                    assert(!b2[i as int].skip(m as int).contains(v as usize));
                }
            }
            assert forall|v: usize| v < n && !p.insert(i).contains(v) implies #[trigger] b[v as int].len() == 0 by {}
            assert forall|v: usize| n0 <= v < n && #[trigger] p.insert(i).contains(v) implies b[v as int].len() >= m by {}
            assert((k + 1) * m == k * m + m) by (nonlinear_arith);
            let o2 = ord.push(i);
            assert(!ord.contains(i));
            crate::graph_spec::lemma_push_contains(ord, i);
            assert forall|v: usize| #[trigger] p.insert(i).contains(v) <==> (v < n0 || o2.contains(v)) by {}
            assert forall|q: int| 0 <= q < o2.len() implies n0 <= #[trigger] o2[q] < n by {
                if q < ord.len() {
                    assert(o2[q] == ord[q]);
                }
            }
            // the earlier arrivals keep their earlier neighbors: the new edges lead to `i`,
            // which arrived after them
            assert forall|q: int| 0 <= q < k + 1 implies (#[trigger] earlier_nbrs(b, n0 as nat, o2, q)).finite()
                && earlier_nbrs(b, n0 as nat, o2, q).len() == m by {
                if q < k {
                    assert(o2[q] == ord[q]);
                    assert(o2.take(q) =~= ord.take(q));
                    assert(ord[q] != i) by {
                        assert(ord.contains(ord[q]));
                    }
                    assert(!ord.take(q).contains(i)) by {
                        if ord.take(q).contains(i) {
                            let j = choose|j: int| 0 <= j < q && #[trigger] ord.take(q)[j] == i;
                            assert(ord[j] == i);
                            assert(ord.contains(i));
                        }
                    }
                    assert(earlier_nbrs(b, n0 as nat, o2, q) =~= earlier_nbrs(bs, n0 as nat, ord, q)) by {
                        assert forall|u: usize| earlier_nbrs(b, n0 as nat, o2, q).contains(u) <==> earlier_nbrs(
                            bs,
                            n0 as nat,
                            ord,
                            q,
                        ).contains(u) by {
                            if u != i {
                                assert(is_edge(b, ord[q], u) <==> is_edge(bs, ord[q], u));
                            }
                        }
                    }
                    assert(earlier_nbrs(bs, n0 as nat, ord, q).finite());
                } else {
                    assert(o2[q] == i);
                    assert(o2.take(q) =~= ord);
                    assert(earlier_nbrs(b, n0 as nat, o2, q) =~= b[i as int].to_set()) by {
                        assert forall|u: usize| earlier_nbrs(b, n0 as nat, o2, q).contains(u) <==> b[i as int].to_set().contains(
                            u,
                        ) by {
                            if b[i as int].contains(u) {
                                assert(b2[i as int].contains(u));
                                assert(u < n);
                                assert(w0[u as int] > 0);
                                assert(p.contains(u));
                            }
                        }
                    }
                    b[i as int].unique_seq_to_set();
                }
            }
        }
    }
    /// # Randomizes the Barabási-Albert graph
    /// * the graph is built anew from the source graph: the other vertices arrive in a
    /// random order, each attaching to `m` vertices that arrived before it, drawn with
    /// probability proportional to their degree
    pub fn randomize(&mut self)
        requires
            old(self).wf(),
        ensures
            final(self).wf(),
            final(self).is_grown(),
            final(self).spec_source() == old(self).spec_source(),
            final(self).spec_m() == old(self).spec_m(),
            final(self).spec_graph().spec_vertex_count() == old(self).spec_graph().spec_vertex_count(),
            final(self).spec_graph().spec_contained() == old(self).spec_graph().spec_contained(),
    {
        let ghost c0 = self.ba_graph.spec_contained();
        let ghost src = self.source_graph;
        self.ba_graph.reset_from_graph(&self.source_graph);
        let n0 = self.source_graph.vertex_count();
        let n = self.ba_graph.vertex_count();
        let mut order: Vec<usize> = Vec::with_capacity(n - n0);
        let mut v = n0;
        while v < n
            invariant
                n0 <= v <= n,
                order@.len() == v - n0,
                forall|q: int| 0 <= q < order@.len() ==> #[trigger] order@[q] == n0 + q,
            decreases n - v,
        {
            order.push(v);
            v = v + 1;
        }
        let ghost r0 = order@;
        shuffle_entries(&mut order, &mut self.rng);
        proof {
            lemma_shuffled_range(order@, r0, n0 as nat, n as nat);
        }
        let ghost b0 = self.ba_graph.spec_adj();
        let ghost g0 = self.ba_graph;
        let ghost m0 = self.m;
        let mut i: usize = 0;
        while i < n
            invariant
                self.source_graph == src,
                self.ba_graph == g0,
                self.m == m0,
                self.ba_graph.spec_adj() == b0,
                self.ba_graph.spec_vertex_count() == n,
                n0 == src.spec_vertex_count(),
                n0 < n,
                i <= n,
                self.weights@.len() == n,
                forall|w: int| 0 <= w < i ==> #[trigger] self.weights@[w] == b0[w].len(),
                forall|w: int| 0 <= w < n ==> #[trigger] b0[w] == if w < n0 {
                    src.spec_adj()[w]
                } else {
                    Seq::<usize>::empty()
                },
            decreases n - i,
        {
            if i < n0 {
                let d = self.source_graph.container(i).degree();
                self.weights.set(i, d);
            } else {
                self.weights.set(i, 0);
            }
            i = i + 1;
        }
        let ghost mut p: Set<usize> = Set::new(|w: usize| w < n0);
        proof {
            let s = src.spec_adj();
            let b = self.ba_graph.spec_adj();
            assert forall|a: usize, c: usize| a < n0 && c < n0 implies (#[trigger] is_edge(b, a, c) <==> is_edge(s, a, c)) by {
                assert(b[a as int] == s[a as int]);
            }
            assert(self.wf());
            assert forall|w: usize| w < n && !p.contains(w) implies #[trigger] b[w as int].len() == 0 by {}
            assert forall|w: usize| w < n0 implies #[trigger] p.contains(w) by {}
            assert(order@.take(0) =~= Seq::<usize>::empty());
            assert forall|w: usize| #[trigger] p.contains(w) <==> (w < n0 || order@.take(0).contains(w)) by {}
            assert(self.growing(p, 0, order@.take(0)));
        }
        let len = order.len();
        let mut k: usize = 0;
        while k < len
            invariant
                self.growing(p, k as nat, order@.take(k as int)),
                self.source_graph == src,
                self.m == m0,
                self.ba_graph.spec_contained() == c0,
                n0 == src.spec_vertex_count(),
                n == self.ba_graph.spec_vertex_count(),
                len == order@.len(),
                len == n - n0,
                k <= len,
                order@.no_duplicates(),
                forall|w: usize| #[trigger] order@.contains(w) <==> n0 <= w < n,
                forall|w: usize| #[trigger] p.contains(w) <==> (w < n0 || order@.take(k as int).contains(w)),
            decreases len - k,
        {
            let i = order[k];
            proof {
                assert(order@.contains(i));
                if order@.take(k as int).contains(i) {
                    let q = choose|q: int| 0 <= q < k && #[trigger] order@.take(k as int)[q] == i;
                    assert(order@[q] == order@[k as int]);
                }
            }
            self.attach(i, Ghost(p), Ghost(k as nat), Ghost(order@.take(k as int)));
            proof {
                assert(order@.take(k as int + 1) == order@.take(k as int).push(i));
                assert forall|w: usize| #[trigger] p.insert(i).contains(w) <==> (w < n0 || order@.take(
                    k as int + 1,
                ).contains(w)) by {
                    crate::graph_spec::lemma_push_contains_one(order@.take(k as int), i, w);
                }
                p = p.insert(i);
            }
            k = k + 1;
        }
        proof {
            assert(order@.take(len as int) == order@);
            let b = self.ba_graph.spec_adj();
            assert forall|w: int| n0 <= w < n implies #[trigger] b[w].len() >= self.m by {
                assert(order@.contains(w as usize));
                assert(p.contains(w as usize));
            }
            assert(ba_arrivals(b, n0 as nat, order@, self.m as nat));
        }
    }
    /// # Initialize
    /// * the source graph is the complete graph on `source_n` vertices, `source_n >= 2`
    /// * `n`: number of vertices, `n > source_n`
    /// * `m`: how many edges each arriving vertex attaches with, at most `source_n`
    /// * `rng`: random number generator
    pub fn new(n: usize, rng: R, m: usize, source_n: usize) -> (r: Self)
        requires
            source_n >= 2,
            n > source_n,
            m <= source_n,
            source_n * (source_n - 1) + 2 * ((n - source_n) * m) <= usize::MAX,
        ensures
            r.wf(),
            r.is_grown(),
            r.spec_source().spec_vertex_count() == source_n,
            forall|i: usize, j: usize|
                i < source_n && j < source_n ==> (#[trigger] is_edge(r.spec_source().spec_adj(), i, j) <==> i != j),
            r.spec_graph().spec_vertex_count() == n,
            r.spec_m() == m,
    {
        assert(source_n * (source_n - 1) <= usize::MAX);
        let source_graph: Graph<T> = Graph::complete_graph(source_n);
        let ba_graph: Graph<T> = Graph::new(n);
        let mut e = BAensemble { ba_graph, source_graph, rng, m, weights: vec![0; n] };
        proof {
            let s = e.source_graph.spec_adj();
            assert forall|v: int| 0 <= v < source_n implies #[trigger] s[v].len() > 0 by {
                let j: usize = if v == 0 {
                    1
                } else {
                    0
                };
                assert(is_edge(s, v as usize, j));
            }
        }
        e.randomize();
        e
    }

    /// # Initialize with a source graph
    /// * `source_graph` must not have vertices without edges, and at least one vertex
    /// * `n`: number of vertices, `n > source_graph.vertex_count()`
    /// * `m`: how many edges each arriving vertex attaches with, at most the number of
    /// vertices of the source graph
    /// * the first vertices hold clones of what the source graph holds
    pub fn new_from_graph(n: usize, rng: R, m: usize, source_graph: &Graph<T>) -> (r: Self)
        requires
            source_graph.wf(),
            0 < source_graph.spec_vertex_count() < n,
            forall|v: int| 0 <= v < source_graph.spec_vertex_count() ==> #[trigger] source_graph.spec_adj()[v].len() > 0,
            m <= source_graph.spec_vertex_count(),
            2 * (source_graph.view_edge_count() + (n - source_graph.spec_vertex_count()) * m) <= usize::MAX,
        ensures
            r.wf(),
            r.is_grown(),
            r.spec_source().spec_adj() == source_graph.spec_adj(),
            r.spec_source().view_edge_count() == source_graph.view_edge_count(),
            r.spec_graph().spec_vertex_count() == n,
            r.spec_m() == m,
            forall|i: int|
                0 <= i < source_graph.spec_vertex_count() ==> cloned::<T>(
                    source_graph.spec_contained()[i],
                    #[trigger] r.spec_graph().spec_contained()[i],
                ),
    {
        Self::from_parts(n, rng, m, source_graph)
    }

    /// # Initialize with a source graph of any container type
    /// * like [`BAensemble::new_from_graph`]
    pub fn new_from_generic_graph<A2: AdjContainer<T>>(
        n: usize,
        rng: R,
        m: usize,
        generic_source_graph: &GenericGraph<T, A2>,
    ) -> (r: Self)
        requires
            generic_source_graph.wf(),
            0 < generic_source_graph.spec_vertex_count() < n,
            forall|v: int|
                0 <= v < generic_source_graph.spec_vertex_count() ==> #[trigger] generic_source_graph.spec_adj()[v].len()
                    > 0,
            m <= generic_source_graph.spec_vertex_count(),
            2 * (generic_source_graph.view_edge_count() + (n - generic_source_graph.spec_vertex_count()) * m)
                <= usize::MAX,
        ensures
            r.wf(),
            r.is_grown(),
            r.spec_source().spec_adj() == generic_source_graph.spec_adj(),
            r.spec_source().view_edge_count() == generic_source_graph.view_edge_count(),
            r.spec_graph().spec_vertex_count() == n,
            r.spec_m() == m,
            forall|i: int|
                0 <= i < generic_source_graph.spec_vertex_count() ==> cloned::<T>(
                    generic_source_graph.spec_contained()[i],
                    #[trigger] r.spec_graph().spec_contained()[i],
                ),
    {
        Self::from_parts(n, rng, m, generic_source_graph)
    }

    /// the ensemble grown from a copy of `source`
    fn from_parts<A2: AdjContainer<T>>(n: usize, rng: R, m: usize, source: &GenericGraph<T, A2>) -> (r: Self)
        requires
            source.wf(),
            0 < source.spec_vertex_count() < n,
            forall|v: int| 0 <= v < source.spec_vertex_count() ==> #[trigger] source.spec_adj()[v].len() > 0,
            m <= source.spec_vertex_count(),
            2 * (source.view_edge_count() + (n - source.spec_vertex_count()) * m) <= usize::MAX,
        ensures
            r.wf(),
            r.is_grown(),
            r.spec_source().spec_adj() == source.spec_adj(),
            r.spec_source().view_edge_count() == source.view_edge_count(),
            r.spec_graph().spec_vertex_count() == n,
            r.spec_m() == m,
            forall|i: int|
                0 <= i < source.spec_vertex_count() ==> cloned::<T>(
                    source.spec_contained()[i],
                    #[trigger] r.spec_graph().spec_contained()[i],
                ),
    {
        let source_graph: Graph<T> = source.clone_topology(|x: &T| -> (c: T)
            ensures
                cloned::<T>(*x, c),
            { x.clone() });
        let n0 = source.vertex_count();
        let mut ba_graph: Graph<T> = Graph::new(n);
        let mut i: usize = 0;
        while i < n0
            invariant
                source.wf(),
                n0 == source.spec_vertex_count(),
                n0 < n,
                i <= n0,
                ba_graph.wf(),
                ba_graph.spec_vertex_count() == n,
                forall|k: int| 0 <= k < i ==> cloned::<T>(source.spec_contained()[k], #[trigger] ba_graph.spec_contained()[k]),
            decreases n0 - i,
        {
            let c = source.at(i).clone();
            *ba_graph.at_mut(i) = c;
            i = i + 1;
        }
        let mut e = BAensemble { ba_graph, source_graph, rng, m, weights: vec![0; n] };
        e.randomize();
        e
    }

}

impl<T: Node, R> AsRef<Graph<T>> for BAensemble<T, R> {
    /// the graph of the ensemble
    fn as_ref(&self) -> (r: &Graph<T>)
        ensures
            *r == self.spec_graph(),
    {
        &self.ba_graph
    }
}

impl<T: Node, R> core::borrow::Borrow<Graph<T>> for BAensemble<T, R> {
    /// the graph of the ensemble
    fn borrow(&self) -> &Graph<T>
        returns
            &self.spec_graph(),
    {
        &self.ba_graph
    }
}

impl<T: Node, R> WithGraph<T, Graph<T>> for BAensemble<T, R> {
    open spec fn with_graph_wf(&self) -> bool {
        self.wf()
    }

    open spec fn node_total(&self) -> nat {
        self.spec_graph().spec_vertex_count()
    }

    open spec fn node_at(&self, index: int) -> T {
        self.spec_graph().spec_contained()[index]
    }

    open spec fn spec_with_graph(&self) -> Graph<T> {
        self.spec_graph()
    }

    /// what vertex `index` holds
    fn at(&self, index: usize) -> (r: &T) {
        self.ba_graph.at(index)
    }

    /// what vertex `index` holds, to be changed; the edges stay as they are
    fn at_mut(&mut self, index: usize) -> (r: &mut T)
        ensures
            final(self).spec_graph().spec_adj() == old(self).spec_graph().spec_adj(),
            final(self).spec_graph().view_edge_count() == old(self).spec_graph().view_edge_count(),
            final(self).spec_source() == old(self).spec_source(),
            final(self).spec_m() == old(self).spec_m(),
    {
        self.ba_graph.at_mut(index)
    }

    /// the Barabási-Albert graph
    fn graph(&self) -> (r: &Graph<T>) {
        &self.ba_graph
    }

    /// # Sort adjacency lists
    /// The edges stay the same; each adjacency list is sorted ascending.
    fn sort_adj(&mut self)
        ensures
            final(self).spec_source() == old(self).spec_source(),
            final(self).spec_m() == old(self).spec_m(),
            final(self).spec_graph().view_edge_count() == old(self).spec_graph().view_edge_count(),
            forall|i: usize, j: usize|
                #[trigger] is_edge(final(self).spec_graph().spec_adj(), i, j) <==> is_edge(
                    old(self).spec_graph().spec_adj(),
                    i,
                    j,
                ),
            forall|v: int|
                0 <= v < old(self).spec_graph().spec_vertex_count() ==> #[trigger] final(self).spec_graph().spec_adj()[v].len()
                    == old(self).spec_graph().spec_adj()[v].len(),
            old(self).is_grown() ==> final(self).is_grown(),
            forall|v: int|
                0 <= v < old(self).spec_graph().spec_vertex_count() ==> sorted_up(
                    #[trigger] final(self).spec_graph().spec_adj()[v],
                ),
            final(self).spec_graph().spec_contained() == old(self).spec_graph().spec_contained(),
    {
        let ghost adj0 = self.ba_graph.spec_adj();
        self.ba_graph.sort_adj();
        proof {
            let adj1 = self.ba_graph.spec_adj();
            lemma_same_lists_wf(adj0, adj1);
            assert forall|v: int| 0 <= v < adj0.len() implies #[trigger] adj1[v].len() == adj0[v].len() by {
                lemma_same_multiset(adj0[v], adj1[v]);
            }
            if old(self).is_grown() {
                let n0 = self.source_graph.spec_adj().len();
                let ord = choose|ord: Seq<usize>| #[trigger] ba_arrivals(adj0, n0, ord, self.m as nat);
                lemma_arrivals_same_edges(adj0, adj1, n0, ord, ord.len() as int, self.m as nat);
                assert(ba_arrivals(adj1, n0, ord, self.m as nat));
            }
        }
    }
}



} // verus!
