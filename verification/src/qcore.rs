//! The q-core of a graph: the largest set of vertices in which every vertex has at
//! least `q` neighbors in the set, found by peeling off vertices of lower degree.
use vstd::prelude::*;
use crate::graph_spec::{
    adj_wf, is_walk, reachable, lemma_reachable_bounds, lemma_reachable_sym, lemma_reachable_trans,
    lemma_push_no_dup, lemma_push_contains_one,
};
use crate::seq_util::{below, lemma_below_card};
use crate::bfs::occurs_from;
use crate::traits::AdjContainer;
use crate::generic_graph::GenericGraph;
use crate::search::{Searchable, lists_component, component_size, dfs_indices};

verus! {

/// the number of neighbors of `v` in the set `c`
pub open spec fn nbr_count(adj: Seq<Seq<usize>>, v: usize, c: Set<usize>) -> nat {
    adj[v as int].to_set().intersect(c).len()
}

/// every vertex of `c` is a vertex of the graph with at least `q` neighbors in `c`
pub open spec fn closed_core(adj: Seq<Seq<usize>>, q: nat, c: Set<usize>) -> bool {
    &&& forall|v: usize| #[trigger] c.contains(v) ==> v < adj.len()
    &&& forall|v: usize| #[trigger] c.contains(v) ==> nbr_count(adj, v, c) >= q
}

/// `k` is the q-core: the set of the kind above that holds every other such set
pub open spec fn is_q_core(adj: Seq<Seq<usize>>, q: nat, k: Set<usize>) -> bool {
    &&& closed_core(adj, q, k)
    &&& forall|c: Set<usize>| #[trigger] closed_core(adj, q, c) ==> c.subset_of(k)
}

/// the vertices whose counter is not zero
pub open spec fn alive(deg: Seq<usize>) -> Set<usize> {
    Set::new(|v: usize| v < deg.len() && deg[v as int] > 0)
}

/// the counter of each vertex that is alive counts its neighbors that are alive
pub open spec fn counts_alive(adj: Seq<Seq<usize>>, deg: Seq<usize>) -> bool {
    forall|v: usize|
        v < deg.len() && deg[v as int] > 0 ==> #[trigger] deg[v as int] == nbr_count(adj, v, alive(deg))
}

/// the alive vertices are finitely many, at most the number of counters
pub proof fn lemma_alive_finite(deg: Seq<usize>)
    requires
        deg.len() <= usize::MAX + 1,
    ensures
        alive(deg).finite(),
        alive(deg).subset_of(below(deg.len())),
        alive(deg).len() <= deg.len(),
{
    lemma_below_card(deg.len());
    assert(alive(deg).subset_of(below(deg.len())));
    vstd::set_lib::lemma_len_subset(alive(deg), below(deg.len()));
}

/// one vertex fewer in the set: one neighbor fewer if it was a neighbor in the set
pub proof fn lemma_nbr_count_remove(adj: Seq<Seq<usize>>, v: usize, c: Set<usize>, x: usize)
    ensures
        nbr_count(adj, v, c.remove(x)) + (if adj[v as int].contains(x) && c.contains(x) {
            1int
        } else {
            0
        }) == nbr_count(adj, v, c),
{
    broadcast use vstd::set::group_set_axioms;

    let s = adj[v as int].to_set().intersect(c);
    assert(adj[v as int].to_set().intersect(c.remove(x)) =~= s.remove(x));
    vstd::set_lib::lemma_len_intersect(adj[v as int].to_set(), c);
    assert(adj[v as int].contains(x) <==> adj[v as int].to_set().contains(x));
}

/// fewer vertices in the set, no more neighbors in it
pub proof fn lemma_nbr_count_subset(adj: Seq<Seq<usize>>, v: usize, c1: Set<usize>, c2: Set<usize>)
    requires
        c1.subset_of(c2),
    ensures
        nbr_count(adj, v, c1) <= nbr_count(adj, v, c2),
{
    broadcast use vstd::set::group_set_axioms;

    vstd::set_lib::lemma_len_intersect(adj[v as int].to_set(), c2);
    vstd::set_lib::lemma_len_subset(
        adj[v as int].to_set().intersect(c1),
        adj[v as int].to_set().intersect(c2),
    );
}

/// a neighbor in the set counts
pub proof fn lemma_nbr_count_pos(adj: Seq<Seq<usize>>, v: usize, c: Set<usize>, x: usize)
    requires
        adj[v as int].contains(x),
        c.contains(x),
    ensures
        nbr_count(adj, v, c) >= 1,
{
    lemma_nbr_count_remove(adj, v, c, x);
}

/// without neighbors, no neighbors in any set
pub proof fn lemma_nbr_count_empty(adj: Seq<Seq<usize>>, v: usize, c: Set<usize>)
    requires
        adj[v as int].len() == 0,
    ensures
        nbr_count(adj, v, c) == 0,
{
    broadcast use vstd::set::group_set_axioms;

    assert(adj[v as int].to_set().intersect(c) =~= Set::<usize>::empty());
}

/// At the start every vertex with a neighbor is alive and counts all its neighbors, and
/// every set of the kind of the q-core (`q >= 1`) is alive.
pub proof fn lemma_counts_start(adj: Seq<Seq<usize>>, deg: Seq<usize>, q: nat)
    requires
        adj_wf(adj),
        deg.len() == adj.len(),
        forall|v: int| 0 <= v < adj.len() ==> #[trigger] deg[v] == adj[v].len(),
        q >= 1,
    ensures
        counts_alive(adj, deg),
        forall|c: Set<usize>| #[trigger] closed_core(adj, q, c) ==> c.subset_of(alive(deg)),
{
    broadcast use vstd::set::group_set_axioms;

    assert forall|v: usize|
        v < deg.len() && deg[v as int] > 0 implies #[trigger] deg[v as int] == nbr_count(
        adj,
        v,
        alive(deg),
    ) by {
        let nv = adj[v as int];
        assert(nv.to_set().intersect(alive(deg)) =~= nv.to_set()) by {
            assert forall|u: usize| nv.to_set().contains(u) implies alive(deg).contains(u) by {
                assert(nv.contains(u));
                let k = choose|k: int| 0 <= k < nv.len() && nv[k] == u;
                assert(adj[v as int][k] < adj.len());
                assert(adj[u as int].contains(v));
            }
        }
        nv.unique_seq_to_set();
    }
    assert forall|c: Set<usize>| #[trigger] closed_core(adj, q, c) implies c.subset_of(alive(deg)) by {
        assert forall|v: usize| c.contains(v) implies alive(deg).contains(v) by {
            if adj[v as int].len() == 0 {
                lemma_nbr_count_empty(adj, v, c);
            }
        }
    }
}

/// Removes the alive vertex `i`, whose counter is below `q`: the counters of its alive
/// neighbors go down by one, its own counter becomes zero.
fn remove_vertex<G: Searchable>(g: &G, deg: &mut Vec<usize>, i: usize, q: usize)
    requires
        g.searchable(),
        q >= 1,
        old(deg)@.len() == g.view_adj().len(),
        i < old(deg)@.len(),
        0 < old(deg)@[i as int] < q,
        counts_alive(g.view_adj(), old(deg)@),
        forall|c: Set<usize>| #[trigger] closed_core(g.view_adj(), q as nat, c) ==> c.subset_of(alive(old(deg)@)),
    ensures
        final(deg)@.len() == old(deg)@.len(),
        final(deg)@[i as int] == 0,
        counts_alive(g.view_adj(), final(deg)@),
        forall|c: Set<usize>| #[trigger] closed_core(g.view_adj(), q as nat, c) ==> c.subset_of(alive(final(deg)@)),
        alive(final(deg)@).subset_of(alive(old(deg)@).remove(i)),
{
    broadcast use vstd::set::group_set_axioms;

    proof {
        g.lemma_searchable();
    }
    let ghost adj = g.view_adj();
    let ghost deg0 = deg@;
    let ghost ai = adj[i as int];
    let n = g.node_count();
    let d = g.degree_of(i);
    let di = deg[i];
    proof {
        assert forall|v: usize|
            v < n && v != i && deg@[v as int] > 0 implies #[trigger] deg@[v as int] == nbr_count(
            adj,
            v,
            alive(deg@).remove(i),
        ) + (if occurs_from(ai, 0, v) {
            1int
        } else {
            0
        }) by {
            lemma_nbr_count_remove(adj, v, alive(deg@), i);
            if adj[v as int].contains(i) {
                let k = choose|k: int| 0 <= k < adj[v as int].len() && adj[v as int][k] == i;
                assert(adj[v as int][k] < n);
                assert(ai.contains(v));
                let j = choose|j: int| 0 <= j < ai.len() && ai[j] == v;
                assert(0 <= j < ai.len() && ai[j] == v);
            }
            if occurs_from(ai, 0, v) {
                let j = choose|j: int| 0 <= j < ai.len() && ai[j] == v;
                assert(ai.contains(v));
            }
        }
        assert forall|c: Set<usize>| #[trigger] closed_core(adj, q as nat, c) implies c.subset_of(
            alive(deg@).remove(i),
        ) by {
            if c.contains(i) {
                lemma_nbr_count_subset(adj, i, c, alive(deg@));
            }
        }
    }
    let mut j: usize = 0;
    while j < d
        invariant
            g.searchable(),
            adj == g.view_adj(),
            adj_wf(adj),
            n == adj.len(),
            q >= 1,
            i < n,
            ai == adj[i as int],
            d == ai.len(),
            j <= d,
            deg@.len() == n,
            deg@[i as int] == di,
            di > 0,
            forall|v: usize|
                v < n && v != i && deg@[v as int] > 0 ==> #[trigger] deg@[v as int] == nbr_count(
                    adj,
                    v,
                    alive(deg@).remove(i),
                ) + (if occurs_from(ai, j as int, v) {
                    1int
                } else {
                    0
                }),
            forall|c: Set<usize>| #[trigger] closed_core(adj, q as nat, c) ==> c.subset_of(alive(deg@).remove(i)),
            alive(deg@).subset_of(alive(deg0)),
        decreases d - j,
    {
        let u = g.neighbor_of(i, j);
        proof {
            assert(ai[j as int] == u);
            assert(u < n && u != i);
            assert(occurs_from(ai, j as int, u));
            assert forall|x: usize| #[trigger] occurs_from(ai, j as int + 1, x) <==> (occurs_from(
                ai,
                j as int,
                x,
            ) && x != u) by {
                if occurs_from(ai, j as int, x) && x != u {
                    let k = choose|k: int| j <= k < ai.len() && ai[k] == x;
                    assert(k != j);
                }
                if occurs_from(ai, j as int + 1, x) {
                    let k = choose|k: int| j + 1 <= k < ai.len() && ai[k] == x;
                    assert(k != j);
                }
            }
        }
        if deg[u] > 0 {
            let ghost a0 = alive(deg@);
            let ghost dg0 = deg@;
            let du = deg[u];
            deg.set(u, du - 1);
            proof {
                assert(dg0[u as int] == nbr_count(adj, u, a0.remove(i)) + 1);
                if du - 1 > 0 {
                    assert(alive(deg@) =~= a0);
                } else {
                    assert(alive(deg@) =~= a0.remove(u));
                    assert(alive(deg@).remove(i) =~= a0.remove(i).remove(u));
                    assert forall|v: usize|
                        v < n && v != i && deg@[v as int] > 0 implies #[trigger] deg@[v as int]
                        == nbr_count(adj, v, alive(deg@).remove(i)) + (if occurs_from(
                        ai,
                        j as int + 1,
                        v,
                    ) {
                        1int
                    } else {
                        0
                    }) by {
                        lemma_nbr_count_remove(adj, v, a0.remove(i), u);
                        if adj[v as int].contains(u) {
                            let k = choose|k: int| 0 <= k < adj[v as int].len() && adj[v as int][k] == u;
                            assert(adj[v as int][k] < n);
                            assert(adj[u as int].contains(v));
                            assert(a0.remove(i).contains(v));
                            lemma_nbr_count_pos(adj, u, a0.remove(i), v);
                        }
                        assert(dg0[v as int] == deg@[v as int]);
                    }
                    assert forall|c: Set<usize>| #[trigger] closed_core(adj, q as nat, c) implies c.subset_of(
                        alive(deg@).remove(i),
                    ) by {
                        if c.contains(u) {
                            lemma_nbr_count_subset(adj, u, c, a0.remove(i));
                        }
                    }
                }
            }
        }
        j = j + 1;
    }
    let ghost a1 = alive(deg@);
    deg.set(i, 0);
    proof {
        assert(alive(deg@) =~= a1.remove(i));
        assert(alive(deg@).remove(i) =~= alive(deg@));
        assert forall|v: usize| v < n && deg@[v as int] > 0 implies #[trigger] deg@[v as int] == nbr_count(
            adj,
            v,
            alive(deg@),
        ) by {
            assert(!occurs_from(ai, d as int, v));
        }
    }
}

/// Peels the graph: as long as some alive vertex has fewer than `q` alive neighbors, it
/// is removed. The vertices left alive are the q-core.
fn peel<G: Searchable>(g: &G, q: usize) -> (deg: Vec<usize>)
    requires
        g.searchable(),
        q >= 1,
    ensures
        deg@.len() == g.view_adj().len(),
        is_q_core(g.view_adj(), q as nat, alive(deg@)),
{
    broadcast use vstd::set::group_set_axioms;

    proof {
        g.lemma_searchable();
    }
    let ghost adj = g.view_adj();
    let n = g.node_count();
    let mut deg: Vec<usize> = Vec::with_capacity(n);
    let mut v: usize = 0;
    while v < n
        invariant
            g.searchable(),
            adj == g.view_adj(),
            n == adj.len(),
            v <= n,
            deg@.len() == v,
            forall|w: int| 0 <= w < v ==> #[trigger] deg@[w] == adj[w].len(),
        decreases n - v,
    {
        let dv = g.degree_of(v);
        deg.push(dv);
        v = v + 1;
    }
    proof {
        lemma_counts_start(adj, deg@, q as nat);
    }
    let mut changed = true;
    while changed
        invariant
            g.searchable(),
            adj == g.view_adj(),
            adj_wf(adj),
            n == adj.len(),
            n <= usize::MAX,
            q >= 1,
            deg@.len() == n,
            counts_alive(adj, deg@),
            forall|c: Set<usize>| #[trigger] closed_core(adj, q as nat, c) ==> c.subset_of(alive(deg@)),
            !changed ==> forall|w: usize| w < n ==> #[trigger] deg@[w as int] == 0 || deg@[w as int] >= q,
        decreases alive(deg@).len() + (if changed {
            1int
        } else {
            0
        }),
    {
        changed = false;
        let ghost a_start = alive(deg@);
        let ghost d_start = deg@;
        proof {
            lemma_alive_finite(deg@);
        }
        let mut i: usize = 0;
        while i < n
            invariant
                g.searchable(),
                adj == g.view_adj(),
                adj_wf(adj),
                n == adj.len(),
                n <= usize::MAX,
                q >= 1,
                i <= n,
                deg@.len() == n,
                counts_alive(adj, deg@),
                forall|c: Set<usize>| #[trigger] closed_core(adj, q as nat, c) ==> c.subset_of(alive(deg@)),
                a_start.finite(),
                alive(deg@).subset_of(a_start),
                changed ==> alive(deg@).len() < a_start.len(),
                !changed ==> deg@ == d_start,
                !changed ==> forall|w: usize| w < i ==> #[trigger] deg@[w as int] == 0 || deg@[w as int] >= q,
            decreases n - i,
        {
            if deg[i] != 0 && deg[i] < q {
                let ghost a0 = alive(deg@);
                remove_vertex(g, &mut deg, i, q);
                proof {
                    lemma_alive_finite(deg@);
                    assert(a0.contains(i));
                    vstd::set_lib::lemma_len_subset(alive(deg@), a0.remove(i));
                    vstd::set_lib::lemma_len_subset(a0, a_start);
                }
                changed = true;
            }
            i = i + 1;
        }
        proof {
            lemma_alive_finite(deg@);
        }
    }
    proof {
        assert forall|w: usize| #[trigger] alive(deg@).contains(w) implies nbr_count(adj, w, alive(deg@))
            >= q by {
            assert(deg@[w as int] >= q);
        }
    }
    deg
}

/// `p` is a walk that stays inside the set `k`
pub open spec fn walk_in(adj: Seq<Seq<usize>>, k: Set<usize>, p: Seq<usize>) -> bool {
    &&& is_walk(adj, p)
    &&& forall|i: int| 0 <= i < p.len() ==> k.contains(#[trigger] p[i])
}

/// there is a walk from `s` to `t` inside the set `k`
pub open spec fn reachable_in(adj: Seq<Seq<usize>>, k: Set<usize>, s: usize, t: usize) -> bool {
    exists|p: Seq<usize>| walk_in(adj, k, p) && p[0] == s && p.last() == t
}

/// `h` holds the edges of `adj` between vertices of `k`, each list without repetitions
pub open spec fn is_induced(adj: Seq<Seq<usize>>, k: Set<usize>, h: Seq<Seq<usize>>) -> bool {
    &&& h.len() == adj.len()
    &&& forall|i: int| 0 <= i < h.len() ==> (#[trigger] h[i]).no_duplicates()
    &&& forall|i: usize, x: usize|
        i < h.len() ==> (#[trigger] h[i as int].contains(x) <==> (k.contains(i) && k.contains(x)
            && adj[i as int].contains(x)))
}

/// an induced subgraph of a well formed graph is well formed, and reaching a vertex in it
/// is reaching it inside `k`
pub proof fn lemma_induced(adj: Seq<Seq<usize>>, k: Set<usize>, h: Seq<Seq<usize>>)
    requires
        adj_wf(adj),
        adj.len() <= usize::MAX,
        is_induced(adj, k, h),
    ensures
        adj_wf(h),
        forall|s: usize, t: usize|
            k.contains(s) ==> (#[trigger] reachable(h, s, t) <==> reachable_in(adj, k, s, t)),
{
    assert forall|i: int, j: int| 0 <= i < h.len() && 0 <= j < h[i].len() implies #[trigger] h[i][j]
        < h.len() && h[i][j] != i by {
        let x = h[i][j];
        assert(h[i].contains(h[i][j]));
        assert(h[i as usize as int].contains(x));
        assert(adj[i].contains(x));
        let q = choose|q: int| 0 <= q < adj[i].len() && adj[i][q] == x;
        assert(adj[i][q] < adj.len() && adj[i][q] != i);
    }
    assert forall|i: usize, j: usize| i < h.len() && #[trigger] h[i as int].contains(j) implies h[j
        as int].contains(i) by {
        let q = choose|q: int| 0 <= q < adj[i as int].len() && adj[i as int][q] == j;
        assert(adj[i as int][q] < adj.len());
        assert(adj[j as int].contains(i));
    }
    assert forall|s: usize, t: usize| k.contains(s) implies (#[trigger] reachable(h, s, t)
        <==> reachable_in(adj, k, s, t)) by {
        if reachable(h, s, t) {
            let p = choose|p: Seq<usize>| is_walk(h, p) && p[0] == s && p.last() == t;
            assert forall|i: int| 0 <= i < p.len() implies k.contains(#[trigger] p[i]) by {
                if i > 0 {
                    assert(h[p[i - 1] as int].contains(p[i]));
                }
            }
            assert forall|i: int| 0 <= i < p.len() - 1 implies adj[#[trigger] p[i] as int].contains(
                p[i + 1],
            ) by {
                assert(h[p[i] as int].contains(p[i + 1]));
            }
            assert(walk_in(adj, k, p));
        }
        if reachable_in(adj, k, s, t) {
            let p = choose|p: Seq<usize>| walk_in(adj, k, p) && p[0] == s && p.last() == t;
            assert forall|i: int| 0 <= i < p.len() implies #[trigger] p[i] < h.len() by {}
            assert forall|i: int| 0 <= i < p.len() - 1 implies h[#[trigger] p[i] as int].contains(
                p[i + 1],
            ) by {
                assert(k.contains(p[i]) && k.contains(p[i + 1]));
                assert(adj[p[i] as int].contains(p[i + 1]));
            }
            assert(is_walk(h, p));
        }
    }
}

/// A graph given by plain adjacency lists, such as the subgraph induced by the q-core
pub(crate) struct InducedGraph {
    lists: Vec<Vec<usize>>,
}

impl Searchable for InducedGraph {
    closed spec fn view_adj(&self) -> Seq<Seq<usize>> {
        self.lists@.map_values(|l: Vec<usize>| l@)
    }

    closed spec fn searchable(&self) -> bool {
        adj_wf(self.view_adj()) && self.lists@.len() <= usize::MAX
    }

    proof fn lemma_searchable(&self) {
    }

    fn node_count(&self) -> (r: usize) {
        self.lists.len()
    }

    fn degree_of(&self, v: usize) -> (r: usize) {
        self.lists[v].len()
    }

    fn neighbor_of(&self, v: usize, k: usize) -> (r: usize) {
        self.lists[v][k]
    }
}

/// the subgraph induced by the alive vertices
pub(crate) fn induced_graph<G: Searchable>(g: &G, deg: &Vec<usize>) -> (h: InducedGraph)
    requires
        g.searchable(),
        deg@.len() == g.view_adj().len(),
    ensures
        h.searchable(),
        is_induced(g.view_adj(), alive(deg@), h.view_adj()),
{
    proof {
        g.lemma_searchable();
    }
    let ghost adj = g.view_adj();
    let ghost k = alive(deg@);
    let n = g.node_count();
    let mut lists: Vec<Vec<usize>> = Vec::with_capacity(n);
    let mut i: usize = 0;
    while i < n
        invariant
            g.searchable(),
            adj == g.view_adj(),
            adj_wf(adj),
            n == adj.len(),
            deg@.len() == n,
            k == alive(deg@),
            i <= n,
            lists@.len() == i,
            forall|p: int| 0 <= p < i ==> (#[trigger] lists@[p])@.no_duplicates(),
            forall|p: usize, x: usize|
                p < i ==> (#[trigger] lists@[p as int]@.contains(x) <==> (k.contains(p) && k.contains(x)
                    && adj[p as int].contains(x))),
        decreases n - i,
    {
        let mut l: Vec<usize> = Vec::new();
        if deg[i] > 0 {
            let d = g.degree_of(i);
            let mut j: usize = 0;
            while j < d
                invariant
                    g.searchable(),
                    adj == g.view_adj(),
                    adj_wf(adj),
                    n == adj.len(),
                    deg@.len() == n,
                    k == alive(deg@),
                    i < n,
                    d == adj[i as int].len(),
                    j <= d,
                    l@.no_duplicates(),
                    forall|x: usize|
                        #[trigger] l@.contains(x) <==> (adj[i as int].take(j as int).contains(x) && k.contains(x)),
                decreases d - j,
            {
                let w = g.neighbor_of(i, j);
                proof {
                    assert(adj[i as int][j as int] == w);
                    assert(w < n);
                    assert(adj[i as int].take(j as int + 1) == adj[i as int].take(j as int).push(w));
                    assert(!adj[i as int].take(j as int).contains(w)) by {
                        if adj[i as int].take(j as int).contains(w) {
                            let q = choose|q: int| 0 <= q < j && adj[i as int].take(j as int)[q] == w;
                            assert(adj[i as int][q] == adj[i as int][j as int]);
                        }
                    }
                }
                if deg[w] > 0 {
                    let ghost l0 = l@;
                    l.push(w);
                    proof {
                        lemma_push_no_dup(l0, w);
                        assert forall|x: usize| #[trigger] l@.contains(x) <==> (adj[i as int].take(
                            j as int + 1,
                        ).contains(x) && k.contains(x)) by {
                            lemma_push_contains_one(l0, w, x);
                            lemma_push_contains_one(adj[i as int].take(j as int), w, x);
                        }
                    }
                } else {
                    proof {
                        assert forall|x: usize| #[trigger] l@.contains(x) <==> (adj[i as int].take(
                            j as int + 1,
                        ).contains(x) && k.contains(x)) by {
                            lemma_push_contains_one(adj[i as int].take(j as int), w, x);
                        }
                    }
                }
                j = j + 1;
            }
            proof {
                assert(adj[i as int].take(d as int) == adj[i as int]);
            }
        }
        let ghost ls0 = lists@;
        lists.push(l);
        proof {
            assert forall|p: usize, x: usize|
                p < i + 1 implies (#[trigger] lists@[p as int]@.contains(x) <==> (k.contains(p) && k.contains(
                x,
            ) && adj[p as int].contains(x))) by {
                if p < i {
                    assert(lists@[p as int] == ls0[p as int]);
                }
            }
            assert forall|p: int| 0 <= p < i + 1 implies (#[trigger] lists@[p])@.no_duplicates() by {
                if p < i {
                    assert(lists@[p] == ls0[p]);
                }
            }
        }
        i = i + 1;
    }
    let h = InducedGraph { lists };
    proof {
        assert(is_induced(adj, k, h.view_adj()));
        lemma_induced(adj, k, h.view_adj());
    }
    h
}

/// the alive vertices below `i`
spec fn alive_below(deg: Seq<usize>, i: int) -> Set<usize> {
    Set::new(|v: usize| v < i && v < deg.len() && deg[v as int] > 0)
}

/// the number of vertices whose counter is not zero
fn count_alive(deg: &Vec<usize>) -> (r: usize)
    ensures
        r == alive(deg@).len(),
{
    broadcast use vstd::set::group_set_axioms;

    let n = deg.len();
    let mut count: usize = 0;
    let mut i: usize = 0;
    proof {
        assert(alive_below(deg@, 0) =~= Set::<usize>::empty());
    }
    while i < n
        invariant
            n == deg@.len(),
            i <= n,
            alive_below(deg@, i as int).finite(),
            count == alive_below(deg@, i as int).len(),
            count <= i,
        decreases n - i,
    {
        let ghost before = alive_below(deg@, i as int);
        if deg[i] > 0 {
            proof {
                assert(alive_below(deg@, i + 1) =~= before.insert(i));
                assert(!before.contains(i));
            }
            count = count + 1;
        } else {
            proof {
                assert(alive_below(deg@, i + 1) =~= before);
            }
        }
        i = i + 1;
    }
    proof {
        assert(alive_below(deg@, n as int) =~= alive(deg@));
    }
    count
}

impl<T, A: AdjContainer<T>> GenericGraph<T, A> {
    /// # definition
    /// Calculates the size of the **q-core** (i.e. number of nodes in the biggest possible
    /// set of nodes, where all nodes from the set are connected with at least `q` other
    /// nodes from the set)
    ///
    /// returns `None` if impossible to calculate (e.g. `vertex_count == 0` or `q <= 1`)
    pub fn q_core(&self, q: usize) -> (r: Option<usize>)
        requires
            self.wf(),
        ensures
            r.is_none() <==> (q < 2 || self.spec_vertex_count() == 0),
            r matches Some(size) ==> exists|k: Set<usize>|
                #[trigger] is_q_core(self.spec_adj(), q as nat, k) && k.finite() && k.len() == size,
    {
        if q < 2 || self.vertex_count() == 0 {
            return None;
        }
        let deg = peel(self, q);
        let size = count_alive(&deg);
        proof {
            lemma_alive_finite(deg@);
            assert(is_q_core(self.spec_adj(), q as nat, alive(deg@)));
        }
        Some(size)
    }
}

/// The q-core is unique: two sets that are both the q-core are the same set.
pub proof fn lemma_q_core_unique(adj: Seq<Seq<usize>>, q: nat, k1: Set<usize>, k2: Set<usize>)
    requires
        is_q_core(adj, q, k1),
        is_q_core(adj, q, k2),
    ensures
        k1 == k2,
{
    assert(k1.subset_of(k2));
    assert(k2.subset_of(k1));
    assert(k1 =~= k2);
}

} // verus!
