//! The edges of a graph as a list of index pairs, each edge once, in the order in which
//! the dot output lists them.
use vstd::prelude::*;
use crate::traits::AdjContainer;
use crate::generic_graph::GenericGraph;
use crate::graph_spec::is_edge;

verus! {

/// the pairs `(i, j)` with `i < j` for the first `k` entries `j` of the list of `i`
pub open spec fn upper_pairs_of(adj: Seq<Seq<usize>>, i: usize, k: int) -> Seq<(usize, usize)>
    decreases k,
{
    if k <= 0 {
        Seq::empty()
    } else {
        let p = upper_pairs_of(adj, i, k - 1);
        let j = adj[i as int][k - 1];
        if i < j {
            p.push((i, j))
        } else {
            p
        }
    }
}

/// the pairs `(i, j)` with `i < j` of the lists of the first `u` vertices, vertex by
/// vertex, each list in its order
pub open spec fn upper_pairs(adj: Seq<Seq<usize>>, u: int) -> Seq<(usize, usize)>
    decreases u,
{
    if u <= 0 {
        Seq::empty()
    } else {
        upper_pairs(adj, u - 1) + upper_pairs_of(adj, (u - 1) as usize, adj[u - 1].len() as int)
    }
}

proof fn lemma_pairs_of_contains(adj: Seq<Seq<usize>>, i: usize, k: int, a: usize, b: usize)
    requires
        0 <= k <= adj[i as int].len(),
    ensures
        upper_pairs_of(adj, i, k).contains((a, b)) <==> (a == i && a < b && adj[i as int].take(k).contains(b)),
    decreases k,
{
    if k > 0 {
        lemma_pairs_of_contains(adj, i, k - 1, a, b);
        let j = adj[i as int][k - 1];
        let t = adj[i as int].take(k);
        assert(t == adj[i as int].take(k - 1).push(j));
        crate::graph_spec::lemma_push_contains_one(adj[i as int].take(k - 1), j, b);
        let p = upper_pairs_of(adj, i, k - 1);
        if i < j {
            assert(p.push((i, j)).contains((a, b)) <==> (p.contains((a, b)) || (a, b) == (i, j))) by {
                if p.push((i, j)).contains((a, b)) {
                    let q = choose|q: int| 0 <= q < p.len() + 1 && #[trigger] p.push((i, j))[q] == (a, b);
                    if q < p.len() {
                        assert(p[q] == (a, b));
                    }
                }
                if p.contains((a, b)) {
                    let q = choose|q: int| 0 <= q < p.len() && #[trigger] p[q] == (a, b);
                    assert(p.push((i, j))[q] == (a, b));
                }
                assert(p.push((i, j))[p.len() as int] == (i, j));
            }
        }
    } else {
        assert(adj[i as int].take(0).len() == 0);
    }
}

proof fn lemma_pairs_contains(adj: Seq<Seq<usize>>, u: int, a: usize, b: usize)
    requires
        0 <= u <= adj.len(),
        adj.len() <= usize::MAX,
    ensures
        upper_pairs(adj, u).contains((a, b)) <==> (a < u && a < b && adj[a as int].contains(b)),
    decreases u,
{
    if u > 0 {
        lemma_pairs_contains(adj, u - 1, a, b);
        let i = (u - 1) as usize;
        let l = adj[u - 1].len() as int;
        lemma_pairs_of_contains(adj, i, l, a, b);
        assert(adj[u - 1].take(l) == adj[u - 1]);
        let p = upper_pairs(adj, u - 1);
        let s = upper_pairs_of(adj, i, l);
        assert((p + s).contains((a, b)) <==> (p.contains((a, b)) || s.contains((a, b)))) by {
            if (p + s).contains((a, b)) {
                let q = choose|q: int| 0 <= q < (p + s).len() && #[trigger] (p + s)[q] == (a, b);
                if q < p.len() {
                    assert(p[q] == (a, b));
                } else {
                    assert(s[q - p.len()] == (a, b));
                }
            }
            if p.contains((a, b)) {
                let q = choose|q: int| 0 <= q < p.len() && #[trigger] p[q] == (a, b);
                assert((p + s)[q] == (a, b));
            }
            if s.contains((a, b)) {
                let q = choose|q: int| 0 <= q < s.len() && #[trigger] s[q] == (a, b);
                assert((p + s)[q + p.len()] == (a, b));
            }
        }
    }
}

impl<T, A: AdjContainer<T>> GenericGraph<T, A> {
    /// # The edges as index pairs
    /// * each edge once, as `(i, j)` with `i < j`
    /// * ordered by `i`, and for each `i` in the order of its adjacency list
    pub fn edge_list(&self) -> (r: Vec<(usize, usize)>)
        requires
            self.wf(),
        ensures
            r@ == upper_pairs(self.spec_adj(), self.spec_vertex_count() as int),
            forall|a: usize, b: usize| #[trigger] r@.contains((a, b)) <==> (a < b && is_edge(self.spec_adj(), a, b)),
    {
        let ghost adj = self.spec_adj();
        let n = self.vertex_count();
        let mut r: Vec<(usize, usize)> = Vec::new();
        let mut i: usize = 0;
        while i < n
            invariant
                self.wf(),
                adj == self.spec_adj(),
                n == adj.len(),
                i <= n,
                r@ == upper_pairs(adj, i as int),
            decreases n - i,
        {
            let d = self.container(i).degree();
            let ghost before = r@;
            let mut k: usize = 0;
            while k < d
                invariant
                    self.wf(),
                    adj == self.spec_adj(),
                    n == adj.len(),
                    i < n,
                    d == adj[i as int].len(),
                    k <= d,
                    r@ == before + upper_pairs_of(adj, i, k as int),
                decreases d - k,
            {
                let j = self.container(i).neighbor_at(k);
                if i < j {
                    r.push((i, j));
                }
                proof {
                    let s = upper_pairs_of(adj, i, k as int);
                    if i < j {
                        assert(before + s.push((i, j)) =~= (before + s).push((i, j)));
                    }
                }
                k = k + 1;
            }
            i = i + 1;
        }
        proof {
            assert forall|a: usize, b: usize| #[trigger] r@.contains((a, b)) <==> (a < b && is_edge(adj, a, b)) by {
                lemma_pairs_contains(adj, n as int, a, b);
            }
        }
        r
    }
}

} // verus!
