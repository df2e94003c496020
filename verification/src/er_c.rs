//! What a Markov step of an Erdős-Rényi ensemble with a target connectivity did
use vstd::prelude::*;
use crate::traits::{GraphErrors, AdjContainer};
use crate::generic_graph::GenericGraph;
use crate::graph_spec::{
    adj_wf, is_edge, is_walk, reachable, added_edge, removed_edge, lemma_add_edge, lemma_remove_edge,
    lemma_add_remove_inverse, lemma_reachable_refl, lemma_reachable_step, lemma_reachable_sym,
    lemma_reachable_trans, lemma_push_contains_one,
};
use crate::search::{component_minima, is_min_vertex, lemma_mins_upto};
use crate::seq_util::lemma_cover;

verus! {

/// # Returned by markov steps
#[derive(Debug, Clone, Copy)]
pub enum ErStepC {
    /// nothing was changed
    Nothing,
    /// an edge was added
    AddedEdge((usize, usize)),
    /// an edge was removed
    RemovedEdge((usize, usize)),
    /// a GraphError occured and is wrapped here
    GError(GraphErrors),
}

impl ErStepC {
    /// `true` if `self` is not `GError` variant
    pub fn is_valid(&self) -> (r: bool)
        ensures
            r <==> !(*self is GError),
    {
        match self {
            ErStepC::GError(_) => false,
            _ => true,
        }
    }

    /// checks that `self` is not the `GError` variant, which the caller must rule out
    pub fn valid_or_panic(&self)
        requires
            !(*self is GError),
    {
        match self {
            ErStepC::GError(_) => {
                assert(false);
            },
            _ => {},
        }
    }

    /// checks that `self` is not the `GError` variant, which the caller must rule out;
    /// `msg` names the place of the check
    pub fn valid_or_panic_msg(&self, msg: &str)
        requires
            !(*self is GError),
    {
        match self {
            ErStepC::GError(_) => {
                assert(false);
            },
            _ => {},
        }
    }
}

impl<T, A: AdjContainer<T>> GenericGraph<T, A> {
    /// The Markov step of the Erdős-Rényi ensemble with a target connectivity, once its
    /// random draws are made: the edge `edge` is added if `add`, else removed.
    /// * `AddedEdge(edge)` or `RemovedEdge(edge)` if the graph changed,
    /// `Nothing` if the edge was already there (or not there)
    pub fn er_c_step(&mut self, edge: (usize, usize), add: bool) -> (r: ErStepC)
        requires
            old(self).wf(),
            edge.0 < old(self).spec_vertex_count(),
            edge.1 < old(self).spec_vertex_count(),
            edge.0 != edge.1,
            old(self).view_edge_count() < usize::MAX,
        ensures
            final(self).wf(),
            final(self).spec_contained() == old(self).spec_contained(),
            add && !old(self).spec_adj()[edge.0 as int].contains(edge.1) ==> r == ErStepC::AddedEdge(edge)
                && final(self).spec_adj() == added_edge(old(self).spec_adj(), edge.0, edge.1),
            !add && old(self).spec_adj()[edge.0 as int].contains(edge.1) ==> r == ErStepC::RemovedEdge(edge)
                && final(self).spec_adj() == removed_edge(old(self).spec_adj(), edge.0, edge.1),
            add == old(self).spec_adj()[edge.0 as int].contains(edge.1) ==> r == ErStepC::Nothing
                && final(self).spec_adj() == old(self).spec_adj(),
    {
        if add {
            match self.add_edge(edge.0, edge.1) {
                Ok(_) => ErStepC::AddedEdge(edge),
                Err(_) => ErStepC::Nothing,
            }
        } else {
            match self.remove_edge(edge.0, edge.1) {
                Ok(_) => ErStepC::RemovedEdge(edge),
                Err(_) => ErStepC::Nothing,
            }
        }
    }

    /// Undoes a Markov step of the Erdős-Rényi ensemble with a target connectivity
    /// * an added edge is removed, a removed edge is added again; the result says which
    /// * `GError` if that fails; `Nothing` and `GError` are handed back unchanged
    pub fn er_c_undo_step(&mut self, step: ErStepC) -> (r: ErStepC)
        requires
            old(self).wf(),
            step matches ErStepC::AddedEdge(e) ==> e.0 < old(self).spec_vertex_count() && e.1 < old(
                self,
            ).spec_vertex_count() && e.0 != e.1,
            step matches ErStepC::RemovedEdge(e) ==> e.0 < old(self).spec_vertex_count() && e.1 < old(
                self,
            ).spec_vertex_count() && e.0 != e.1 && old(self).view_edge_count() < usize::MAX,
        ensures
            final(self).wf(),
            final(self).spec_contained() == old(self).spec_contained(),
            step matches ErStepC::AddedEdge(e) ==> if old(self).spec_adj()[e.0 as int].contains(e.1) {
                r == ErStepC::RemovedEdge(e) && final(self).spec_adj() == removed_edge(
                    old(self).spec_adj(),
                    e.0,
                    e.1,
                )
            } else {
                r == ErStepC::GError(GraphErrors::EdgeDoesNotExist) && final(self).spec_adj()
                    == old(self).spec_adj()
            },
            step matches ErStepC::RemovedEdge(e) ==> if !old(self).spec_adj()[e.0 as int].contains(e.1) {
                r == ErStepC::AddedEdge(e) && final(self).spec_adj() == added_edge(
                    old(self).spec_adj(),
                    e.0,
                    e.1,
                )
            } else {
                r == ErStepC::GError(GraphErrors::EdgeExists) && final(self).spec_adj() == old(
                    self,
                ).spec_adj()
            },
            (step is Nothing || step is GError) ==> r == step && final(self).spec_adj() == old(
                self,
            ).spec_adj(),
    {
        match step {
            ErStepC::AddedEdge(edge) => {
                match self.remove_edge(edge.0, edge.1) {
                    Err(err) => ErStepC::GError(err),
                    Ok(_) => ErStepC::RemovedEdge(edge),
                }
            },
            ErStepC::RemovedEdge(edge) => {
                match self.add_edge(edge.0, edge.1) {
                    Err(err) => ErStepC::GError(err),
                    Ok(_) => ErStepC::AddedEdge(edge),
                }
            },
            ErStepC::Nothing => step,
            ErStepC::GError(_) => step,
        }
    }
}

/// Undoing a Markov step of the ensemble with a target connectivity gives back the edges
/// of the graph: the edge state before the step and after its undo agree.
pub proof fn lemma_er_c_undo(adj: Seq<Seq<usize>>, edge: (usize, usize))
    requires
        adj_wf(adj),
        edge.0 < adj.len(),
        edge.1 < adj.len(),
        edge.0 != edge.1,
    ensures
        !adj[edge.0 as int].contains(edge.1) ==> forall|a: usize, b: usize|
            #[trigger] is_edge(removed_edge(added_edge(adj, edge.0, edge.1), edge.0, edge.1), a, b)
                <==> is_edge(adj, a, b),
        adj[edge.0 as int].contains(edge.1) ==> forall|a: usize, b: usize|
            #[trigger] is_edge(added_edge(removed_edge(adj, edge.0, edge.1), edge.0, edge.1), a, b)
                <==> is_edge(adj, a, b),
        !adj[edge.0 as int].contains(edge.1) ==> added_edge(adj, edge.0, edge.1)[edge.0 as int].contains(edge.1),
        adj[edge.0 as int].contains(edge.1) ==> !removed_edge(adj, edge.0, edge.1)[edge.0 as int].contains(edge.1),
{
    lemma_add_remove_inverse(adj, edge.0, edge.1);
    if !adj[edge.0 as int].contains(edge.1) {
        lemma_add_edge(adj, edge.0, edge.1);
        assert(is_edge(added_edge(adj, edge.0, edge.1), edge.0, edge.1));
    } else {
        lemma_remove_edge(adj, edge.0, edge.1);
        assert(!is_edge(removed_edge(adj, edge.0, edge.1), edge.0, edge.1));
    }
}

/// adding an edge keeps every walk a walk
pub proof fn lemma_reachable_added(adj: Seq<Seq<usize>>, i: usize, j: usize, s: usize, t: usize)
    requires
        i < adj.len(),
        j < adj.len(),
        reachable(adj, s, t),
    ensures
        reachable(added_edge(adj, i, j), s, t),
{
    let a2 = added_edge(adj, i, j);
    let p = choose|p: Seq<usize>| is_walk(adj, p) && p[0] == s && p.last() == t;
    assert forall|k: int| 0 <= k < p.len() - 1 implies a2[#[trigger] p[k] as int].contains(p[k + 1]) by {
        assert(adj[p[k] as int].contains(p[k + 1]));
        let q = choose|q: int| 0 <= q < adj[p[k] as int].len() && adj[p[k] as int][q] == p[k + 1];
        if p[k] == j {
            assert(a2[p[k] as int] == adj[j as int].push(i));
            assert(a2[p[k] as int][q] == p[k + 1]);
        } else if p[k] == i {
            assert(a2[p[k] as int] == adj[i as int].push(j));
            assert(a2[p[k] as int][q] == p[k + 1]);
        }
    }
    assert(is_walk(a2, p));
}

impl<T, A: AdjContainer<T>> GenericGraph<T, A> {
    /// # Connects the connected components
    /// The smallest vertices of the components, taken from the last to the first, are
    /// joined each to the next by a new edge; afterwards every vertex reaches every other.
    pub fn make_connected(&mut self)
        requires
            old(self).wf(),
            old(self).spec_vertex_count() >= 1,
            old(self).spec_vertex_count() <= isize::MAX,
            old(self).view_edge_count() + old(self).spec_vertex_count() <= usize::MAX,
        ensures
            final(self).wf(),
            final(self).spec_vertex_count() == old(self).spec_vertex_count(),
            final(self).spec_contained() == old(self).spec_contained(),
            forall|s: usize, t: usize|
                s < final(self).spec_vertex_count() && t < final(self).spec_vertex_count() ==> #[trigger] reachable(
                    final(self).spec_adj(),
                    s,
                    t,
                ),
            forall|a: usize, b: usize|
                is_edge(old(self).spec_adj(), a, b) ==> #[trigger] is_edge(final(self).spec_adj(), a, b),
            forall|a: usize, b: usize|
                #[trigger] is_edge(final(self).spec_adj(), a, b) && !is_edge(old(self).spec_adj(), a, b) ==> !reachable(
                    old(self).spec_adj(),
                    a,
                    b,
                ),
            final(self).view_edge_count() == old(self).view_edge_count() + component_minima(old(self).spec_adj()).len()
                - 1,
    {
        let ghost adj0 = self.spec_adj();
        let n = self.vertex_count();
        let (num, ids, mins) = self.components_with_minima();
        let ghost m = mins@;
        proof {
            lemma_mins_upto(adj0, n as nat);
            lemma_cover(m, n as nat);
        }
        let mut suggestions = mins;
        proof {
            assert(is_min_vertex(adj0, 0));
            assert(m.contains(0));
        }
        let mut last = suggestions.pop().unwrap();
        let ghost e0 = self.view_edge_count();
        proof {
            assert(suggestions@ == m.take(m.len() - 1));
            lemma_reachable_refl(adj0, last);
            assert forall|y: int| 0 <= y < n implies #[trigger] self.spec_adj()[y] == adj0[y] by {}
        }
        while suggestions.len() > 0
            invariant
                self.wf(),
                self.spec_vertex_count() == n,
                self.spec_contained() == old(self).spec_contained(),
                adj_wf(adj0),
                n == adj0.len(),
                m == component_minima(adj0),
                m.len() <= n,
                forall|a: int, b: int| 0 <= a < b < m.len() ==> m[a] < m[b],
                forall|a: int| 0 <= a < m.len() ==> #[trigger] m[a] < n,
                forall|v: usize| #[trigger] m.contains(v) <==> (v < n && is_min_vertex(adj0, v)),
                suggestions@ == m.take(suggestions@.len() as int),
                suggestions@.len() < m.len(),
                last == m[suggestions@.len() as int],
                self.view_edge_count() == e0 + (m.len() - 1 - suggestions@.len()),
                e0 + n <= usize::MAX,
                ids@.len() == n,
                forall|v: int| 0 <= v < n ==> 0 <= #[trigger] ids@[v] < m.len() && reachable(self.spec_adj(), m[ids@[v] as int], v as usize),
                forall|a: int| suggestions@.len() <= a < m.len() ==> #[trigger] reachable(self.spec_adj(), last, m[a]),
                forall|y: int|
                    0 <= y < n && !m.subrange(suggestions@.len() as int, m.len() as int).contains(y as usize)
                        ==> #[trigger] self.spec_adj()[y] == adj0[y],
                forall|a: usize, b: usize| is_edge(adj0, a, b) ==> #[trigger] is_edge(self.spec_adj(), a, b),
                forall|a: usize, b: usize|
                    #[trigger] is_edge(self.spec_adj(), a, b) && !is_edge(adj0, a, b) ==> !reachable(adj0, a, b),
            decreases suggestions@.len(),
        {
            let ghost s0 = suggestions@;
            let ghost adj1 = self.spec_adj();
            let suggestion = suggestions.pop().unwrap();
            let ghost r = suggestions@.len() as int;
            proof {
                assert(s0 == suggestions@.push(suggestion));
                assert(suggestion == m[r]);
                assert(suggestions@ == m.take(r));
                assert(m[r] < m[r + 1]);
                assert(m.contains(m[r]));
                assert(m.contains(m[r + 1]));
                assert(!m.subrange(r + 1, m.len() as int).contains(suggestion)) by {
                    if m.subrange(r + 1, m.len() as int).contains(suggestion) {
                        let q = choose|q: int| 0 <= q < m.subrange(r + 1, m.len() as int).len()
                            && #[trigger] m.subrange(r + 1, m.len() as int)[q] == suggestion;
                        assert(m[r + 1 + q] == m[r]);
                    }
                }
                assert(adj1[suggestion as int] == adj0[suggestion as int]);
                // the smallest vertices of two components are not joined by an edge
                assert(!adj1[suggestion as int].contains(last)) by {
                    if adj0[suggestion as int].contains(last) {
                        lemma_reachable_refl(adj0, suggestion);
                        lemma_reachable_step(adj0, suggestion, suggestion, last);
                        assert(is_min_vertex(adj0, last));
                    }
                }
                assert(!adj1[last as int].contains(suggestion));
                assert(last != suggestion);
                assert(!reachable(adj0, suggestion, last));
                if reachable(adj0, last, suggestion) {
                    lemma_reachable_sym(adj0, last, suggestion);
                }
            }
            let res = self.add_edge(last, suggestion);
            proof {
                let adj2 = self.spec_adj();
                assert(adj2 == added_edge(adj1, last, suggestion));
                crate::graph_spec::lemma_push_contains(adj1[last as int], suggestion);
                crate::graph_spec::lemma_push_contains(adj1[suggestion as int], last);
                assert forall|a: usize, b: usize| #[trigger] is_edge(adj2, a, b) implies is_edge(adj1, a, b) || (a == last
                    && b == suggestion) || (a == suggestion && b == last) by {
                    if a != last && a != suggestion {
                        assert(adj2[a as int] == adj1[a as int]);
                    }
                }
                assert forall|a: usize, b: usize| is_edge(adj1, a, b) implies #[trigger] is_edge(adj2, a, b) by {
                    if a != last && a != suggestion {
                        assert(adj2[a as int] == adj1[a as int]);
                    }
                }
                assert forall|v: int| 0 <= v < n implies 0 <= #[trigger] ids@[v] < m.len() && reachable(adj2, m[ids@[v] as int], v as usize) by {
                    lemma_reachable_added(adj1, last, suggestion, m[ids@[v] as int], v as usize);
                }
                assert forall|a: int| r <= a < m.len() implies #[trigger] reachable(adj2, suggestion, m[a]) by {
                    lemma_add_edge(adj1, last, suggestion);
                    assert(adj2[suggestion as int] == adj1[suggestion as int].push(last));
                    assert(adj2[suggestion as int].contains(last)) by {
                        assert(adj2[suggestion as int][adj2[suggestion as int].len() - 1] == last);
                    }
                    lemma_reachable_refl(adj2, suggestion);
                    lemma_reachable_step(adj2, suggestion, suggestion, last);
                    if a > r {
                        lemma_reachable_added(adj1, last, suggestion, last, m[a]);
                        lemma_reachable_trans(adj2, suggestion, last, m[a]);
                    } else {
                        assert(m[a] == suggestion);
                    }
                }
                assert forall|y: int|
                    0 <= y < n && !m.subrange(r, m.len() as int).contains(y as usize)
                        implies #[trigger] adj2[y] == adj0[y] by {
                    assert(m.subrange(r, m.len() as int)[0] == suggestion);
                    assert(m.subrange(r, m.len() as int)[1] == last);
                    if m.subrange(r + 1, m.len() as int).contains(y as usize) {
                        let q = choose|q: int| 0 <= q < m.subrange(r + 1, m.len() as int).len()
                            && #[trigger] m.subrange(r + 1, m.len() as int)[q] == y as usize;
                        assert(m.subrange(r, m.len() as int)[q + 1] == y as usize);
                    }
                }
            }
            last = suggestion;
        }
        proof {
            let adj = self.spec_adj();
            assert(last == m[0]);
            assert forall|s: usize, t: usize| s < n && t < n implies #[trigger] reachable(adj, s, t) by {
                let ms = m[ids@[s as int] as int];
                let mt = m[ids@[t as int] as int];
                assert(reachable(adj, ms, s));
                assert(reachable(adj, mt, t));
                assert(reachable(adj, last, ms));
                assert(reachable(adj, last, mt));
                lemma_reachable_sym(adj, ms, s);
                lemma_reachable_sym(adj, last, ms);
                lemma_reachable_trans(adj, s, ms, last);
                lemma_reachable_trans(adj, last, mt, t);
                lemma_reachable_trans(adj, s, last, t);
            }
        }
    }
}

} // verus!
