//! # Erdős-Rényi with constant number of edges
//! * Draw from an Erdős-Rényi graph ensemble
//! * In this model, all possible edges are equally likely
//! * The number of edges is fixed
//!
//! # Citations
//! > P. Erdős and A. Rényi, "On the evolution of random graphs,"
//!   Publ. Math. Inst. Hungar. Acad. Sci. **5**, 17-61 (1960)
use vstd::prelude::*;
use crate::traits::Node;
use crate::seq_util::sorted_up;
use crate::random::{draw_index, shuffle_entries};
use crate::graph::Graph;
use crate::sampling::{HasRng, WithGraph};
use crate::graph_spec::{is_edge, lemma_add_edge, lemma_remove_edge, lemma_same_lists_wf};

verus! {

/// `s` lists each pair `(i, j)` with `i < j < n` once, and nothing else
pub open spec fn lists_pairs(s: Seq<(usize, usize)>, n: nat) -> bool {
    &&& s.no_duplicates()
    &&& forall|p: (usize, usize)| #[trigger] s.contains(p) <==> p.0 < p.1 < n
}

/// the number of pairs `(i, j)`, `i < j < n`, whose first entry is below `k`
pub open spec fn pairs_before(n: nat, k: nat) -> nat
    decreases k,
{
    if k == 0 || k > n {
        0
    } else {
        pairs_before(n, (k - 1) as nat) + (n - k) as nat
    }
}

/// twice the pair count is `k (2n - k - 1)`; for `k = n` that is `n (n - 1)`
pub proof fn lemma_pairs_before(n: nat, k: nat)
    requires
        k <= n,
    ensures
        2 * pairs_before(n, k) == k * (2 * n - k - 1),
    decreases k,
{
    if k > 0 {
        lemma_pairs_before(n, (k - 1) as nat);
        assert(2 * pairs_before(n, k) == (k - 1) * (2 * n - (k - 1) - 1) + 2 * (n - k));
        assert((k - 1) * (2 * n - (k - 1) - 1) + 2 * (n - k) == k * (2 * n - k - 1)) by (nonlinear_arith);
    } else {
        assert(k * (2 * n - k - 1) == 0) by (nonlinear_arith)
            requires
                k == 0,
        ;
    }
}

/// Storing the information about which edges were deleted or added
#[derive(Debug, Clone, Copy)]
pub struct ErStepM {
    /// removed edge
    pub(crate) removed: (usize, usize),
    pub(crate) i_removed: usize,
    pub(crate) inserted: (usize, usize),
    pub(crate) i_inserted: usize,
}

impl ErStepM {
    /// the edge the step removed
    pub closed spec fn spec_removed(self) -> (usize, usize) {
        self.removed
    }

    /// where the removed edge stood among the current edges
    pub closed spec fn spec_i_removed(self) -> usize {
        self.i_removed
    }

    /// the edge the step inserted
    pub closed spec fn spec_inserted(self) -> (usize, usize) {
        self.inserted
    }

    /// where the inserted edge stood among the possible edges
    pub closed spec fn spec_i_inserted(self) -> usize {
        self.i_inserted
    }

    /// the step that undoes this one
    pub closed spec fn spec_inverted(self) -> ErStepM {
        ErStepM {
            removed: self.spec_inserted(),
            i_removed: self.spec_i_removed(),
            inserted: self.spec_removed(),
            i_inserted: self.spec_i_inserted(),
        }
    }

    /// turns the step into the one that undoes it, in place
    pub(crate) fn invert(&mut self)
        ensures
            *final(self) == old(self).spec_inverted(),
    {
        let removed = self.removed;
        self.removed = self.inserted;
        self.inserted = removed;
    }

    /// the step that undoes this one
    pub(crate) fn inverted(&self) -> (r: Self)
        ensures
            r == self.spec_inverted(),
    {
        ErStepM {
            removed: self.inserted,
            inserted: self.removed,
            i_inserted: self.i_inserted,
            i_removed: self.i_removed,
        }
    }
}

/// The lists of current and possible edges after `step` was undone: the entries it
/// swapped are swapped back
pub open spec fn undo_lists(
    cur: Seq<(usize, usize)>,
    pos: Seq<(usize, usize)>,
    step: ErStepM,
) -> (Seq<(usize, usize)>, Seq<(usize, usize)>) {
    (
        cur.update(step.spec_i_removed() as int, step.spec_removed()),
        pos.update(step.spec_i_inserted() as int, step.spec_inserted()),
    )
}

/// `step` was the last step that led to these lists: what it inserted stands where it
/// removed, and what it removed stands where it inserted
pub open spec fn step_undoable(cur: Seq<(usize, usize)>, pos: Seq<(usize, usize)>, step: ErStepM) -> bool {
    &&& step.spec_i_removed() < cur.len()
    &&& step.spec_i_inserted() < pos.len()
    &&& cur[step.spec_i_removed() as int] == step.spec_inserted()
    &&& pos[step.spec_i_inserted() as int] == step.spec_removed()
}

/// the steps, undone from the last to the first, can each be undone
pub open spec fn undoable_chain(
    cur: Seq<(usize, usize)>,
    pos: Seq<(usize, usize)>,
    steps: Seq<ErStepM>,
) -> bool
    decreases steps.len(),
{
    if steps.len() == 0 {
        true
    } else {
        let s = steps.last();
        step_undoable(cur, pos, s) && undoable_chain(
            undo_lists(cur, pos, s).0,
            undo_lists(cur, pos, s).1,
            steps.drop_last(),
        )
    }
}

/// the edges of the graph are exactly the pairs of `cur`, in either direction
pub open spec fn edges_match(adj: Seq<Seq<usize>>, cur: Seq<(usize, usize)>) -> bool {
    forall|i: usize, j: usize|
        #[trigger] is_edge(adj, i, j) <==> (cur.contains((i, j)) || cur.contains((j, i)))
}

/// a reordering of a list of all pairs lists all pairs
pub proof fn lemma_perm_pairs(a: Seq<(usize, usize)>, b: Seq<(usize, usize)>, n: nat)
    requires
        lists_pairs(a, n),
        a.to_multiset() == b.to_multiset(),
    ensures
        lists_pairs(b, n),
        b.len() == a.len(),
{
    a.to_multiset_ensures();
    b.to_multiset_ensures();
    a.lemma_multiset_has_no_duplicates();
    b.lemma_multiset_has_no_duplicates_conv();
    assert forall|p: (usize, usize)| #[trigger] b.contains(p) <==> p.0 < p.1 < n by {
        assert(b.contains(p) <==> b.to_multiset().count(p) > 0);
        assert(a.contains(p) <==> a.to_multiset().count(p) > 0);
    }
}

/// in a list without repetitions, overwriting one entry removes exactly that entry
pub proof fn lemma_update_contains(s: Seq<(usize, usize)>, i: int, v: (usize, usize), x: (usize, usize))
    requires
        s.no_duplicates(),
        0 <= i < s.len(),
    ensures
        s.update(i, v).contains(x) <==> ((s.contains(x) && x != s[i]) || x == v),
{
    let t = s.update(i, v);
    if t.contains(x) {
        let k = choose|k: int| 0 <= k < t.len() && t[k] == x;
        if k != i {
            assert(s[k] == x);
        }
    }
    if s.contains(x) && x != s[i] {
        let k = choose|k: int| 0 <= k < s.len() && s[k] == x;
        assert(t[k] == x);
    }
    if x == v {
        assert(t[i] == x);
    }
}

/// swapping an entry of the current edges with one of the possible edges keeps the
/// two lists, together, a list of all pairs
pub proof fn lemma_swap_lists(
    c: Seq<(usize, usize)>,
    p: Seq<(usize, usize)>,
    i: int,
    j: int,
    n: nat,
)
    requires
        lists_pairs(c + p, n),
        0 <= i < c.len(),
        0 <= j < p.len(),
    ensures
        lists_pairs(c.update(i, p[j]) + p.update(j, c[i]), n),
        c.no_duplicates(),
        p.no_duplicates(),
        forall|x: (usize, usize)| !(c.contains(x) && #[trigger] p.contains(x)),
{
    let s = c + p;
    let k = c.len() + j;
    assert(s[k] == p[j]);
    assert(s[i] == c[i]);
    assert(s.update(i, s[k]).update(k, s[i]) =~= c.update(i, p[j]) + p.update(j, c[i]));
    crate::seq_util::lemma_swap_multiset(s, i, k);
    lemma_perm_pairs(s, c.update(i, p[j]) + p.update(j, c[i]), n);
    assert forall|a: int, b: int| 0 <= a < c.len() && 0 <= b < c.len() && a != b implies c[a] != c[b] by {
        assert(s[a] == c[a] && s[b] == c[b]);
    }
    assert forall|a: int, b: int| 0 <= a < p.len() && 0 <= b < p.len() && a != b implies p[a] != p[b] by {
        assert(s[c.len() + a] == p[a] && s[c.len() + b] == p[b]);
    }
    assert forall|x: (usize, usize)| !(c.contains(x) && #[trigger] p.contains(x)) by {
        if c.contains(x) && p.contains(x) {
            let a = choose|a: int| 0 <= a < c.len() && c[a] == x;
            let b = choose|b: int| 0 <= b < p.len() && p[b] == x;
            assert(s[a] == s[c.len() + b]);
        }
    }
}

/// # Implements Erdős-Rényi graph ensemble
/// Constant number of edges
/// * the `m` current edges are drawn from all possible edges, each set of `m` edges
/// equally likely
/// * a Markov step exchanges one current edge for one possible edge that is not current
pub struct ErEnsembleM<T: Node, R> {
    graph: Graph<T>,
    m: usize,
    rng: R,
    all_edges: Vec<(usize, usize)>,
    possible_edges: Vec<(usize, usize)>,
    current_edges: Vec<(usize, usize)>,
}

impl<T: Node, R> ErEnsembleM<T, R> {
    /// the graph
    pub closed spec fn spec_graph(&self) -> Graph<T> {
        self.graph
    }

    /// the number of edges
    pub closed spec fn spec_m(&self) -> nat {
        self.m as nat
    }

    /// all pairs of vertices, in the order of the last shuffle
    pub closed spec fn spec_all_edges(&self) -> Seq<(usize, usize)> {
        self.all_edges@
    }

    /// the edges of the graph
    pub closed spec fn spec_current(&self) -> Seq<(usize, usize)> {
        self.current_edges@
    }

    /// the pairs that are no edges
    pub closed spec fn spec_possible(&self) -> Seq<(usize, usize)> {
        self.possible_edges@
    }

    /// the random number generator
    pub closed spec fn spec_rng(&self) -> R {
        self.rng
    }

    /// number of vertices
    pub open spec fn spec_n(&self) -> nat {
        self.spec_graph().spec_vertex_count()
    }

    /// The graph is well formed and has exactly the current edges, `m` of them; the
    /// current and the possible edges together list every pair of vertices once, and
    /// so do all edges.
    pub open spec fn wf(&self) -> bool {
        &&& self.spec_graph().wf()
        &&& lists_pairs(self.spec_all_edges(), self.spec_n())
        &&& lists_pairs(self.spec_current() + self.spec_possible(), self.spec_n())
        &&& self.spec_current().len() == self.spec_m()
        &&& self.spec_graph().view_edge_count() == self.spec_m()
        &&& edges_match(self.spec_graph().spec_adj(), self.spec_current())
    }

    /// a Markov step is possible: there is a current edge and a possible one
    pub open spec fn can_step(&self) -> bool {
        self.spec_current().len() > 0 && self.spec_possible().len() > 0
    }
}

/// two lists of all pairs are equally long
pub proof fn lemma_pairs_len(a: Seq<(usize, usize)>, b: Seq<(usize, usize)>, n: nat)
    requires
        lists_pairs(a, n),
        lists_pairs(b, n),
    ensures
        a.len() == b.len(),
{
    a.unique_seq_to_set();
    b.unique_seq_to_set();
    assert(a.to_set() =~= b.to_set());
}

/// all pairs `(i, j)` with `i < j < n`, ordered by `i`, then by `j`
fn build_pairs(n: usize) -> (r: Vec<(usize, usize)>)
    ensures
        lists_pairs(r@, n as nat),
        r@.len() == pairs_before(n as nat, n as nat),
{
    let mut vec: Vec<(usize, usize)> = Vec::new();
    let mut i: usize = 0;
    while i < n
        invariant
            i <= n,
            vec@.no_duplicates(),
            forall|p: (usize, usize)| #[trigger] vec@.contains(p) <==> (p.0 < i && p.0 < p.1 < n),
            vec@.len() == pairs_before(n as nat, i as nat),
        decreases n - i,
    {
        let mut j: usize = i + 1;
        while j < n
            invariant
                i < n,
                i + 1 <= j <= n,
                vec@.no_duplicates(),
                forall|p: (usize, usize)|
                    #[trigger] vec@.contains(p) <==> ((p.0 < i && p.0 < p.1 < n) || (p.0 == i && i < p.1
                        < j)),
                vec@.len() == pairs_before(n as nat, i as nat) + (j - i - 1),
            decreases n - j,
        {
            let ghost v0 = vec@;
            vec.push((i, j));
            proof {
                assert(!v0.contains((i, j)));
                assert forall|a: int, b: int| 0 <= a < vec@.len() && 0 <= b < vec@.len() && a != b implies vec@[a]
                    != vec@[b] by {
                    if a < v0.len() && b < v0.len() {
                        assert(v0[a] != v0[b]);
                    } else if a < v0.len() {
                        assert(v0.contains(v0[a]));
                    } else {
                        assert(v0.contains(v0[b]));
                    }
                }
                assert forall|p: (usize, usize)|
                    #[trigger] vec@.contains(p) <==> ((p.0 < i && p.0 < p.1 < n) || (p.0 == i && i < p.1
                        < j + 1)) by {
                    if vec@.contains(p) && p != (i, j) {
                        let k = choose|k: int| 0 <= k < vec@.len() && vec@[k] == p;
                        assert(v0[k] == p);
                    }
                    if v0.contains(p) {
                        let k = choose|k: int| 0 <= k < v0.len() && v0[k] == p;
                        assert(vec@[k] == p);
                    }
                    if p == (i, j) {
                        assert(vec@[vec@.len() - 1] == p);
                    }
                }
            }
            j = j + 1;
        }
        i = i + 1;
    }
    vec
}

impl<T: Node, R: rand::Rng> ErEnsembleM<T, R> {
    /// the graph and the list of all pairs are in order and there are no more edges
    /// to draw than pairs
    pub open spec fn ready(&self) -> bool {
        &&& self.spec_graph().wf()
        &&& lists_pairs(self.spec_all_edges(), self.spec_n())
        &&& self.spec_m() <= self.spec_all_edges().len()
    }

    /// a well formed ensemble is ready to be drawn anew
    pub proof fn lemma_wf_ready(&self)
        requires
            self.wf(),
        ensures
            self.ready(),
    {
        lemma_pairs_len(self.spec_all_edges(), self.spec_current() + self.spec_possible(), self.spec_n());
    }

    /// The first `m` pairs of all pairs become the edges of the graph, the rest the
    /// possible edges.
    fn refill(&mut self)
        requires
            old(self).ready(),
        ensures
            final(self).wf(),
            final(self).spec_all_edges() == old(self).spec_all_edges(),
            final(self).spec_current() == old(self).spec_all_edges().take(old(self).spec_m() as int),
            final(self).spec_possible() == old(self).spec_all_edges().skip(old(self).spec_m() as int),
            final(self).spec_m() == old(self).spec_m(),
            final(self).spec_n() == old(self).spec_n(),
            final(self).spec_graph().spec_contained() == old(self).spec_graph().spec_contained(),
            final(self).spec_rng() == old(self).spec_rng(),
    {
        let ghost all = self.all_edges@;
        let ghost n = self.spec_n();
        self.graph.clear_edges();
        proof {
            assert forall|i: usize, j: usize| !is_edge(self.graph.spec_adj(), i, j) by {
                if i < n {
                    assert(self.graph.spec_adj()[i as int] == Seq::<usize>::empty());
                }
            }
        }
        let m = self.m;
        let total = self.all_edges.len();
        let mut current: Vec<(usize, usize)> = Vec::new();
        let mut k: usize = 0;
        while k < m
            invariant
                all == self.all_edges@,
                lists_pairs(all, n),
                n == self.graph.spec_vertex_count(),
                m <= total,
                total == all.len(),
                k <= m,
                current@ == all.take(k as int),
                self.graph.wf(),
                self.graph.view_edge_count() == k,
                self.graph.spec_contained() == old(self).spec_graph().spec_contained(),
                edges_match(self.graph.spec_adj(), current@),
                self.m == m,
                self.rng == old(self).rng,
            decreases m - k,
        {
            let e = self.all_edges[k];
            proof {
                assert(all.contains(e));
                assert(!current@.contains(e)) by {
                    if current@.contains(e) {
                        let q = choose|q: int| 0 <= q < current@.len() && current@[q] == e;
                        assert(all[q] == all[k as int]);
                    }
                }
                assert(!current@.contains((e.1, e.0))) by {
                    if current@.contains((e.1, e.0)) {
                        let q = choose|q: int| 0 <= q < current@.len() && current@[q] == (e.1, e.0);
                        assert(all.contains(all[q]));
                    }
                }
                assert(!is_edge(self.graph.spec_adj(), e.0, e.1));
                lemma_add_edge(self.graph.spec_adj(), e.0, e.1);
            }
            let ghost c0 = current@;
            let ghost adj0 = self.graph.spec_adj();
            let added = self.graph.add_edge(e.0, e.1);
            current.push(e);
            proof {
                assert(current@ == all.take(k as int + 1));
                assert forall|i: usize, j: usize|
                    #[trigger] is_edge(self.graph.spec_adj(), i, j) <==> (current@.contains((i, j))
                        || current@.contains((j, i))) by {
                    assert(current@ == c0.push(e));
                    assert(current@.contains((i, j)) <==> (c0.contains((i, j)) || (i, j) == e)) by {
                        if current@.contains((i, j)) && (i, j) != e {
                            let q = choose|q: int| 0 <= q < current@.len() && current@[q] == (i, j);
                            assert(c0[q] == (i, j));
                        }
                        if c0.contains((i, j)) {
                            let q = choose|q: int| 0 <= q < c0.len() && c0[q] == (i, j);
                            assert(current@[q] == (i, j));
                        }
                        if (i, j) == e {
                            assert(current@[current@.len() - 1] == e);
                        }
                    }
                    assert(current@.contains((j, i)) <==> (c0.contains((j, i)) || (j, i) == e)) by {
                        if current@.contains((j, i)) && (j, i) != e {
                            let q = choose|q: int| 0 <= q < current@.len() && current@[q] == (j, i);
                            assert(c0[q] == (j, i));
                        }
                        if c0.contains((j, i)) {
                            let q = choose|q: int| 0 <= q < c0.len() && c0[q] == (j, i);
                            assert(current@[q] == (j, i));
                        }
                        if (j, i) == e {
                            assert(current@[current@.len() - 1] == e);
                        }
                    }
                    assert(is_edge(adj0, i, j) <==> (c0.contains((i, j)) || c0.contains((j, i))));
                }
            }
            k = k + 1;
        }
        let mut possible: Vec<(usize, usize)> = Vec::new();
        let mut q: usize = m;
        while q < total
            invariant
                all == self.all_edges@,
                m <= q <= total,
                total == all.len(),
                possible@ == all.subrange(m as int, q as int),
                lists_pairs(all, n),
                n == self.graph.spec_vertex_count(),
                current@ == all.take(m as int),
                self.graph.wf(),
                self.graph.view_edge_count() == m,
                self.graph.spec_contained() == old(self).spec_graph().spec_contained(),
                edges_match(self.graph.spec_adj(), current@),
                self.m == m,
                self.rng == old(self).rng,
            decreases total - q,
        {
            possible.push(self.all_edges[q]);
            q = q + 1;
            assert(possible@ =~= all.subrange(m as int, q as int));
        }
        self.current_edges = current;
        self.possible_edges = possible;
        proof {
            assert(self.current_edges@ + self.possible_edges@ =~= all);
            assert(self.possible_edges@ =~= all.skip(m as int));
        }
    }

    /// all pairs are shuffled; the first `m` of them become the edges of the graph
    fn randomize_edges(&mut self)
        requires
            old(self).wf(),
        ensures
            final(self).wf(),
            final(self).spec_all_edges().to_multiset() == old(self).spec_all_edges().to_multiset(),
            final(self).spec_current() == final(self).spec_all_edges().take(old(self).spec_m() as int),
            final(self).spec_possible() == final(self).spec_all_edges().skip(old(self).spec_m() as int),
            final(self).spec_m() == old(self).spec_m(),
            final(self).spec_n() == old(self).spec_n(),
            final(self).spec_graph().spec_contained() == old(self).spec_graph().spec_contained(),
    {
        proof {
            self.lemma_wf_ready();
        }
        let ghost all0 = self.all_edges@;
        self.shuffle_all_edges();
        proof {
            lemma_perm_pairs(all0, self.all_edges@, self.spec_n());
        }
        self.refill();
    }

    /// shuffles the list of all pairs
    fn shuffle_all_edges(&mut self)
        ensures
            final(self).spec_all_edges().to_multiset() == old(self).spec_all_edges().to_multiset(),
            final(self).spec_graph() == old(self).spec_graph(),
            final(self).spec_m() == old(self).spec_m(),
            final(self).spec_current() == old(self).spec_current(),
            final(self).spec_possible() == old(self).spec_possible(),
    {
        shuffle_entries(&mut self.all_edges, &mut self.rng);
    }

    /// # Initialize
    /// create new ErEnsembleM graph with:
    /// * `n` vertices
    /// * `m` edges
    /// * `rng` is consumed and used as random number generator in the following
    /// * internally uses `Graph<T>::new(n)`
    /// * generates random edges according to ER model
    pub fn new(n: usize, m: usize, rng: R) -> (r: Self)
        requires
            n * (n - 1) <= usize::MAX,
            2 * m <= n * (n - 1),
        ensures
            r.wf(),
            r.spec_n() == n,
            r.spec_m() == m,
    {
        let graph: Graph<T> = Graph::new(n);
        let vec = build_pairs(n);
        proof {
            lemma_pairs_before(n as nat, n as nat);
        }
        let mut e = ErEnsembleM {
            graph,
            m,
            rng,
            all_edges: vec,
            possible_edges: Vec::new(),
            current_edges: Vec::new(),
        };
        e.randomize_from_ready();
        e
    }

    /// shuffles all pairs and draws the edges from them
    fn randomize_from_ready(&mut self)
        requires
            old(self).ready(),
        ensures
            final(self).wf(),
            final(self).spec_m() == old(self).spec_m(),
            final(self).spec_n() == old(self).spec_n(),
    {
        let ghost all0 = self.all_edges@;
        self.shuffle_all_edges();
        proof {
            lemma_perm_pairs(all0, self.all_edges@, self.spec_n());
        }
        self.refill();
    }

    /// Return total number of edges
    pub fn get_m(&self) -> (r: usize)
        ensures
            r == self.spec_m(),
    {
        self.m
    }
}

impl<T: Node, R: rand::Rng> ErEnsembleM<T, R> {
    /// `next` is `self` after the Markov step `s`: the current edge at `s.i_removed`
    /// and the possible edge at `s.i_inserted` traded places
    pub open spec fn stepped(&self, next: &Self, s: ErStepM) -> bool {
        &&& s.spec_i_removed() < self.spec_current().len()
        &&& s.spec_i_inserted() < self.spec_possible().len()
        &&& s.spec_removed() == self.spec_current()[s.spec_i_removed() as int]
        &&& s.spec_inserted() == self.spec_possible()[s.spec_i_inserted() as int]
        &&& next.spec_current() == self.spec_current().update(s.spec_i_removed() as int, s.spec_inserted())
        &&& next.spec_possible() == self.spec_possible().update(s.spec_i_inserted() as int, s.spec_removed())
        &&& next.spec_all_edges() == self.spec_all_edges()
        &&& next.spec_m() == self.spec_m()
        &&& next.spec_n() == self.spec_n()
        &&& next.spec_graph().spec_contained() == self.spec_graph().spec_contained()
    }

    /// `next` is `self` after the step `s` was undone
    pub open spec fn undone(&self, next: &Self, s: ErStepM) -> bool {
        &&& step_undoable(self.spec_current(), self.spec_possible(), s)
        &&& next.spec_current() == undo_lists(self.spec_current(), self.spec_possible(), s).0
        &&& next.spec_possible() == undo_lists(self.spec_current(), self.spec_possible(), s).1
        &&& next.spec_all_edges() == self.spec_all_edges()
        &&& next.spec_m() == self.spec_m()
        &&& next.spec_n() == self.spec_n()
        &&& next.spec_graph().spec_contained() == self.spec_graph().spec_contained()
    }

    /// removes the current edge `step.removed`, adds the possible edge `step.inserted`,
    /// and lets them trade places in the lists
    fn step(&mut self, step: ErStepM)
        requires
            old(self).wf(),
            step.spec_i_removed() < old(self).spec_current().len(),
            step.spec_i_inserted() < old(self).spec_possible().len(),
            old(self).spec_current()[step.spec_i_removed() as int] == step.spec_removed(),
            old(self).spec_possible()[step.spec_i_inserted() as int] == step.spec_inserted(),
        ensures
            final(self).wf(),
            old(self).stepped(final(self), step),
    {
        let ghost c = self.current_edges@;
        let ghost p = self.possible_edges@;
        let ghost n = self.spec_n();
        let ghost adj0 = self.graph.spec_adj();
        let rem = step.removed;
        let ins = step.inserted;
        let ir = step.i_removed;
        let ii = step.i_inserted;
        proof {
            lemma_swap_lists(c, p, ir as int, ii as int, n);
            assert(c.contains(rem));
            assert((c + p).contains(rem)) by {
                assert((c + p)[ir as int] == rem);
            }
            assert(is_edge(adj0, rem.0, rem.1));
            lemma_remove_edge(adj0, rem.0, rem.1);
        }
        let r1 = self.graph.remove_edge(rem.0, rem.1);
        let ghost adj1 = self.graph.spec_adj();
        proof {
            assert(p.contains(ins));
            assert((c + p).contains(ins)) by {
                assert((c + p)[c.len() + ii] == ins);
            }
            assert(!c.contains(ins));
            assert(!c.contains((ins.1, ins.0))) by {
                if c.contains((ins.1, ins.0)) {
                    let q = choose|q: int| 0 <= q < c.len() && c[q] == (ins.1, ins.0);
                    assert((c + p)[q] == (ins.1, ins.0));
                    assert((c + p).contains((ins.1, ins.0)));
                    assert(ins.0 < ins.1);
                }
            }
            assert(!is_edge(adj0, ins.0, ins.1));
            assert(!is_edge(adj1, ins.0, ins.1));
            lemma_add_edge(adj1, ins.0, ins.1);
        }
        let r2 = self.graph.add_edge(ins.0, ins.1);
        self.current_edges.set(ir, ins);
        self.possible_edges.set(ii, rem);
        proof {
            let c2 = self.current_edges@;
            let adj2 = self.graph.spec_adj();
            assert(!c.contains((rem.1, rem.0))) by {
                if c.contains((rem.1, rem.0)) {
                    let q = choose|q: int| 0 <= q < c.len() && c[q] == (rem.1, rem.0);
                    assert((c + p)[q] == (rem.1, rem.0));
                    assert((c + p).contains((rem.1, rem.0)));
                    assert(rem.0 < rem.1);
                }
            }
            assert forall|i: usize, j: usize|
                #[trigger] is_edge(adj2, i, j) <==> (c2.contains((i, j)) || c2.contains((j, i))) by {
                lemma_update_contains(c, ir as int, ins, (i, j));
                lemma_update_contains(c, ir as int, ins, (j, i));
                assert(is_edge(adj0, i, j) <==> (c.contains((i, j)) || c.contains((j, i))));
            }
        }
    }

    /// a random current edge is removed and a random possible edge added
    fn markov_step(&mut self) -> (s: ErStepM)
        requires
            old(self).wf(),
            old(self).can_step(),
        ensures
            final(self).wf(),
            old(self).stepped(final(self), s),
            forall|steps: Seq<ErStepM>|
                undoable_chain(old(self).spec_current(), old(self).spec_possible(), steps) ==> #[trigger] undoable_chain(
                    final(self).spec_current(),
                    final(self).spec_possible(),
                    steps.push(s),
                ),
    {
        let index_current = draw_index(&mut self.rng, self.current_edges.len());
        let index_possible = draw_index(&mut self.rng, self.possible_edges.len());
        let step = ErStepM {
            removed: self.current_edges[index_current],
            i_removed: index_current,
            inserted: self.possible_edges[index_possible],
            i_inserted: index_possible,
        };
        let ghost mid = *self;
        self.step(step);
        proof {
            assert forall|steps: Seq<ErStepM>|
                undoable_chain(mid.spec_current(), mid.spec_possible(), steps) implies #[trigger] undoable_chain(
                self.spec_current(),
                self.spec_possible(),
                steps.push(step),
            ) by {
                let u = undo_lists(self.spec_current(), self.spec_possible(), step);
                assert(u.0 =~= mid.spec_current());
                assert(u.1 =~= mid.spec_possible());
                assert(steps.push(step).drop_last() =~= steps);
            }
        }
        step
    }

    /// undoes the Markov step `step`; returns the step that undid it
    fn undo_markov_step(&mut self, step: ErStepM) -> (r: ErStepM)
        requires
            old(self).wf(),
            step_undoable(old(self).spec_current(), old(self).spec_possible(), step),
        ensures
            final(self).wf(),
            r == step.spec_inverted(),
            old(self).undone(final(self), step),
            forall|steps: Seq<ErStepM>|
                #[trigger] undoable_chain(old(self).spec_current(), old(self).spec_possible(), steps.push(step))
                    ==> undoable_chain(final(self).spec_current(), final(self).spec_possible(), steps),
    {
        let inv = step.inverted();
        let ghost before = *self;
        self.step(inv);
        proof {
            assert forall|steps: Seq<ErStepM>|
                #[trigger] undoable_chain(before.spec_current(), before.spec_possible(), steps.push(step))
                    implies undoable_chain(self.spec_current(), self.spec_possible(), steps) by {
                assert(steps.push(step).drop_last() =~= steps);
                assert(steps.push(step).last() == step);
            }
        }
        inv
    }

    /// Undoing a Markov step gives back the current and possible edges as they were, and
    /// with them the edges of the graph.
    pub proof fn lemma_undo_restores(e0: &Self, e1: &Self, e2: &Self, s: ErStepM)
        requires
            e0.wf(),
            e2.wf(),
            e0.stepped(e1, s),
            e1.undone(e2, s),
        ensures
            e2.spec_current() == e0.spec_current(),
            e2.spec_possible() == e0.spec_possible(),
            e2.spec_all_edges() == e0.spec_all_edges(),
            e2.spec_graph().spec_contained() == e0.spec_graph().spec_contained(),
            forall|i: usize, j: usize|
                #[trigger] is_edge(e2.spec_graph().spec_adj(), i, j) <==> is_edge(e0.spec_graph().spec_adj(), i, j),
    {
        assert(e2.spec_current() =~= e0.spec_current());
        assert(e2.spec_possible() =~= e0.spec_possible());
    }
}


impl<T: Node, R: rand::Rng> ErEnsembleM<T, R> {
    /// * undo a markov step, return result-state, which is the step that undid it
    pub fn undo_step(&mut self, step: ErStepM) -> (r: ErStepM)
        requires
            old(self).wf(),
            step_undoable(old(self).spec_current(), old(self).spec_possible(), step),
        ensures
            final(self).wf(),
            r == step.spec_inverted(),
            old(self).undone(final(self), step),
            forall|steps: Seq<ErStepM>|
                #[trigger] undoable_chain(old(self).spec_current(), old(self).spec_possible(), steps.push(step))
                    ==> undoable_chain(final(self).spec_current(), final(self).spec_possible(), steps),
    {
        self.undo_markov_step(step)
    }

    /// * undo a markov step
    pub fn undo_step_quiet(&mut self, step: ErStepM)
        requires
            old(self).wf(),
            step_undoable(old(self).spec_current(), old(self).spec_possible(), step),
        ensures
            final(self).wf(),
            old(self).undone(final(self), step),
            forall|steps: Seq<ErStepM>|
                #[trigger] undoable_chain(old(self).spec_current(), old(self).spec_possible(), steps.push(step))
                    ==> undoable_chain(final(self).spec_current(), final(self).spec_possible(), steps),
    {
        self.undo_markov_step(step);
    }

    /// # Markov step
    /// * a random current edge is removed and a random possible edge added
    /// * the returned step can undo it
    pub fn m_step(&mut self) -> (s: ErStepM)
        requires
            old(self).wf(),
            old(self).can_step(),
        ensures
            final(self).wf(),
            old(self).stepped(final(self), s),
            forall|steps: Seq<ErStepM>|
                undoable_chain(old(self).spec_current(), old(self).spec_possible(), steps) ==> #[trigger] undoable_chain(
                    final(self).spec_current(),
                    final(self).spec_possible(),
                    steps.push(s),
                ),
    {
        self.markov_step()
    }

    /// # Randomizes self according to model
    /// * all pairs are shuffled; the first `m` of them become the edges of the graph
    /// * this is intended for creation of initial sample
    pub fn randomize(&mut self)
        requires
            old(self).wf(),
        ensures
            final(self).wf(),
            final(self).spec_all_edges().to_multiset() == old(self).spec_all_edges().to_multiset(),
            final(self).spec_current() == final(self).spec_all_edges().take(old(self).spec_m() as int),
            final(self).spec_possible() == final(self).spec_all_edges().skip(old(self).spec_m() as int),
            final(self).spec_m() == old(self).spec_m(),
            final(self).spec_n() == old(self).spec_n(),
            final(self).spec_graph().spec_contained() == old(self).spec_graph().spec_contained(),
    {
        self.randomize_edges()
    }
}

impl<T: Node, R> HasRng<R> for ErEnsembleM<T, R> {
    /// # Access RNG
    /// If, for some reason, you want access to the internal random number generator: Here you go
    fn rng(&mut self) -> (r: &mut R)
        ensures
            *r == old(self).spec_rng(),
            final(self).spec_rng() == *final(r),
            final(self).spec_graph() == old(self).spec_graph(),
            final(self).spec_m() == old(self).spec_m(),
            final(self).spec_all_edges() == old(self).spec_all_edges(),
            final(self).spec_current() == old(self).spec_current(),
            final(self).spec_possible() == old(self).spec_possible(),
    {
        &mut self.rng
    }

    /// # Swap random number generator
    /// * exchanges the internal rng with `rng`
    fn swap_rng(&mut self, rng: &mut R)
        ensures
            final(self).spec_rng() == *old(rng),
            *final(rng) == old(self).spec_rng(),
            final(self).spec_graph() == old(self).spec_graph(),
            final(self).spec_m() == old(self).spec_m(),
            final(self).spec_all_edges() == old(self).spec_all_edges(),
            final(self).spec_current() == old(self).spec_current(),
            final(self).spec_possible() == old(self).spec_possible(),
    {
        std::mem::swap(&mut self.rng, rng);
    }
}

impl<T: Node, R> AsRef<Graph<T>> for ErEnsembleM<T, R> {
    /// the graph of the ensemble
    fn as_ref(&self) -> (r: &Graph<T>)
        ensures
            *r == self.spec_graph(),
    {
        &self.graph
    }
}

impl<T: Node, R> core::borrow::Borrow<Graph<T>> for ErEnsembleM<T, R> {
    /// the graph of the ensemble
    fn borrow(&self) -> &Graph<T>
        returns
            &self.spec_graph(),
    {
        &self.graph
    }
}

impl<T: Node, R> WithGraph<T, Graph<T>> for ErEnsembleM<T, R> {
    open spec fn with_graph_wf(&self) -> bool {
        self.wf()
    }

    open spec fn node_total(&self) -> nat {
        self.spec_n()
    }

    open spec fn node_at(&self, index: int) -> T {
        self.spec_graph().spec_contained()[index]
    }

    open spec fn spec_with_graph(&self) -> Graph<T> {
        self.spec_graph()
    }

    /// what vertex `index` holds
    fn at(&self, index: usize) -> (r: &T) {
        self.graph.at(index)
    }

    /// what vertex `index` holds, to be changed; the edges stay as they are
    fn at_mut(&mut self, index: usize) -> (r: &mut T)
        ensures
            final(self).spec_current() == old(self).spec_current(),
            final(self).spec_possible() == old(self).spec_possible(),
            final(self).spec_graph().spec_adj() == old(self).spec_graph().spec_adj(),
    {
        self.graph.at_mut(index)
    }

    /// the graph
    fn graph(&self) -> (r: &Graph<T>) {
        &self.graph
    }

    /// # Sort adjacency lists
    /// The edges stay the same; each adjacency list is sorted ascending.
    fn sort_adj(&mut self)
        ensures
            final(self).spec_current() == old(self).spec_current(),
            final(self).spec_possible() == old(self).spec_possible(),
            forall|i: usize, j: usize|
                #[trigger] is_edge(final(self).spec_graph().spec_adj(), i, j) <==> is_edge(
                    old(self).spec_graph().spec_adj(),
                    i,
                    j,
                ),
            forall|v: int|
                0 <= v < old(self).spec_graph().spec_vertex_count() ==> sorted_up(
                    #[trigger] final(self).spec_graph().spec_adj()[v],
                ),
            final(self).spec_graph().spec_contained() == old(self).spec_graph().spec_contained(),
    {
        let ghost adj0 = self.graph.spec_adj();
        self.graph.sort_adj();
        proof {
            lemma_same_lists_wf(adj0, self.graph.spec_adj());
        }
    }
}

} // verus!
