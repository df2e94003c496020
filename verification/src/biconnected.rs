//! Sizes of the vertex biconnected components of a graph, by the depth first search
//! of Hopcroft and Tarjan that removes each edge as it walks it.
use vstd::prelude::*;
use crate::traits::AdjContainer;
use crate::generic_graph::GenericGraph;
use crate::graph_spec::{adj_wf, is_edge, reachable, lemma_reachable_refl, lemma_reachable_step, lemma_reachable_sym, lemma_push_contains, lemma_push_no_dup, lemma_push_no_dup_rev};
use crate::seq_util::{lemma_cover, sort_usizes_down, sorted_down};

verus! {

/// the edge `{a, b}` as the pair with the smaller end first
pub open spec fn ukey(a: usize, b: usize) -> (usize, usize) {
    if a < b {
        (a, b)
    } else {
        (b, a)
    }
}

/// the edges of a graph, each as the pair with the smaller end first
pub open spec fn edge_keys(adj: Seq<Seq<usize>>) -> Set<(usize, usize)> {
    Set::new(|p: (usize, usize)| p.0 < p.1 && is_edge(adj, p.0, p.1))
}

/// the vertices that the edges of `g` touch
pub open spec fn ends(g: Set<(usize, usize)>) -> Set<usize> {
    Set::new(|v: usize| exists|p: (usize, usize)| #[trigger] g.contains(p) && (p.0 == v || p.1 == v))
}

/// some group holds the edge `p`
pub open spec fn in_groups(groups: Seq<Set<(usize, usize)>>, p: (usize, usize)) -> bool {
    exists|k: int| 0 <= k < groups.len() && #[trigger] groups[k].contains(p)
}

/// `groups` splits the edges `e` into nonempty finite groups, each edge in exactly one
pub open spec fn edge_partition(e: Set<(usize, usize)>, groups: Seq<Set<(usize, usize)>>) -> bool {
    &&& forall|k: int| 0 <= k < groups.len() ==> (#[trigger] groups[k]).finite() && groups[k].len() > 0
    &&& forall|p: (usize, usize)| e.contains(p) <==> in_groups(groups, p)
    &&& forall|i: int, j: int, p: (usize, usize)|
        0 <= i < j < groups.len() && #[trigger] groups[i].contains(p) ==> !#[trigger] groups[j].contains(p)
}

/// the sizes that are kept: all, or with the alternative definition those above 2
pub open spec fn kept_sizes(s: Seq<usize>, alternative: bool, k: int) -> Seq<usize>
    decreases k,
{
    if k <= 0 {
        Seq::empty()
    } else {
        let p = kept_sizes(s, alternative, k - 1);
        if !alternative || s[k - 1] > 2 {
            p.push(s[k - 1])
        } else {
            p
        }
    }
}

/// The entries of `r` are, in some order, the numbers of vertices that the groups of a
/// partition of the edges of `adj` touch (with the alternative definition: those above 2).
pub open spec fn edge_group_sizes(adj: Seq<Seq<usize>>, groups: Seq<Set<(usize, usize)>>, sizes: Seq<usize>, alternative: bool, r: Seq<usize>) -> bool {
    &&& edge_partition(edge_keys(adj), groups)
    &&& sizes.len() == groups.len()
    &&& forall|k: int| 0 <= k < groups.len() ==> #[trigger] sizes[k] == ends(groups[k]).len()
    &&& r.to_multiset() == kept_sizes(sizes, alternative, sizes.len() as int).to_multiset()
}

/// Where each edge of the graph is while the search runs: still in the graph (`rest`),
/// on the edge stack (`sk`), in the group being gathered (`grp`), or in one of the groups
/// gathered before; each in exactly one place.
spec fn ledger(
    e0: Set<(usize, usize)>,
    rest: Set<(usize, usize)>,
    sk: Seq<(usize, usize)>,
    grp: Set<(usize, usize)>,
    groups: Seq<Set<(usize, usize)>>,
) -> bool {
    &&& sk.no_duplicates()
    &&& grp.finite()
    &&& forall|p: (usize, usize)| #[trigger] e0.contains(p) <==> (rest.contains(p) || sk.contains(p) || grp.contains(p)
        || in_groups(groups, p))
    &&& forall|p: (usize, usize)| #[trigger] rest.contains(p) ==> !sk.contains(p) && !grp.contains(p) && !in_groups(groups, p)
    &&& forall|p: (usize, usize)| #[trigger] sk.contains(p) ==> !grp.contains(p) && !in_groups(groups, p)
    &&& forall|p: (usize, usize)| #[trigger] grp.contains(p) ==> !in_groups(groups, p)
    &&& forall|k: int| 0 <= k < groups.len() ==> (#[trigger] groups[k]).finite() && groups[k].len() > 0
    &&& forall|i: int, j: int, p: (usize, usize)|
        0 <= i < j < groups.len() && #[trigger] groups[i].contains(p) ==> !#[trigger] groups[j].contains(p)
}

/// an edge moves from the graph onto the stack
proof fn lemma_ledger_push(
    e0: Set<(usize, usize)>,
    rest: Set<(usize, usize)>,
    sk: Seq<(usize, usize)>,
    groups: Seq<Set<(usize, usize)>>,
    key: (usize, usize),
)
    requires
        ledger(e0, rest, sk, Set::empty(), groups),
        rest.contains(key),
    ensures
        ledger(e0, rest.remove(key), sk.push(key), Set::empty(), groups),
{
    assert forall|p: (usize, usize)| #[trigger] sk.push(key).contains(p) <==> (sk.contains(p) || p == key) by {
        if sk.push(key).contains(p) && p != key {
            let q = choose|q: int| 0 <= q < sk.push(key).len() && sk.push(key)[q] == p;
            assert(sk[q] == p);
        }
        if sk.contains(p) {
            let q = choose|q: int| 0 <= q < sk.len() && sk[q] == p;
            assert(sk.push(key)[q] == p);
        }
        if p == key {
            assert(sk.push(key)[sk.len() as int] == p);
        }
    }
    assert(sk.push(key).no_duplicates()) by {
        assert forall|a: int, b: int| 0 <= a < b < sk.push(key).len() implies sk.push(key)[a] != sk.push(key)[b] by {
            if b == sk.len() {
                assert(sk.contains(sk[a]));
            }
        }
    }
}

/// the top of the stack moves into the group being gathered
proof fn lemma_ledger_pop(
    e0: Set<(usize, usize)>,
    rest: Set<(usize, usize)>,
    sk: Seq<(usize, usize)>,
    grp: Set<(usize, usize)>,
    groups: Seq<Set<(usize, usize)>>,
)
    requires
        ledger(e0, rest, sk, grp, groups),
        sk.len() > 0,
    ensures
        ledger(e0, rest, sk.drop_last(), grp.insert(sk.last()), groups),
{
    let key = sk.last();
    let d = sk.drop_last();
    assert(sk == d.push(key));
    assert forall|p: (usize, usize)| #[trigger] sk.contains(p) <==> (d.contains(p) || p == key) by {
        if sk.contains(p) && p != key {
            let q = choose|q: int| 0 <= q < sk.len() && sk[q] == p;
            assert(d[q] == p);
        }
        if d.contains(p) {
            let q = choose|q: int| 0 <= q < d.len() && d[q] == p;
            assert(sk[q] == p);
        }
    }
    assert(!d.contains(key)) by {
        if d.contains(key) {
            let q = choose|q: int| 0 <= q < d.len() && d[q] == key;
            assert(sk[q] == sk[sk.len() - 1]);
        }
    }
    assert(d.no_duplicates()) by {
        assert forall|a: int, b: int| 0 <= a < b < d.len() implies d[a] != d[b] by {
            assert(sk[a] == d[a] && sk[b] == d[b]);
        }
    }
    let g2 = grp.insert(key);
    assert(sk.contains(key));
    assert forall|p: (usize, usize)| #[trigger] e0.contains(p) <==> (rest.contains(p) || d.contains(p) || g2.contains(p)
        || in_groups(groups, p)) by {
        assert(e0.contains(p) <==> (rest.contains(p) || sk.contains(p) || grp.contains(p) || in_groups(groups, p)));
    }
    assert forall|p: (usize, usize)| #[trigger] rest.contains(p) implies !d.contains(p) && !g2.contains(p) && !in_groups(groups, p) by {
        assert(!sk.contains(p));
    }
    assert forall|p: (usize, usize)| #[trigger] d.contains(p) implies !g2.contains(p) && !in_groups(groups, p) by {
        assert(sk.contains(p));
    }
    assert forall|p: (usize, usize)| #[trigger] g2.contains(p) implies !in_groups(groups, p) by {
        if p == key {
            assert(sk.contains(p));
        } else {
            assert(grp.contains(p));
        }
    }
}

/// the gathered group joins the groups
proof fn lemma_ledger_close(
    e0: Set<(usize, usize)>,
    rest: Set<(usize, usize)>,
    sk: Seq<(usize, usize)>,
    grp: Set<(usize, usize)>,
    groups: Seq<Set<(usize, usize)>>,
)
    requires
        ledger(e0, rest, sk, grp, groups),
        grp.len() > 0,
    ensures
        ledger(e0, rest, sk, Set::empty(), groups.push(grp)),
{
    let g2 = groups.push(grp);
    assert forall|p: (usize, usize)| in_groups(g2, p) <==> (in_groups(groups, p) || grp.contains(p)) by {
        if in_groups(g2, p) {
            let k = choose|k: int| 0 <= k < g2.len() && #[trigger] g2[k].contains(p);
            if k < groups.len() {
                assert(groups[k].contains(p));
            }
        }
        if in_groups(groups, p) {
            let k = choose|k: int| 0 <= k < groups.len() && #[trigger] groups[k].contains(p);
            assert(g2[k].contains(p));
        }
        if grp.contains(p) {
            assert(g2[groups.len() as int].contains(p));
        }
    }
    assert forall|i: int, j: int, p: (usize, usize)|
        0 <= i < j < g2.len() && #[trigger] g2[i].contains(p) implies !#[trigger] g2[j].contains(p) by {
        if j == groups.len() {
            assert(groups[i].contains(p));
            assert(in_groups(groups, p));
        } else {
            assert(groups[i].contains(p));
        }
    }
}

/// with the graph, the stack and the gathered group empty, the groups split the edges
proof fn lemma_ledger_done(e0: Set<(usize, usize)>, groups: Seq<Set<(usize, usize)>>)
    requires
        ledger(e0, Set::empty(), Seq::empty(), Set::empty(), groups),
    ensures
        edge_partition(e0, groups),
{
}

/// the vertices an edge set touches after one more edge
proof fn lemma_ends_insert(g: Set<(usize, usize)>, a: usize, b: usize, v: usize)
    ensures
        ends(g.insert(ukey(a, b))).contains(v) <==> (ends(g).contains(v) || v == a || v == b),
{
    let k = ukey(a, b);
    if ends(g.insert(k)).contains(v) {
        let p = choose|p: (usize, usize)| #[trigger] g.insert(k).contains(p) && (p.0 == v || p.1 == v);
        if p != k {
            assert(g.contains(p));
        }
    }
    if ends(g).contains(v) {
        let p = choose|p: (usize, usize)| #[trigger] g.contains(p) && (p.0 == v || p.1 == v);
        assert(g.insert(k).contains(p));
    }
    if v == a || v == b {
        assert(g.insert(k).contains(k));
    }
}

/// removing the edge `{i, j}` removes its key
proof fn lemma_keys_removed(adj: Seq<Seq<usize>>, i: usize, j: usize)
    requires
        crate::graph_spec::adj_wf(adj),
        i < adj.len(),
        j < adj.len(),
        adj[i as int].contains(j),
    ensures
        edge_keys(adj).contains(ukey(i, j)),
        edge_keys(crate::graph_spec::removed_edge(adj, i, j)) == edge_keys(adj).remove(ukey(i, j)),
{
    crate::graph_spec::lemma_remove_edge(adj, i, j);
    let r = crate::graph_spec::removed_edge(adj, i, j);
    assert(is_edge(adj, i, j) && is_edge(adj, j, i));
    assert(edge_keys(r) =~= edge_keys(adj).remove(ukey(i, j))) by {
        assert forall|p: (usize, usize)| edge_keys(r).contains(p) <==> edge_keys(adj).remove(ukey(i, j)).contains(p) by {
            assert(is_edge(r, p.0, p.1) <==> (is_edge(adj, p.0, p.1) && !(p.0 == i && p.1 == j) && !(p.0 == j && p.1 == i)));
        }
    }
}

/// the entries of `touched` are marked in `mark` and nothing else is; no entry twice
spec fn marks_agree(mark: Seq<bool>, touched: Seq<usize>, n: nat) -> bool {
    &&& mark.len() == n
    &&& touched.no_duplicates()
    &&& forall|k: int| 0 <= k < touched.len() ==> #[trigger] touched[k] < n
    &&& forall|v: usize| v < n ==> (#[trigger] mark[v as int] <==> touched.contains(v))
}

/// marks `v` and lists it in `touched` unless it is marked already
fn mark_vertex(mark: &mut Vec<bool>, touched: &mut Vec<usize>, v: usize, n: usize)
    requires
        marks_agree(old(mark)@, old(touched)@, n as nat),
        v < n,
    ensures
        marks_agree(final(mark)@, final(touched)@, n as nat),
        forall|x: usize| #[trigger] final(touched)@.contains(x) <==> (old(touched)@.contains(x) || x == v),
        final(touched)@.len() >= old(touched)@.len(),
{
    if !mark[v] {
        let ghost t0 = touched@;
        mark.set(v, true);
        touched.push(v);
        proof {
            lemma_push_contains(t0, v);
            lemma_push_no_dup(t0, v);
        }
    } else {
        proof {
            lemma_push_contains(touched@, v);
        }
    }
}

/// takes every mark off again
fn clear_marks(mark: &mut Vec<bool>, touched: &Vec<usize>, n: usize)
    requires
        marks_agree(old(mark)@, touched@, n as nat),
    ensures
        final(mark)@.len() == n,
        forall|v: int| 0 <= v < n ==> !#[trigger] final(mark)@[v],
{
    let m = touched.len();
    let mut k: usize = 0;
    assert(touched@.skip(0) =~= touched@);
    while k < m
        invariant
            m == touched@.len(),
            k <= m,
            mark@.len() == n,
            forall|q: int| 0 <= q < m ==> #[trigger] touched@[q] < n,
            forall|v: usize| v < n ==> (#[trigger] mark@[v as int] ==> touched@.skip(k as int).contains(v)),
        decreases m - k,
    {
        let v = touched[k];
        mark.set(v, false);
        proof {
            assert forall|x: usize| x < n implies (#[trigger] mark@[x as int] ==> touched@.skip(k as int + 1).contains(x)) by {
                if mark@[x as int] {
                    assert(touched@.skip(k as int).contains(x));
                    let q = choose|q: int| 0 <= q < touched@.skip(k as int).len() && touched@.skip(k as int)[q] == x;
                    assert(q != 0);
                    assert(touched@.skip(k as int + 1)[q - 1] == x);
                }
            }
        }
        k = k + 1;
    }
    proof {
        assert forall|v: int| 0 <= v < n implies !#[trigger] mark@[v] by {
            assert(touched@.skip(m as int).len() == 0);
            if mark@[v] {
                assert(touched@.skip(m as int).contains(v as usize));
            }
        }
    }
}

/// the edges on the stack, each as the pair with the smaller end first
spec fn stack_keys(es: Seq<(usize, usize)>) -> Seq<(usize, usize)> {
    es.map_values(|e: (usize, usize)| ukey(e.0, e.1))
}

/// every edge on the stack joins two different vertices below `n`
spec fn edges_in_range(es: Seq<(usize, usize)>, n: usize) -> bool {
    forall|k: int| #![trigger es[k]] 0 <= k < es.len() ==> es[k].0 < n && es[k].1 < n && es[k].0 != es[k].1
}

/// the keys of the stack after a push and before a pop
proof fn lemma_stack_keys(es: Seq<(usize, usize)>, e: (usize, usize))
    ensures
        stack_keys(es).len() == es.len(),
        stack_keys(es.push(e)) == stack_keys(es).push(ukey(e.0, e.1)),
        es.len() > 0 ==> stack_keys(es.drop_last()) == stack_keys(es).drop_last(),
        es.len() > 0 ==> stack_keys(es).last() == ukey(es.last().0, es.last().1),
{
    assert(stack_keys(es.push(e)) =~= stack_keys(es).push(ukey(e.0, e.1)));
    if es.len() > 0 {
        assert(stack_keys(es.drop_last()) =~= stack_keys(es).drop_last());
    }
}

/// a graph whose vertices all have degree zero has no edges
proof fn lemma_no_edges(adj: Seq<Seq<usize>>)
    requires
        forall|v: int| 0 <= v < adj.len() ==> (#[trigger] adj[v]).len() == 0,
    ensures
        edge_keys(adj) == Set::<(usize, usize)>::empty(),
{
    assert forall|p: (usize, usize)| !edge_keys(adj).contains(p) by {
        if edge_keys(adj).contains(p) {
            assert(adj[p.0 as int].contains(p.1));
            assert(adj[p.0 as int].len() == 0);
        }
    }
    assert(edge_keys(adj) =~= Set::<(usize, usize)>::empty());
}

/// every number and every low point is below `n`
spec fn labels_below(number: Seq<usize>, low: Seq<usize>, n: usize) -> bool {
    forall|v: int| 0 <= v < n ==> #[trigger] number[v] < n && low[v] < n
}

/// group `k` touches `z`, and `z` is not the attachment `att[k]` of the group
pub open spec fn owns(groups: Seq<Set<(usize, usize)>>, att: Seq<usize>, k: int, z: usize) -> bool {
    ends(groups[k]).contains(z) && z != att[k]
}

/// The groups hang together as the blocks of a graph do, like the branches of a forest:
/// each group `k` touches its attachment vertex `att[k]`; a vertex that a group touches
/// other than as its attachment is touched by every other group at most as that group's
/// attachment; and from every vertex with an edge some vertex can be reached that no
/// group touches other than as its attachment.
pub open spec fn attached_forest(adj: Seq<Seq<usize>>, groups: Seq<Set<(usize, usize)>>, att: Seq<usize>) -> bool {
    &&& att.len() == groups.len()
    &&& forall|k: int| 0 <= k < groups.len() ==> ends(#[trigger] groups[k]).contains(att[k])
    &&& forall|k1: int, k2: int, z: usize|
        0 <= k1 < groups.len() && 0 <= k2 < groups.len() && #[trigger] owns(groups, att, k1, z) && #[trigger] owns(
            groups,
            att,
            k2,
            z,
        ) ==> k1 == k2
    &&& forall|v: usize|
        v < adj.len() && #[trigger] adj[v as int].len() > 0 ==> exists|r: usize|
            #[trigger] reachable(adj, v, r) && forall|k: int| 0 <= k < groups.len() ==> !#[trigger] owns(groups, att, k, r)
}

/// the vertex `z` stands at position `d <= j` of the vertex stack, and `d` is at least the
/// low point of one of the vertices above position `j`
spec fn hangs_at(vs: Seq<usize>, low: Seq<usize>, z: usize, j: int) -> bool {
    exists|d: int, m: int|
        #![trigger vs[d], vs[m]]
        0 <= d <= j < m < vs.len() && vs[d] == z && d >= low[vs[m] as int]
}

/// no edge of `es` touches `z`
spec fn off_stack(es: Seq<(usize, usize)>, z: usize) -> bool {
    forall|i: int| 0 <= i < es.len() ==> (#[trigger] es[i]).0 != z && es[i].1 != z
}

/// The depth first search keeps these about its stacks: the vertex at position `d` of the
/// vertex stack has number `d`; each vertex was first reached by the edge at position
/// `tpos` of its vertex, or is the root of the search (`tpos` negative); an edge on the
/// stack comes after the edges by which its ends were first reached; and an edge above the
/// tree edge of the vertex at position `j + 1` whose end was reached earlier ends at a vertex
/// of the stack at a position at most `j`, and at least the low point of some vertex above.
spec fn search_inv(
    es: Seq<(usize, usize)>,
    vs: Seq<usize>,
    tp: Seq<int>,
    tpos: Seq<int>,
    low: Seq<usize>,
    number: Seq<usize>,
    handled: Seq<bool>,
) -> bool {
    &&& stack_numbers(vs, number)
    &&& stack_tpos(vs, tp, tpos)
    &&& edge_tpos(es, tpos, handled)
    &&& hangs_inv(es, vs, tp, tpos, low)
}

/// the vertex at position `d` of the vertex stack has number `d`
#[verifier::opaque]
spec fn stack_numbers(vs: Seq<usize>, number: Seq<usize>) -> bool {
    forall|d: int| 0 <= d < vs.len() ==> number[#[trigger] vs[d] as int] == d
}

/// the root of the search was reached by no edge, each other vertex of the stack by the
/// tree edge below it
#[verifier::opaque]
spec fn stack_tpos(vs: Seq<usize>, tp: Seq<int>, tpos: Seq<int>) -> bool {
    &&& vs.len() > 0 ==> tpos[vs[0] as int] < 0
    &&& forall|d: int| 1 <= d < vs.len() ==> tpos[#[trigger] vs[d] as int] == tp[d - 1]
}

/// the ends of each edge on the stack were reached by tree edges no higher on the stack
#[verifier::opaque]
spec fn edge_tpos(es: Seq<(usize, usize)>, tpos: Seq<int>, handled: Seq<bool>) -> bool {
    forall|i: int|
        #![trigger es[i]]
        0 <= i < es.len() ==> {
            &&& tpos[es[i].0 as int] <= i
            &&& tpos[es[i].1 as int] <= i
            &&& tpos[es[i].0 as int] >= 0 ==> es[tpos[es[i].0 as int]].1 == es[i].0
            &&& tpos[es[i].1 as int] >= 0 ==> es[tpos[es[i].1 as int]].1 == es[i].1
            &&& handled[es[i].0 as int]
            &&& handled[es[i].1 as int]
        }
}

/// an edge above the tree edge of the vertex at position `j + 1` whose end was reached
/// earlier ends at a vertex of the stack at a position at most `j`, and at least the low
/// point of some vertex above position `j`
#[verifier::opaque]
spec fn hangs_inv(es: Seq<(usize, usize)>, vs: Seq<usize>, tp: Seq<int>, tpos: Seq<int>, low: Seq<usize>) -> bool {
    forall|j: int, i: int|
        #![trigger tp[j], es[i]]
        0 <= j < tp.len() && tp[j] <= i < es.len() ==> {
            &&& tpos[es[i].0 as int] < tp[j] ==> hangs_at(vs, low, es[i].0, j)
            &&& tpos[es[i].1 as int] < tp[j] ==> hangs_at(vs, low, es[i].1, j)
        }
}

/// each vertex that a group owns is recorded as owned by it, was reached by a tree edge,
/// is done with: off both stacks
#[verifier::opaque]
spec fn owner_inv(
    es: Seq<(usize, usize)>,
    vs: Seq<usize>,
    tpos: Seq<int>,
    handled: Seq<bool>,
    groups: Seq<Set<(usize, usize)>>,
    att: Seq<usize>,
    owner: Seq<int>,
    n: nat,
) -> bool {
    &&& att.len() == groups.len()
    &&& owner.len() == n
    &&& forall|k: int| 0 <= k < groups.len() ==> ends(#[trigger] groups[k]).contains(att[k])
    &&& forall|k: int, z: usize|
        0 <= k < groups.len() && #[trigger] owns(groups, att, k, z) ==> {
            &&& z < n
            &&& owner[z as int] == k
            &&& handled[z as int]
            &&& tpos[z as int] >= 0
            &&& !vs.contains(z)
            &&& off_stack(es, z)
        }
}

/// each vertex reached so far is reached from the root of its search, which no group owns
#[verifier::opaque]
spec fn root_inv(a0: Seq<Seq<usize>>, tpos: Seq<int>, handled: Seq<bool>, root: Seq<usize>, n: nat) -> bool {
    &&& tpos.len() == n
    &&& root.len() == n
    &&& forall|z: int|
        0 <= z < n && #[trigger] handled[z] ==> {
            &&& root[z] < n
            &&& tpos[root[z] as int] < 0
            &&& handled[root[z] as int]
            &&& reachable(a0, root[z], z as usize)
        }
}

/// an edge of `a0` given by its key
proof fn lemma_key_edge(a0: Seq<Seq<usize>>, a: usize, b: usize)
    requires
        crate::graph_spec::adj_wf(a0),
        edge_keys(a0).contains(ukey(a, b)),
    ensures
        a < a0.len(),
        a0[a as int].contains(b),
{
    let k = ukey(a, b);
    assert(is_edge(a0, k.0, k.1));
}

/// the search starts at the root `pivot`
proof fn lemma_search_start(
    a0: Seq<Seq<usize>>,
    tpos: Seq<int>,
    tpos2: Seq<int>,
    handled: Seq<bool>,
    handled2: Seq<bool>,
    number2: Seq<usize>,
    low: Seq<usize>,
    groups: Seq<Set<(usize, usize)>>,
    att: Seq<usize>,
    owner: Seq<int>,
    root: Seq<usize>,
    root2: Seq<usize>,
    n: nat,
    pivot: usize,
)
    requires
        a0.len() == n,
        pivot < n,
        handled.len() == n,
        !handled[pivot as int],
        owner_inv(Seq::empty(), Seq::empty(), tpos, handled, groups, att, owner, n),
        root_inv(a0, tpos, handled, root, n),
        tpos2 == tpos.update(pivot as int, -1),
        handled2 == handled.update(pivot as int, true),
        root2 == root.update(pivot as int, pivot),
        number2[pivot as int] == 0,
    ensures
        search_inv(Seq::empty(), seq![pivot], Seq::empty(), tpos2, low, number2, handled2),
        owner_inv(Seq::empty(), seq![pivot], tpos2, handled2, groups, att, owner, n),
        root_inv(a0, tpos2, handled2, root2, n),
{
    reveal(owner_inv);
    reveal(root_inv);
    reveal(edge_tpos);
    reveal(hangs_inv);
    reveal(stack_numbers);
    reveal(stack_tpos);
    let vs = seq![pivot];
    assert(vs[0] == pivot);
    assert forall|k: int, z: usize| 0 <= k < groups.len() && #[trigger] owns(groups, att, k, z) implies !vs.contains(z) by {
        if vs.contains(z) {
            let q = choose|q: int| 0 <= q < vs.len() && vs[q] == z;
            assert(z == pivot);
        }
    }
    assert forall|z: int| 0 <= z < n && #[trigger] handled2[z] implies {
        &&& root2[z] < n
        &&& tpos2[root2[z] as int] < 0
        &&& handled2[root2[z] as int]
        &&& reachable(a0, root2[z], z as usize)
    } by {
        if z == pivot {
            lemma_reachable_refl(a0, pivot);
        } else {
            assert(handled[z]);
        }
    }
}

/// the facts about the stacks that a push of a tree edge uses
#[verifier::opaque]
spec fn push_ready(
    es: Seq<(usize, usize)>,
    vs: Seq<usize>,
    tp: Seq<int>,
    tpos: Seq<int>,
    low: Seq<usize>,
    number: Seq<usize>,
    handled: Seq<bool>,
    n: nat,
) -> bool {
    &&& handled.len() == n
    &&& tpos.len() == n
    &&& low.len() == n
    &&& number.len() == n
    &&& n <= usize::MAX
    &&& forall|i: int| 0 <= i < es.len() ==> (#[trigger] es[i]).0 < n && es[i].1 < n
    &&& vs.len() >= 1
    &&& tp.len() + 1 == vs.len()
    &&& forall|k: int| 0 <= k < vs.len() ==> #[trigger] vs[k] < n && handled[vs[k] as int]
    &&& forall|k: int| 0 <= k < tp.len() ==> 0 <= #[trigger] tp[k] < es.len() && es[tp[k]] == (vs[k], vs[k + 1])
    &&& forall|i: int, j: int| 0 <= i < j < tp.len() ==> #[trigger] tp[i] < #[trigger] tp[j]
}

proof fn lemma_tree_push_edges(
    es: Seq<(usize, usize)>,
    vs: Seq<usize>,
    tp: Seq<int>,
    tpos: Seq<int>,
    low: Seq<usize>,
    number: Seq<usize>,
    handled: Seq<bool>,
    n: nat,
    w: usize,
)
    requires
        stack_tpos(vs, tp, tpos),
        edge_tpos(es, tpos, handled),
        push_ready(es, vs, tp, tpos, low, number, handled, n),
        w < n,
        !handled[w as int],
    ensures
        edge_tpos(
            es.push((vs.last(), w)),
            tpos.update(w as int, es.len() as int),
            handled.update(w as int, true),
        ),
{
    reveal(edge_tpos);
    reveal(push_ready);
    reveal(stack_tpos);
    let t = vs.len() - 1;
    let top = vs[t];
    let pp = es.len() as int;
    let es2 = es.push((top, w));
    let tpos2 = tpos.update(w as int, pp);
    let handled2 = handled.update(w as int, true);
    assert(vs.last() == top);
    assert(handled[top as int]);
    assert(top != w);
    assert(tpos2[top as int] == tpos[top as int]);
    if t > 0 {
        assert(tpos[top as int] == tp[t - 1]);
        assert(es[tp[t - 1]] == (vs[t - 1], vs[t]));
    }
    assert forall|i: int| #![trigger es2[i]] 0 <= i < es2.len() implies {
        &&& tpos2[es2[i].0 as int] <= i
        &&& tpos2[es2[i].1 as int] <= i
        &&& tpos2[es2[i].0 as int] >= 0 ==> es2[tpos2[es2[i].0 as int]].1 == es2[i].0
        &&& tpos2[es2[i].1 as int] >= 0 ==> es2[tpos2[es2[i].1 as int]].1 == es2[i].1
        &&& handled2[es2[i].0 as int]
        &&& handled2[es2[i].1 as int]
    } by {
        if i < es.len() {
            assert(es2[i] == es[i]);
            assert(handled[es[i].0 as int] && handled[es[i].1 as int]);
            assert(es[i].0 != w && es[i].1 != w);
            if tpos[es[i].0 as int] >= 0 {
                assert(es2[tpos[es[i].0 as int]] == es[tpos[es[i].0 as int]]);
            }
            if tpos[es[i].1 as int] >= 0 {
                assert(es2[tpos[es[i].1 as int]] == es[tpos[es[i].1 as int]]);
            }
        } else {
            assert(es2[i] == (top, w));
            if t > 0 {
                assert(es2[tp[t - 1]] == es[tp[t - 1]]);
            }
        }
    }
}

/// a vertex that hangs at `j` still does when the stack only grows above and the low
/// points only drop
proof fn lemma_hang_keep(vs: Seq<usize>, low: Seq<usize>, vs2: Seq<usize>, low2: Seq<usize>, z: usize, j: int)
    requires
        hangs_at(vs, low, z, j),
        vs2.len() >= vs.len(),
        forall|d: int| 0 <= d < vs.len() ==> #[trigger] vs2[d] == vs[d],
        forall|d: int| 0 <= d < vs.len() ==> low2[#[trigger] vs[d] as int] <= low[vs[d] as int],
    ensures
        hangs_at(vs2, low2, z, j),
{
    let (d, m) = choose|d: int, m: int|
        #![trigger vs[d], vs[m]]
        0 <= d <= j < m < vs.len() && vs[d] == z && d >= low[vs[m] as int];
    assert(vs2[d] == vs[d] && vs2[m] == vs[m]);
    assert(low2[vs[m] as int] <= low[vs[m] as int]);
}

proof fn lemma_tree_push_hangs(
    es: Seq<(usize, usize)>,
    vs: Seq<usize>,
    tp: Seq<int>,
    tpos: Seq<int>,
    low: Seq<usize>,
    number: Seq<usize>,
    handled: Seq<bool>,
    low2: Seq<usize>,
    n: nat,
    w: usize,
)
    requires
        stack_numbers(vs, number),
        stack_tpos(vs, tp, tpos),
        edge_tpos(es, tpos, handled),
        hangs_inv(es, vs, tp, tpos, low),
        push_ready(es, vs, tp, tpos, low, number, handled, n),
        w < n,
        !handled[w as int],
        low2 == low.update(w as int, number[vs.last() as int]),
    ensures
        hangs_inv(
            es.push((vs.last(), w)),
            vs.push(w),
            tp.push(es.len() as int),
            tpos.update(w as int, es.len() as int),
            low2,
        ),
{
    reveal(edge_tpos);
    reveal(hangs_inv);
    reveal(push_ready);
    reveal(stack_tpos);
    reveal(stack_numbers);
    let t = vs.len() - 1;
    let top = vs[t];
    let pp = es.len() as int;
    let es2 = es.push((top, w));
    let vs2 = vs.push(w);
    let tp2 = tp.push(pp);
    let tpos2 = tpos.update(w as int, pp);
    assert(vs.last() == top);
    assert(number[top as int] == t);
    assert(handled[top as int]);
    assert(top != w);
    assert(tpos2[top as int] == tpos[top as int]);
    if t > 0 {
        assert(tpos[top as int] == tp[t - 1]);
    }
    assert forall|d: int| 0 <= d < vs.len() implies #[trigger] vs2[d] == vs[d] by {}
    assert forall|d: int| 0 <= d < vs.len() implies low2[#[trigger] vs[d] as int] <= low[vs[d] as int] by {
        assert(handled[vs[d] as int]);
        assert(vs[d] != w);
    }
    assert forall|j: int, i: int|
        #![trigger tp2[j], es2[i]]
        0 <= j < tp2.len() && tp2[j] <= i < es2.len() implies {
            &&& tpos2[es2[i].0 as int] < tp2[j] ==> hangs_at(vs2, low2, es2[i].0, j)
            &&& tpos2[es2[i].1 as int] < tp2[j] ==> hangs_at(vs2, low2, es2[i].1, j)
        } by {
        if j < tp.len() {
            assert(tp2[j] == tp[j]);
            if i < es.len() {
                assert(es2[i] == es[i]);
                assert(handled[es[i].0 as int] && handled[es[i].1 as int]);
                assert(tp[j] <= i < es.len());
                assert(es[i].0 != w && es[i].1 != w);
                if tpos[es[i].0 as int] < tp[j] {
                    lemma_hang_keep(vs, low, vs2, low2, es[i].0, j);
                }
                if tpos[es[i].1 as int] < tp[j] {
                    lemma_hang_keep(vs, low, vs2, low2, es[i].1, j);
                }
            } else {
                assert(es2[i] == (top, w));
                assert(t > 0);
                if j < t - 1 {
                    assert(tp[j] < tp[t - 1]);
                }
            }
        } else {
            assert(j == t);
            assert(i == pp);
            assert(es2[i] == (top, w));
            assert(vs2[t] == top && vs2[t + 1] == w);
            assert(low2[w as int] == t);
            assert(hangs_at(vs2, low2, top, j));
        }
    }
}

proof fn lemma_tree_push_stack(
    es: Seq<(usize, usize)>,
    vs: Seq<usize>,
    tp: Seq<int>,
    tpos: Seq<int>,
    low: Seq<usize>,
    number: Seq<usize>,
    number2: Seq<usize>,
    handled: Seq<bool>,
    n: nat,
    w: usize,
    pp: int,
)
    requires
        stack_numbers(vs, number),
        stack_tpos(vs, tp, tpos),
        push_ready(es, vs, tp, tpos, low, number, handled, n),
        vs.len() < n,
        w < n,
        !handled[w as int],
        number2 == number.update(w as int, vs.len() as usize),
    ensures
        stack_numbers(vs.push(w), number2),
        stack_tpos(vs.push(w), tp.push(pp), tpos.update(w as int, pp)),
{
    reveal(push_ready);
    reveal(stack_tpos);
    reveal(stack_numbers);
    let vs2 = vs.push(w);
    let tp2 = tp.push(pp);
    let tpos2 = tpos.update(w as int, pp);
    assert forall|d: int| 0 <= d < vs.len() implies #[trigger] vs[d] != w by {
        assert(handled[vs[d] as int]);
    }
    assert forall|d: int| 0 <= d < vs2.len() implies number2[#[trigger] vs2[d] as int] == d by {
        if d < vs.len() {
            assert(vs2[d] == vs[d]);
        }
    }
    assert(vs2[0] == vs[0]);
    assert forall|d: int| 1 <= d < vs2.len() implies tpos2[#[trigger] vs2[d] as int] == tp2[d - 1] by {
        if d < vs.len() {
            assert(vs2[d] == vs[d]);
            assert(tp2[d - 1] == tp[d - 1]);
        }
    }
}

/// a tree edge from the top of the vertex stack reaches the new vertex `w`
proof fn lemma_search_tree_push(
    a0: Seq<Seq<usize>>,
    es: Seq<(usize, usize)>,
    vs: Seq<usize>,
    tp: Seq<int>,
    tpos: Seq<int>,
    low: Seq<usize>,
    number: Seq<usize>,
    handled: Seq<bool>,
    low2: Seq<usize>,
    number2: Seq<usize>,
    groups: Seq<Set<(usize, usize)>>,
    att: Seq<usize>,
    owner: Seq<int>,
    root: Seq<usize>,
    n: nat,
    w: usize,
)
    requires
        adj_wf(a0),
        a0.len() == n,
        search_inv(es, vs, tp, tpos, low, number, handled),
        owner_inv(es, vs, tpos, handled, groups, att, owner, n),
        root_inv(a0, tpos, handled, root, n),
        push_ready(es, vs, tp, tpos, low, number, handled, n),
        vs.len() < n,
        w < n,
        !handled[w as int],
        a0[vs.last() as int].contains(w),
        low2 == low.update(w as int, number[vs.last() as int]),
        number2 == number.update(w as int, vs.len() as usize),
    ensures
        search_inv(
            es.push((vs.last(), w)),
            vs.push(w),
            tp.push(es.len() as int),
            tpos.update(w as int, es.len() as int),
            low2,
            number2,
            handled.update(w as int, true),
        ),
        owner_inv(
            es.push((vs.last(), w)),
            vs.push(w),
            tpos.update(w as int, es.len() as int),
            handled.update(w as int, true),
            groups,
            att,
            owner,
            n,
        ),
        root_inv(
            a0,
            tpos.update(w as int, es.len() as int),
            handled.update(w as int, true),
            root.update(w as int, root[vs.last() as int]),
            n,
        ),
{
    let t = vs.len() - 1;
    let top = vs[t];
    let pp = es.len() as int;
    let es2 = es.push((top, w));
    let vs2 = vs.push(w);
    let tp2 = tp.push(pp);
    let tpos2 = tpos.update(w as int, pp);
    let handled2 = handled.update(w as int, true);
    let root2 = root.update(w as int, root[top as int]);
    assert(vs.last() == top);
    lemma_tree_push_edges(es, vs, tp, tpos, low, number, handled, n, w);
    lemma_tree_push_hangs(es, vs, tp, tpos, low, number, handled, low2, n, w);
    lemma_tree_push_stack(es, vs, tp, tpos, low, number, number2, handled, n, w, pp);
    lemma_tree_push_owners(es, vs, tp, tpos, low, number, handled, groups, att, owner, n, w);
    lemma_tree_push_roots(a0, es, vs, tp, tpos, low, number, handled, root, n, w);
}

proof fn lemma_tree_push_owners(
    es: Seq<(usize, usize)>,
    vs: Seq<usize>,
    tp: Seq<int>,
    tpos: Seq<int>,
    low: Seq<usize>,
    number: Seq<usize>,
    handled: Seq<bool>,
    groups: Seq<Set<(usize, usize)>>,
    att: Seq<usize>,
    owner: Seq<int>,
    n: nat,
    w: usize,
)
    requires
        owner_inv(es, vs, tpos, handled, groups, att, owner, n),
        push_ready(es, vs, tp, tpos, low, number, handled, n),
        w < n,
        !handled[w as int],
    ensures
        owner_inv(
            es.push((vs.last(), w)),
            vs.push(w),
            tpos.update(w as int, es.len() as int),
            handled.update(w as int, true),
            groups,
            att,
            owner,
            n,
        ),
{
    let t = vs.len() - 1;
    let top = vs[t];
    let es2 = es.push((top, w));
    let vs2 = vs.push(w);
    let tpos2 = tpos.update(w as int, es.len() as int);
    let handled2 = handled.update(w as int, true);
    reveal(owner_inv);
    reveal(push_ready);
    assert(vs.last() == top);
    assert forall|k: int, z: usize| 0 <= k < groups.len() && #[trigger] owns(groups, att, k, z) implies {
        &&& z < n
        &&& owner[z as int] == k
        &&& handled2[z as int]
        &&& tpos2[z as int] >= 0
        &&& !vs2.contains(z)
        &&& off_stack(es2, z)
    } by {
        assert(handled[z as int]);
        assert(z != w);
        assert(!vs.contains(z));
        lemma_push_contains(vs, w);
        assert(top != z) by {
            assert(vs.contains(top));
        }
        assert forall|i: int| 0 <= i < es2.len() implies (#[trigger] es2[i]).0 != z && es2[i].1 != z by {
            if i < es.len() {
                assert(es2[i] == es[i]);
            }
        }
    }
}

proof fn lemma_tree_push_roots(
    a0: Seq<Seq<usize>>,
    es: Seq<(usize, usize)>,
    vs: Seq<usize>,
    tp: Seq<int>,
    tpos: Seq<int>,
    low: Seq<usize>,
    number: Seq<usize>,
    handled: Seq<bool>,
    root: Seq<usize>,
    n: nat,
    w: usize,
)
    requires
        adj_wf(a0),
        a0.len() == n,
        root_inv(a0, tpos, handled, root, n),
        push_ready(es, vs, tp, tpos, low, number, handled, n),
        w < n,
        !handled[w as int],
        a0[vs.last() as int].contains(w),
    ensures
        root_inv(
            a0,
            tpos.update(w as int, es.len() as int),
            handled.update(w as int, true),
            root.update(w as int, root[vs.last() as int]),
            n,
        ),
{
    let t = vs.len() - 1;
    let top = vs[t];
    let tpos2 = tpos.update(w as int, es.len() as int);
    let handled2 = handled.update(w as int, true);
    let root2 = root.update(w as int, root[top as int]);
    reveal(root_inv);
    reveal(push_ready);
    assert(vs.last() == top);
    assert forall|z: int| 0 <= z < n && #[trigger] handled2[z] implies {
        &&& root2[z] < n
        &&& tpos2[root2[z] as int] < 0
        &&& handled2[root2[z] as int]
        &&& reachable(a0, root2[z], z as usize)
    } by {
        if z == w {
            assert(handled[top as int]);
            assert(root[top as int] != w);
            lemma_reachable_step(a0, root[top as int], top, w);
        } else {
            assert(handled[z]);
            assert(root[z] != w);
        }
    }
}

/// an edge from the top of the vertex stack back to the vertex `y` below it
proof fn lemma_search_back_edge(
    es: Seq<(usize, usize)>,
    vs: Seq<usize>,
    tp: Seq<int>,
    tpos: Seq<int>,
    low: Seq<usize>,
    number: Seq<usize>,
    handled: Seq<bool>,
    low2: Seq<usize>,
    groups: Seq<Set<(usize, usize)>>,
    att: Seq<usize>,
    owner: Seq<int>,
    n: nat,
    y: usize,
)
    requires
        search_inv(es, vs, tp, tpos, low, number, handled),
        owner_inv(es, vs, tpos, handled, groups, att, owner, n),
        push_ready(es, vs, tp, tpos, low, number, handled, n),
        vs.contains(y),
        y != vs.last(),
        low2.len() == n,
        forall|v: int| 0 <= v < n && v != vs.last() ==> #[trigger] low2[v] == low[v],
        low2[vs.last() as int] <= low[vs.last() as int],
        low2[vs.last() as int] <= number[y as int],
    ensures
        search_inv(es.push((vs.last(), y)), vs, tp, tpos, low2, number, handled),
        owner_inv(es.push((vs.last(), y)), vs, tpos, handled, groups, att, owner, n),
{
    reveal(edge_tpos);
    reveal(hangs_inv);
    reveal(push_ready);
    reveal(stack_tpos);
    reveal(stack_numbers);
    reveal(owner_inv);
    let t = vs.len() - 1;
    let top = vs[t];
    let pp = es.len() as int;
    let es2 = es.push((top, y));
    assert(vs.last() == top);
    let d = choose|d: int| 0 <= d < vs.len() && vs[d] == y;
    assert(d != t);
    assert(number[y as int] == d);
    assert(handled[top as int] && handled[y as int]);
    if t > 0 {
        assert(tpos[top as int] == tp[t - 1]);
        assert(es[tp[t - 1]] == (vs[t - 1], vs[t]));
    }
    if d > 0 {
        assert(tpos[y as int] == tp[d - 1]);
        assert(es[tp[d - 1]] == (vs[d - 1], vs[d]));
    }
    assert forall|i: int| #![trigger es2[i]] 0 <= i < es2.len() implies {
        &&& tpos[es2[i].0 as int] <= i
        &&& tpos[es2[i].1 as int] <= i
        &&& tpos[es2[i].0 as int] >= 0 ==> es2[tpos[es2[i].0 as int]].1 == es2[i].0
        &&& tpos[es2[i].1 as int] >= 0 ==> es2[tpos[es2[i].1 as int]].1 == es2[i].1
        &&& handled[es2[i].0 as int]
        &&& handled[es2[i].1 as int]
    } by {
        if i < es.len() {
            assert(es2[i] == es[i]);
            if tpos[es[i].0 as int] >= 0 {
                assert(es2[tpos[es[i].0 as int]] == es[tpos[es[i].0 as int]]);
            }
            if tpos[es[i].1 as int] >= 0 {
                assert(es2[tpos[es[i].1 as int]] == es[tpos[es[i].1 as int]]);
            }
        } else {
            assert(es2[i] == (top, y));
            if t > 0 {
                assert(es2[tp[t - 1]] == es[tp[t - 1]]);
            }
            if d > 0 {
                assert(es2[tp[d - 1]] == es[tp[d - 1]]);
            }
        }
    }
    assert forall|e: int| 0 <= e < vs.len() implies #[trigger] vs[e] == vs[e] by {}
    assert forall|e: int| 0 <= e < vs.len() implies low2[#[trigger] vs[e] as int] <= low[vs[e] as int] by {
        assert(vs[e] < n);
    }
    assert forall|j: int, i: int|
        #![trigger tp[j], es2[i]]
        0 <= j < tp.len() && tp[j] <= i < es2.len() implies {
            &&& tpos[es2[i].0 as int] < tp[j] ==> hangs_at(vs, low2, es2[i].0, j)
            &&& tpos[es2[i].1 as int] < tp[j] ==> hangs_at(vs, low2, es2[i].1, j)
        } by {
        if i < es.len() {
            assert(es2[i] == es[i]);
            if tpos[es[i].0 as int] < tp[j] {
                lemma_hang_keep(vs, low, vs, low2, es[i].0, j);
            }
            if tpos[es[i].1 as int] < tp[j] {
                lemma_hang_keep(vs, low, vs, low2, es[i].1, j);
            }
        } else {
            assert(es2[i] == (top, y));
            if j < t - 1 {
                assert(tp[j] < tp[t - 1]);
            }
            if tpos[y as int] < tp[j] {
                if d > 0 && d - 1 > j {
                    assert(tp[j] < tp[d - 1]);
                }
                assert(vs[d] == y && vs[t] == top);
                assert(hangs_at(vs, low2, y, j));
            }
        }
    }
    assert forall|k: int, z: usize| 0 <= k < groups.len() && #[trigger] owns(groups, att, k, z) implies off_stack(
        es2,
        z,
    ) by {
        assert(vs.contains(top));
        assert forall|i: int| 0 <= i < es2.len() implies (#[trigger] es2[i]).0 != z && es2[i].1 != z by {
            if i < es.len() {
                assert(es2[i] == es[i]);
            }
        }
    }
}

/// a low point that is one of the vertices above `j` may be handed down to the vertex below
proof fn lemma_hang_pop(vs: Seq<usize>, low: Seq<usize>, low2: Seq<usize>, z: usize, j: int)
    requires
        hangs_at(vs, low, z, j),
        vs.len() >= 2,
        j < vs.len() - 2,
        forall|d: int| 0 <= d < vs.len() - 1 ==> low2[#[trigger] vs[d] as int] <= low[vs[d] as int],
        low2[vs[vs.len() - 2] as int] <= low[vs[vs.len() - 1] as int],
    ensures
        hangs_at(vs.drop_last(), low2, z, j),
{
    let vs2 = vs.drop_last();
    let (d, m) = choose|d: int, m: int|
        #![trigger vs[d], vs[m]]
        0 <= d <= j < m < vs.len() && vs[d] == z && d >= low[vs[m] as int];
    if m < vs.len() - 1 {
        assert(vs2[d] == vs[d] && vs2[m] == vs[m]);
    } else {
        let m2 = vs.len() - 2;
        assert(vs2[d] == vs[d] && vs2[m2] == vs[m2]);
        assert(d >= low2[vs2[m2] as int]);
    }
}

/// the top of the vertex stack is done, and it closes no block
proof fn lemma_search_pop(
    es: Seq<(usize, usize)>,
    vs: Seq<usize>,
    tp: Seq<int>,
    tpos: Seq<int>,
    low: Seq<usize>,
    number: Seq<usize>,
    handled: Seq<bool>,
    low2: Seq<usize>,
    groups: Seq<Set<(usize, usize)>>,
    att: Seq<usize>,
    owner: Seq<int>,
    n: nat,
)
    requires
        search_inv(es, vs, tp, tpos, low, number, handled),
        owner_inv(es, vs, tpos, handled, groups, att, owner, n),
        push_ready(es, vs, tp, tpos, low, number, handled, n),
        vs.len() >= 2,
        low2.len() == n,
        forall|v: int| 0 <= v < n && v != vs[vs.len() - 2] ==> #[trigger] low2[v] == low[v],
        low2[vs[vs.len() - 2] as int] <= low[vs[vs.len() - 2] as int],
        low2[vs[vs.len() - 2] as int] <= low[vs.last() as int],
    ensures
        search_inv(es, vs.drop_last(), tp.drop_last(), tpos, low2, number, handled),
        owner_inv(es, vs.drop_last(), tpos, handled, groups, att, owner, n),
{
    reveal(hangs_inv);
    reveal(push_ready);
    reveal(stack_tpos);
    reveal(stack_numbers);
    reveal(owner_inv);
    let vs2 = vs.drop_last();
    let tp2 = tp.drop_last();
    let t = vs.len() - 1;
    assert(vs.last() == vs[t]);
    assert forall|e: int| 0 <= e < vs.len() - 1 implies low2[#[trigger] vs[e] as int] <= low[vs[e] as int] by {
        assert(vs[e] < n);
    }
    assert forall|j: int, i: int|
        #![trigger tp2[j], es[i]]
        0 <= j < tp2.len() && tp2[j] <= i < es.len() implies {
            &&& tpos[es[i].0 as int] < tp2[j] ==> hangs_at(vs2, low2, es[i].0, j)
            &&& tpos[es[i].1 as int] < tp2[j] ==> hangs_at(vs2, low2, es[i].1, j)
        } by {
        assert(tp2[j] == tp[j]);
        if tpos[es[i].0 as int] < tp[j] {
            lemma_hang_pop(vs, low, low2, es[i].0, j);
        }
        if tpos[es[i].1 as int] < tp[j] {
            lemma_hang_pop(vs, low, low2, es[i].1, j);
        }
    }
    assert forall|d: int| 0 <= d < vs2.len() implies number[#[trigger] vs2[d] as int] == d by {
        assert(vs2[d] == vs[d]);
    }
    assert(vs2[0] == vs[0]);
    assert forall|d: int| 1 <= d < vs2.len() implies tpos[#[trigger] vs2[d] as int] == tp2[d - 1] by {
        assert(vs2[d] == vs[d]);
    }
    assert forall|k: int, z: usize| 0 <= k < groups.len() && #[trigger] owns(groups, att, k, z) implies !vs2.contains(z) by {
        if vs2.contains(z) {
            let q = choose|q: int| 0 <= q < vs2.len() && vs2[q] == z;
            assert(vs[q] == z);
        }
    }
}

/// the vertex stack runs empty
proof fn lemma_search_pop_last(
    es: Seq<(usize, usize)>,
    vs: Seq<usize>,
    tp: Seq<int>,
    tpos: Seq<int>,
    low: Seq<usize>,
    number: Seq<usize>,
    handled: Seq<bool>,
    groups: Seq<Set<(usize, usize)>>,
    att: Seq<usize>,
    owner: Seq<int>,
    n: nat,
)
    requires
        owner_inv(es, vs, tpos, handled, groups, att, owner, n),
        vs.len() == 1,
        es.len() == 0,
    ensures
        search_inv(es, Seq::empty(), Seq::empty(), tpos, low, number, handled),
        owner_inv(es, Seq::empty(), tpos, handled, groups, att, owner, n),
{
    reveal(hangs_inv);
    reveal(stack_tpos);
    reveal(stack_numbers);
    reveal(owner_inv);
    reveal(edge_tpos);
}

/// a vertex that hangs at `j` below the top still does once the top is gone, when the top's
/// low point is the number of the vertex below it
proof fn lemma_hang_block(vs: Seq<usize>, low: Seq<usize>, number: Seq<usize>, z: usize, j: int)
    requires
        hangs_at(vs, low, z, j),
        stack_numbers(vs, number),
        vs.len() >= 2,
        j < vs.len() - 2,
        low[vs.last() as int] == number[vs[vs.len() - 2] as int],
    ensures
        hangs_at(vs.drop_last(), low, z, j),
{
    reveal(stack_numbers);
    let vs2 = vs.drop_last();
    let (d, m) = choose|d: int, m: int|
        #![trigger vs[d], vs[m]]
        0 <= d <= j < m < vs.len() && vs[d] == z && d >= low[vs[m] as int];
    assert(number[vs[vs.len() - 2] as int] == vs.len() - 2);
    assert(vs.last() == vs[vs.len() - 1]);
    assert(m < vs.len() - 1);
    assert(vs2[d] == vs[d] && vs2[m] == vs[m]);
}

/// the top of the vertex stack is done and closes the block of the edges from its tree
/// edge (at position `p` of the edge stack) up: these become the group `grp`, attached at
/// the vertex below the top, and every other vertex the group touches was first reached
/// by one of its edges
proof fn lemma_search_block(
    es: Seq<(usize, usize)>,
    vs: Seq<usize>,
    tp: Seq<int>,
    tpos: Seq<int>,
    low: Seq<usize>,
    number: Seq<usize>,
    handled: Seq<bool>,
    groups: Seq<Set<(usize, usize)>>,
    att: Seq<usize>,
    owner: Seq<int>,
    owner2: Seq<int>,
    grp: Set<(usize, usize)>,
    n: nat,
)
    requires
        search_inv(es, vs, tp, tpos, low, number, handled),
        owner_inv(es, vs, tpos, handled, groups, att, owner, n),
        push_ready(es, vs, tp, tpos, low, number, handled, n),
        vs.len() >= 2,
        low[vs.last() as int] == number[vs[vs.len() - 2] as int],
        forall|v: usize| #[trigger] ends(grp).contains(v) <==> touches_from(es, tp.last(), v),
        owner2.len() == n,
        forall|z: int|
            0 <= z < n ==> #[trigger] owner2[z] == if ends(grp).contains(z as usize) && z != vs[vs.len() - 2] {
                groups.len() as int
            } else {
                owner[z]
            },
    ensures
        search_inv(es.subrange(0, tp.last()), vs.drop_last(), tp.drop_last(), tpos, low, number, handled),
        owner_inv(
            es.subrange(0, tp.last()),
            vs.drop_last(),
            tpos,
            handled,
            groups.push(grp),
            att.push(vs[vs.len() - 2]),
            owner2,
            n,
        ),
{
    lemma_block_stacks(es, vs, tp, tpos, low, number, handled, groups, att, owner, owner2, grp, n);
    lemma_block_owners(es, vs, tp, tpos, low, number, handled, groups, att, owner, owner2, grp, n);
}

proof fn lemma_block_stacks(
    es: Seq<(usize, usize)>,
    vs: Seq<usize>,
    tp: Seq<int>,
    tpos: Seq<int>,
    low: Seq<usize>,
    number: Seq<usize>,
    handled: Seq<bool>,
    groups: Seq<Set<(usize, usize)>>,
    att: Seq<usize>,
    owner: Seq<int>,
    owner2: Seq<int>,
    grp: Set<(usize, usize)>,
    n: nat,
)
    requires
        search_inv(es, vs, tp, tpos, low, number, handled),
        owner_inv(es, vs, tpos, handled, groups, att, owner, n),
        push_ready(es, vs, tp, tpos, low, number, handled, n),
        vs.len() >= 2,
        low[vs.last() as int] == number[vs[vs.len() - 2] as int],
        forall|v: usize| #[trigger] ends(grp).contains(v) <==> touches_from(es, tp.last(), v),
        owner2.len() == n,
        forall|z: int|
            0 <= z < n ==> #[trigger] owner2[z] == if ends(grp).contains(z as usize) && z != vs[vs.len() - 2] {
                groups.len() as int
            } else {
                owner[z]
            },
    ensures
        search_inv(es.subrange(0, tp.last()), vs.drop_last(), tp.drop_last(), tpos, low, number, handled),
{
    reveal(hangs_inv);
    reveal(push_ready);
    reveal(stack_tpos);
    reveal(stack_numbers);
    reveal(edge_tpos);
    let t = vs.len() - 1;
    let next = vs[t - 1];
    let top = vs[t];
    let p = tp[t - 1];
    let es2 = es.subrange(0, p);
    let vs2 = vs.drop_last();
    let tp2 = tp.drop_last();
    let groups2 = groups.push(grp);
    let att2 = att.push(next);
    let kk = groups.len() as int;
    assert(tp.last() == p);
    assert(vs.last() == top);
    assert(number[next as int] == t - 1);
    assert(es[p] == (vs[t - 1], vs[t]));
    assert(0 <= p < es.len());
    // the stacks
    assert forall|i: int| #![trigger es2[i]] 0 <= i < es2.len() implies {
        &&& tpos[es2[i].0 as int] <= i
        &&& tpos[es2[i].1 as int] <= i
        &&& tpos[es2[i].0 as int] >= 0 ==> es2[tpos[es2[i].0 as int]].1 == es2[i].0
        &&& tpos[es2[i].1 as int] >= 0 ==> es2[tpos[es2[i].1 as int]].1 == es2[i].1
        &&& handled[es2[i].0 as int]
        &&& handled[es2[i].1 as int]
    } by {
        assert(es2[i] == es[i]);
        if tpos[es[i].0 as int] >= 0 {
            assert(es2[tpos[es[i].0 as int]] == es[tpos[es[i].0 as int]]);
        }
        if tpos[es[i].1 as int] >= 0 {
            assert(es2[tpos[es[i].1 as int]] == es[tpos[es[i].1 as int]]);
        }
    }
    assert forall|j: int, i: int|
        #![trigger tp2[j], es2[i]]
        0 <= j < tp2.len() && tp2[j] <= i < es2.len() implies {
            &&& tpos[es2[i].0 as int] < tp2[j] ==> hangs_at(vs2, low, es2[i].0, j)
            &&& tpos[es2[i].1 as int] < tp2[j] ==> hangs_at(vs2, low, es2[i].1, j)
        } by {
        assert(tp2[j] == tp[j]);
        assert(es2[i] == es[i]);
        if tpos[es[i].0 as int] < tp[j] {
            lemma_hang_block(vs, low, number, es[i].0, j);
        }
        if tpos[es[i].1 as int] < tp[j] {
            lemma_hang_block(vs, low, number, es[i].1, j);
        }
    }
    assert forall|d: int| 0 <= d < vs2.len() implies number[#[trigger] vs2[d] as int] == d by {
        assert(vs2[d] == vs[d]);
    }
    assert(vs2[0] == vs[0]);
    assert forall|d: int| 1 <= d < vs2.len() implies tpos[#[trigger] vs2[d] as int] == tp2[d - 1] by {
        assert(vs2[d] == vs[d]);
    }
}

proof fn lemma_block_owners(
    es: Seq<(usize, usize)>,
    vs: Seq<usize>,
    tp: Seq<int>,
    tpos: Seq<int>,
    low: Seq<usize>,
    number: Seq<usize>,
    handled: Seq<bool>,
    groups: Seq<Set<(usize, usize)>>,
    att: Seq<usize>,
    owner: Seq<int>,
    owner2: Seq<int>,
    grp: Set<(usize, usize)>,
    n: nat,
)
    requires
        search_inv(es, vs, tp, tpos, low, number, handled),
        owner_inv(es, vs, tpos, handled, groups, att, owner, n),
        push_ready(es, vs, tp, tpos, low, number, handled, n),
        vs.len() >= 2,
        low[vs.last() as int] == number[vs[vs.len() - 2] as int],
        forall|v: usize| #[trigger] ends(grp).contains(v) <==> touches_from(es, tp.last(), v),
        owner2.len() == n,
        forall|z: int|
            0 <= z < n ==> #[trigger] owner2[z] == if ends(grp).contains(z as usize) && z != vs[vs.len() - 2] {
                groups.len() as int
            } else {
                owner[z]
            },
    ensures
        owner_inv(
            es.subrange(0, tp.last()),
            vs.drop_last(),
            tpos,
            handled,
            groups.push(grp),
            att.push(vs[vs.len() - 2]),
            owner2,
            n,
        ),
{
    reveal(hangs_inv);
    reveal(push_ready);
    reveal(stack_tpos);
    reveal(stack_numbers);
    reveal(owner_inv);
    reveal(edge_tpos);
    let t = vs.len() - 1;
    let next = vs[t - 1];
    let top = vs[t];
    let p = tp[t - 1];
    let es2 = es.subrange(0, p);
    let vs2 = vs.drop_last();
    let tp2 = tp.drop_last();
    let groups2 = groups.push(grp);
    let att2 = att.push(next);
    let kk = groups.len() as int;
    assert(tp.last() == p);
    assert(vs.last() == top);
    assert(number[next as int] == t - 1);
    assert(es[p] == (vs[t - 1], vs[t]));
    assert(0 <= p < es.len());
    // the groups
    assert(touches_from(es, p, next));
    assert(ends(groups2[kk]).contains(att2[kk]));
    assert forall|k: int| 0 <= k < groups2.len() implies ends(#[trigger] groups2[k]).contains(att2[k]) by {
        if k < kk {
            assert(groups2[k] == groups[k] && att2[k] == att[k]);
        }
    }
    assert forall|k: int, z: usize| 0 <= k < groups2.len() && #[trigger] owns(groups2, att2, k, z) implies {
        &&& z < n
        &&& owner2[z as int] == k
        &&& handled[z as int]
        &&& tpos[z as int] >= 0
        &&& !vs2.contains(z)
        &&& off_stack(es2, z)
    } by {
        if k < kk {
            assert(groups2[k] == groups[k] && att2[k] == att[k]);
            assert(owns(groups, att, k, z));
            if ends(grp).contains(z) {
                let i = choose|i: int| p <= i < es.len() && (es[i].0 == z || es[i].1 == z);
                assert(es[i].0 != z && es[i].1 != z);
            }
            if vs2.contains(z) {
                let q = choose|q: int| 0 <= q < vs2.len() && vs2[q] == z;
                assert(vs[q] == z);
            }
            assert forall|i: int| 0 <= i < es2.len() implies (#[trigger] es2[i]).0 != z && es2[i].1 != z by {
                assert(es2[i] == es[i]);
            }
        } else {
            assert(groups2[k] == grp && att2[k] == next);
            let i = choose|i: int| p <= i < es.len() && (es[i].0 == z || es[i].1 == z);
            assert(tp[t - 1] <= i);
            if tpos[z as int] < p {
                assert(hangs_at(vs, low, z, t - 1));
                let (d, m) = choose|d: int, m: int|
                    #![trigger vs[d], vs[m]]
                    0 <= d <= t - 1 < m < vs.len() && vs[d] == z && d >= low[vs[m] as int];
                assert(m == t);
                assert(d == t - 1);
                assert(false);
            }
            assert(tpos[z as int] <= i);
            if vs2.contains(z) {
                let q = choose|q: int| 0 <= q < vs2.len() && vs2[q] == z;
                assert(vs[q] == z);
                if q > 0 {
                    assert(tpos[z as int] == tp[q - 1]);
                    if q - 1 < t - 1 {
                        assert(tp[q - 1] < tp[t - 1]);
                    }
                }
            }
            assert forall|i2: int| 0 <= i2 < es2.len() implies (#[trigger] es2[i2]).0 != z && es2[i2].1 != z by {
                assert(es2[i2] == es[i2]);
            }
        }
    }
}


/// when the search is over, the groups hang together like the blocks of the graph
proof fn lemma_search_done(
    a0: Seq<Seq<usize>>,
    tpos: Seq<int>,
    handled: Seq<bool>,
    groups: Seq<Set<(usize, usize)>>,
    att: Seq<usize>,
    owner: Seq<int>,
    root: Seq<usize>,
    n: nat,
)
    requires
        adj_wf(a0),
        a0.len() == n,
        handled.len() == n,
        forall|v: int| 0 <= v < n ==> #[trigger] handled[v],
        owner_inv(Seq::empty(), Seq::empty(), tpos, handled, groups, att, owner, n),
        root_inv(a0, tpos, handled, root, n),
    ensures
        attached_forest(a0, groups, att),
{
    reveal(owner_inv);
    reveal(root_inv);
    assert forall|k1: int, k2: int, z: usize|
        0 <= k1 < groups.len() && 0 <= k2 < groups.len() && #[trigger] owns(groups, att, k1, z) && #[trigger] owns(
            groups,
            att,
            k2,
            z,
        ) implies k1 == k2 by {}
    assert forall|v: usize| v < a0.len() && #[trigger] a0[v as int].len() > 0 implies exists|r: usize|
        #[trigger] reachable(a0, v, r) && forall|k: int| 0 <= k < groups.len() ==> !#[trigger] owns(groups, att, k, r) by {
        assert(handled[v as int]);
        let r = root[v as int];
        lemma_reachable_sym(a0, r, v);
        assert forall|k: int| 0 <= k < groups.len() implies !#[trigger] owns(groups, att, k, r) by {
            if owns(groups, att, k, r) {
                assert(tpos[r as int] >= 0);
            }
        }
    }
}

/// `v` is an end of one of the edges of `es` from position `p` on
spec fn touches_from(es: Seq<(usize, usize)>, p: int, v: usize) -> bool {
    exists|i: int| p <= i < es.len() && (es[i].0 == v || es[i].1 == v)
}

/// Pops the edges of one block off the stack: every edge above the tree edge `target`,
/// which stands at position `p`, and `target` itself. Returns how many were popped,
/// the vertices they touch, and (for the proof) the set of their keys.
fn pop_block(
    edge_stack: &mut Vec<(usize, usize)>,
    in_comp: &mut Vec<bool>,
    target: (usize, usize),
    n: usize,
    Ghost(p): Ghost<int>,
    Ghost(e0): Ghost<Set<(usize, usize)>>,
    Ghost(rest): Ghost<Set<(usize, usize)>>,
    Ghost(groups): Ghost<Seq<Set<(usize, usize)>>>,
) -> (res: (usize, Vec<usize>, Ghost<Set<(usize, usize)>>))
    requires
        marks_agree(old(in_comp)@, Seq::empty(), n as nat),
        edges_in_range(old(edge_stack)@, n),
        ledger(e0, rest, stack_keys(old(edge_stack)@), Set::empty(), groups),
        0 <= p < old(edge_stack)@.len(),
        old(edge_stack)@[p] == target,
    ensures
        marks_agree(final(in_comp)@, res.1@, n as nat),
        ledger(e0, rest, stack_keys(final(edge_stack)@), res.2@, groups),
        forall|v: usize|
            #![trigger res.1@.contains(v)]
            #![trigger ends(res.2@).contains(v)]
            res.1@.contains(v) <==> ends(res.2@).contains(v),
        res.0 > 0,
        res.2@.len() > 0,
        res.1@.len() >= 2,
        res.0 + final(edge_stack)@.len() == old(edge_stack)@.len(),
        final(edge_stack)@ == old(edge_stack)@.subrange(0, p),
        res.1@.len() <= n,
        forall|v: usize|
            #[trigger] ends(res.2@).contains(v) <==> touches_from(old(edge_stack)@, p, v),
{
    let ghost es0 = edge_stack@;
    let es_len = edge_stack.len();
    let mut touched: Vec<usize> = Vec::new();
    let mut taken: usize = 0;
    let mut done = false;
    let ghost mut grp: Set<(usize, usize)> = Set::empty();
    assert(es0.subrange(0, es0.len() as int) =~= es0);
    assert(touched@ =~= Seq::<usize>::empty());
    while !done
        invariant
            marks_agree(in_comp@, touched@, n as nat),
            edges_in_range(edge_stack@, n),
            taken + edge_stack@.len() == es0.len(),
            es0.len() <= usize::MAX,
            0 <= p < es0.len(),
            es0[p] == target,
            !done ==> p < edge_stack@.len(),
            done ==> edge_stack@.len() == p,
            edge_stack@ == es0.subrange(0, edge_stack@.len() as int),
            ledger(e0, rest, stack_keys(edge_stack@), grp, groups),
            forall|v: usize|
                #![trigger touched@.contains(v)]
                #![trigger ends(grp).contains(v)]
                touched@.contains(v) <==> ends(grp).contains(v),
            taken == 0 ==> grp == Set::<(usize, usize)>::empty(),
            taken > 0 ==> grp.len() > 0 && touched@.len() >= 2,
            done ==> taken > 0,
            forall|v: usize|
                #[trigger] ends(grp).contains(v) <==> touches_from(es0, edge_stack@.len() as int, v),
        decreases edge_stack@.len(),
    {
        let current_edge = edge_stack[edge_stack.len() - 1];
        let ghost es1 = edge_stack@;
        let ghost q = es1.len() - 1;
        proof {
            assert(es1[q].0 < n && es1[q].1 < n && es1[q].0 != es1[q].1);
            if q != p && current_edge == target {
                lemma_stack_keys(es1, current_edge);
                assert(es1[p] == es0[p]);
                assert(stack_keys(es1)[q] == stack_keys(es1)[p]);
                assert(false);
            }
        }
        let ghost t0 = touched@;
        mark_vertex(in_comp, &mut touched, current_edge.0, n);
        mark_vertex(in_comp, &mut touched, current_edge.1, n);
        let ghost sk = stack_keys(es1);
        let ghost key = ukey(current_edge.0, current_edge.1);
        proof {
            lemma_stack_keys(es1, current_edge);
            lemma_ledger_pop(e0, rest, sk, grp, groups);
            assert forall|v: usize|
                #![trigger touched@.contains(v)]
                #![trigger ends(grp.insert(key)).contains(v)]
                touched@.contains(v) <==> ends(grp.insert(key)).contains(v) by {
                lemma_ends_insert(grp, current_edge.0, current_edge.1, v);
                assert(t0.contains(v) <==> ends(grp).contains(v));
            }
            assert forall|v: usize|
                #[trigger] ends(grp.insert(key)).contains(v) <==> touches_from(es0, q, v) by {
                lemma_ends_insert(grp, current_edge.0, current_edge.1, v);
                assert(es0[q] == current_edge);
                if touches_from(es0, q + 1, v) {
                    let i = choose|i: int| q + 1 <= i < es0.len() && (es0[i].0 == v || es0[i].1 == v);
                    assert(q <= i);
                }
                if touches_from(es0, q, v) {
                    let i = choose|i: int| q <= i < es0.len() && (es0[i].0 == v || es0[i].1 == v);
                    if i != q {
                        assert(touches_from(es0, q + 1, v));
                    }
                }
            }
            if taken == 0 {
                assert(touched@.contains(current_edge.0));
                assert(touched@.contains(current_edge.1));
                let i0 = choose|i: int| 0 <= i < touched@.len() && touched@[i] == current_edge.0;
                let i1 = choose|i: int| 0 <= i < touched@.len() && touched@[i] == current_edge.1;
                assert(i0 != i1);
                assert(grp.insert(key).len() == 1);
            } else {
                assert(grp.insert(key).len() >= grp.len());
            }
            grp = grp.insert(key);
        }
        edge_stack.pop();
        proof {
            assert(edge_stack@ == es1.drop_last());
            assert(edge_stack@ =~= es0.subrange(0, edge_stack@.len() as int));
        }
        taken = taken + 1;
        if current_edge.0 == target.0 && current_edge.1 == target.1 {
            done = true;
        }
    }
    proof {
        lemma_cover(touched@, n as nat);
    }
    (taken, touched, Ghost(grp))
}

impl<T, A: AdjContainer<T>> GenericGraph<T, A> {
    /// # calculate sizes of all binode connected components
    /// * returns (reverse) **ordered vector of sizes**
    /// i.e. the biggest component is of size `result[0]` and the smallest is of size `result[result.len() - 1]`
    /// * destroys the underlying topology and therefore moves `self`
    /// # Definition: `vertex_biconnected_components(false)`
    /// Here, the (vertex) biconnected component of a graph is defined as maximal subset of nodes,
    /// where any one node could be removed and the remaining nodes would still be a connected component.
    /// Two vertices connected by an edge are considered to be biconnected.
    /// # Alternative Definition: `vertex_biconnected_components(true)`
    /// > The biconnected component is defined as maximal subset of vertices, where each vertex can be
    /// > reached by at least two node independent paths
    ///
    /// The alternative definition just removes all 2s from the result vector.
    /// # Citations
    /// >  J. Hobcroft and R. Tarjan, "Algorithm 447: Efficient Algorithms for Graph Manipulation"
    /// > *Commun. ACM*, **16**:372-378, 1973, DOI: [10.1145/362248.362272](https://doi.org/10.1145/362248.362272)
    pub fn vertex_biconnected_components(self, alternative_definition: bool) -> (r: Vec<usize>)
        requires
            self.wf(),
        ensures
            sorted_down(r@),
            exists|groups: Seq<Set<(usize, usize)>>, sizes: Seq<usize>, att: Seq<usize>|
                #[trigger] edge_group_sizes(self.spec_adj(), groups, sizes, alternative_definition, r@)
                    && #[trigger] attached_forest(self.spec_adj(), groups, att),
            forall|k: int| 0 <= k < r@.len() ==> 2 <= #[trigger] r@[k] <= self.spec_vertex_count(),
            alternative_definition ==> forall|k: int| 0 <= k < r@.len() ==> #[trigger] r@[k] > 2,
            r@.len() <= self.view_edge_count(),
    {
        let ghost adj_init = self.spec_adj();
        let ghost e0k = edge_keys(adj_init);
        let mut g = self;
        let n = g.vertex_count();
        let ghost e0 = g.view_edge_count();
        let mut low: Vec<usize> = vec![0; n];
        let mut number: Vec<usize> = vec![0; n];
        let mut handled: Vec<bool> = vec![false; n];
        let mut in_comp: Vec<bool> = vec![false; n];
        let mut edge_stack: Vec<(usize, usize)> = Vec::new();
        let mut vertex_stack: Vec<usize> = Vec::new();
        let mut result: Vec<usize> = Vec::new();
        let ghost mut consumed: int = 0;
        let ghost mut groups: Seq<Set<(usize, usize)>> = Seq::empty();
        let ghost mut tp: Seq<int> = Seq::empty();
        let ghost mut tpos: Seq<int> = Seq::new(n as nat, |i: int| -1int);
        let ghost mut owner: Seq<int> = Seq::new(n as nat, |i: int| -1int);
        let ghost mut root: Seq<usize> = Seq::new(n as nat, |i: int| 0usize);
        let ghost mut att: Seq<usize> = Seq::empty();
        let mut pivot: usize = 0;
        proof {
            reveal(owner_inv);
            reveal(root_inv);
            g.lemma_len_bound();
            assert(stack_keys(edge_stack@) =~= Seq::<(usize, usize)>::empty());
        }
        while pivot < n
            invariant
                g.wf(),
                n == g.spec_vertex_count(),
                n <= usize::MAX,
                pivot <= n,
                low@.len() == n,
                number@.len() == n,
                handled@.len() == n,
                in_comp@.len() == n,
                forall|v: int| 0 <= v < n ==> !#[trigger] in_comp@[v],
                labels_below(number@, low@, n),
                vertex_stack@.len() == 0,
                edge_stack@.len() == 0,
                forall|v: int| 0 <= v < pivot ==> #[trigger] handled@[v],
                forall|v: int| 0 <= v < n && #[trigger] handled@[v] ==> g.spec_adj()[v].len() == 0,
                adj_wf(adj_init),
                adj_init.len() == n,
                e0k == edge_keys(adj_init),
                tpos.len() == n,
                owner_inv(edge_stack@, vertex_stack@, tpos, handled@, groups, att, owner, n as nat),
                root_inv(adj_init, tpos, handled@, root, n as nat),
                consumed + g.view_edge_count() == e0,
                0 <= consumed,
                result@.len() <= consumed,
                forall|k: int| 0 <= k < result@.len() ==> 2 <= #[trigger] result@[k] <= n,
                ledger(e0k, edge_keys(g.spec_adj()), stack_keys(edge_stack@), Set::empty(), groups),
                groups.len() == result@.len(),
                forall|k: int| 0 <= k < result@.len() ==> #[trigger] result@[k] == ends(groups[k]).len(),
            decreases n - pivot,
        {
            if !handled[pivot] {
                let ghost hd0 = handled@;
                proof {
                    assert(edge_stack@ =~= Seq::<(usize, usize)>::empty());
                    assert(vertex_stack@ =~= Seq::<usize>::empty());
                }
                low.set(pivot, 0);
                number.set(pivot, 0);
                handled.set(pivot, true);
                vertex_stack.push(pivot);
                proof {
                    tp = Seq::empty();
                    assert(vertex_stack@ =~= seq![pivot]);
                    lemma_search_start(
                        adj_init,
                        tpos,
                        tpos.update(pivot as int, -1),
                        hd0,
                        handled@,
                        number@,
                        low@,
                        groups,
                        att,
                        owner,
                        root,
                        root.update(pivot as int, pivot),
                        n as nat,
                        pivot,
                    );
                    tpos = tpos.update(pivot as int, -1);
                    root = root.update(pivot as int, pivot);
                    assert(vertex_stack@[0] == pivot);
                    assert forall|v: int| 0 <= v < n && #[trigger] handled@[v] && !vertex_stack@.contains(v as usize)
                        implies g.spec_adj()[v].len() == 0 by {
                        if v == pivot {
                            assert(vertex_stack@.contains(pivot));
                        }
                    }
                }
                while vertex_stack.len() > 0
                    invariant
                        g.wf(),
                        n == g.spec_vertex_count(),
                        n <= usize::MAX,
                        pivot < n,
                        low@.len() == n,
                        number@.len() == n,
                        handled@.len() == n,
                        in_comp@.len() == n,
                        forall|v: int| 0 <= v < n ==> !#[trigger] in_comp@[v],
                        labels_below(number@, low@, n),
                        vertex_stack@.no_duplicates(),
                        forall|k: int| 0 <= k < vertex_stack@.len() ==> #[trigger] vertex_stack@[k] < n,
                        forall|k: int| 0 <= k < vertex_stack@.len() ==> handled@[#[trigger] vertex_stack@[k] as int],
                        vertex_stack@.len() > 0 ==> vertex_stack@[0] == pivot,
                        number@[pivot as int] == 0,
                        vertex_stack@.len() >= 2 ==> low@[vertex_stack@[1] as int] == 0,
                        vertex_stack@.len() <= 1 ==> edge_stack@.len() == 0,
                        vertex_stack@.len() > 0 ==> tp.len() + 1 == vertex_stack@.len(),
                        vertex_stack@.len() == 0 ==> tp.len() == 0,
                        forall|k: int|
                            0 <= k < tp.len() ==> 0 <= #[trigger] tp[k] < edge_stack@.len() && edge_stack@[tp[k]] == (
                                vertex_stack@[k],
                                vertex_stack@[k + 1],
                            ),
                        forall|i: int, j: int| 0 <= i < j < tp.len() ==> #[trigger] tp[i] < #[trigger] tp[j],
                        tp.len() > 0 ==> tp[0] == 0,
                        forall|v: int| 0 <= v <= pivot ==> #[trigger] handled@[v],
                        forall|v: int|
                            0 <= v < n && #[trigger] handled@[v] && !vertex_stack@.contains(v as usize)
                                ==> g.spec_adj()[v].len() == 0,
                        edges_in_range(edge_stack@, n),
                        edge_stack@.len() + consumed + g.view_edge_count() == e0,
                        0 <= consumed,
                        result@.len() <= consumed,
                        forall|k: int| 0 <= k < result@.len() ==> 2 <= #[trigger] result@[k] <= n,
                        ledger(e0k, edge_keys(g.spec_adj()), stack_keys(edge_stack@), Set::empty(), groups),
                        groups.len() == result@.len(),
                        forall|k: int| 0 <= k < result@.len() ==> #[trigger] result@[k] == ends(groups[k]).len(),
                        adj_wf(adj_init),
                        adj_init.len() == n,
                        e0k == edge_keys(adj_init),
                        tpos.len() == n,
                        search_inv(edge_stack@, vertex_stack@, tp, tpos, low@, number@, handled@),
                        owner_inv(edge_stack@, vertex_stack@, tpos, handled@, groups, att, owner, n as nat),
                        root_inv(adj_init, tpos, handled@, root, n as nat),
                    decreases 2 * g.view_edge_count() + vertex_stack@.len(),
                {
                    let top_vertex = vertex_stack[vertex_stack.len() - 1];
                    let ghost adj0 = g.spec_adj();
                    let ghost es_h = edge_stack@;
                    let ghost vs_h = vertex_stack@;
                    let ghost tp_h = tp;
                    let ghost low_h = low@;
                    let ghost num_h = number@;
                    let ghost hd_h = handled@;
                    proof {
                        reveal(push_ready);
                        assert(push_ready(es_h, vs_h, tp_h, tpos, low_h, num_h, hd_h, n as nat));
                        assert(vs_h.last() == top_vertex);
                    }
                    if g.container(top_vertex).degree() > 0 {
                        let next_vertex = match g.container(top_vertex).get_adj_first() {
                            Some(first) => *first,
                            None => top_vertex,
                        };
                        proof {
                            assert(adj0[top_vertex as int][0] == next_vertex);
                            assert(adj0[top_vertex as int].contains(next_vertex));
                            assert(next_vertex < n && next_vertex != top_vertex);
                            lemma_keys_removed(adj0, top_vertex, next_vertex);
                            lemma_stack_keys(edge_stack@, (top_vertex, next_vertex));
                            lemma_ledger_push(e0k, edge_keys(adj0), stack_keys(edge_stack@), groups, ukey(top_vertex, next_vertex));
                            assert(adj0[next_vertex as int].contains(top_vertex));
                            assert(adj0[next_vertex as int].len() > 0);
                        }
                        let ghost es0 = edge_stack@;
                        let ghost vs0 = vertex_stack@;
                        let ghost handled0 = handled@;
                        edge_stack.push((top_vertex, next_vertex));
                        let removed = g.remove_edge(top_vertex, next_vertex);
                        proof {
                            assert forall|k: int| #![trigger edge_stack@[k]] 0 <= k < edge_stack@.len() implies
                                edge_stack@[k].0 < n && edge_stack@[k].1 < n && edge_stack@[k].0 != edge_stack@[k].1 by {
                                if k < es0.len() {
                                    assert(edge_stack@[k] == es0[k]);
                                }
                            }
                            assert forall|k: int| 0 <= k < tp.len() implies 0 <= #[trigger] tp[k] < edge_stack@.len()
                                && edge_stack@[tp[k]] == (vertex_stack@[k], vertex_stack@[k + 1]) by {
                                assert(edge_stack@[tp[k]] == es0[tp[k]]);
                            }
                            assert forall|v: int|
                                0 <= v < n && #[trigger] handled@[v] && !vertex_stack@.contains(v as usize)
                                    implies g.spec_adj()[v].len() == 0 by {
                                assert(adj0[v].len() == 0);
                                assert(v != next_vertex);
                                assert(vertex_stack@[vertex_stack@.len() - 1] == top_vertex);
                                assert(v != top_vertex);
                            }
                        }
                        if !handled[next_vertex] {
                            proof {
                                assert(!vs0.contains(next_vertex)) by {
                                    if vs0.contains(next_vertex) {
                                        let q = choose|q: int| 0 <= q < vs0.len() && vs0[q] == next_vertex;
                                        assert(handled@[vs0[q] as int]);
                                    }
                                }
                                lemma_cover(vs0, n as nat);
                                if vs0.len() == n {
                                    assert(vs0.contains(next_vertex));
                                }
                            }
                            let depth = vertex_stack.len();
                            assert(depth < n);
                            assert(number@[top_vertex as int] < n);
                            let ghost num0 = number@;
                            let ghost low0 = low@;
                            number.set(next_vertex, depth);
                            vertex_stack.push(next_vertex);
                            let nt = number[top_vertex];
                            low.set(next_vertex, nt);
                            handled.set(next_vertex, true);
                            proof {
                                assert forall|v: int| 0 <= v < n implies #[trigger] number@[v] < n && low@[v] < n by {
                                    if v == next_vertex {
                                        assert(number@[v] == depth);
                                    } else {
                                        assert(num0[v] < n);
                                        assert(low0[v] < n);
                                        assert(number@[v] == num0[v]);
                                        assert(low@[v] == low0[v]);
                                    }
                                }
                                assert(labels_below(number@, low@, n));
                                lemma_push_no_dup(vs0, next_vertex);
                                lemma_push_contains(vs0, next_vertex);
                                assert forall|k: int| 0 <= k < vertex_stack@.len() implies handled@[#[trigger] vertex_stack@[k] as int] by {
                                    if k < vs0.len() {
                                        assert(vertex_stack@[k] == vs0[k]);
                                    }
                                }
                                assert(vertex_stack@[0] == pivot);
                                if vs0.len() == 1 {
                                    assert(top_vertex == pivot);
                                    assert(vertex_stack@[1] == next_vertex);
                                } else {
                                    assert(vertex_stack@[1] == vs0[1]);
                                    assert(vs0[1] != next_vertex);
                                }
                                assert forall|v: int|
                                    0 <= v < n && #[trigger] handled@[v] && !vertex_stack@.contains(v as usize)
                                        implies g.spec_adj()[v].len() == 0 by {
                                    assert(v != next_vertex);
                                    assert(handled0[v]);
                                    assert(!vs0.contains(v as usize));
                                }
                                let tp0 = tp;
                                assert(adj0[top_vertex as int].contains(next_vertex));
                                assert(e0k.contains(ukey(top_vertex, next_vertex)));
                                lemma_key_edge(adj_init, top_vertex, next_vertex);
                                assert(vs0.len() < n);
                                assert(number@ == num_h.update(next_vertex as int, vs_h.len() as usize));
                                assert(low@ == low_h.update(next_vertex as int, num_h[top_vertex as int]));
                                assert(handled@ == hd_h.update(next_vertex as int, true));
                                lemma_search_tree_push(
                                    adj_init,
                                    es_h,
                                    vs_h,
                                    tp_h,
                                    tpos,
                                    low_h,
                                    num_h,
                                    hd_h,
                                    low@,
                                    number@,
                                    groups,
                                    att,
                                    owner,
                                    root,
                                    n as nat,
                                    next_vertex,
                                );
                                tpos = tpos.update(next_vertex as int, es_h.len() as int);
                                root = root.update(next_vertex as int, root[top_vertex as int]);
                                assert(edge_stack@ == es_h.push((top_vertex, next_vertex)));
                                assert(vertex_stack@ == vs_h.push(next_vertex));
                                tp = tp.push(es0.len() as int);
                                assert forall|k: int| 0 <= k < tp.len() implies 0 <= #[trigger] tp[k] < edge_stack@.len()
                                    && edge_stack@[tp[k]] == (vertex_stack@[k], vertex_stack@[k + 1]) by {
                                    if k < tp0.len() {
                                        assert(tp[k] == tp0[k]);
                                        assert(vertex_stack@[k] == vs0[k]);
                                        assert(vertex_stack@[k + 1] == vs0[k + 1]);
                                    } else {
                                        assert(vertex_stack@[k] == vs0[k]);
                                    }
                                }
                                assert forall|i: int, j: int| 0 <= i < j < tp.len() implies #[trigger] tp[i] < #[trigger] tp[j] by {
                                    if j < tp0.len() {
                                        assert(tp[i] == tp0[i] && tp[j] == tp0[j]);
                                    } else {
                                        assert(tp[i] == tp0[i]);
                                    }
                                }
                                if tp0.len() > 0 {
                                    assert(tp[0] == tp0[0]);
                                }
                            }
                        } else {
                            proof {
                                if vs0.len() == 1 {
                                    assert(top_vertex == pivot);
                                    if vs0.contains(next_vertex) {
                                        let q = choose|q: int| 0 <= q < vs0.len() && vs0[q] == next_vertex;
                                        assert(false);
                                    }
                                    assert(handled0[next_vertex as int]);
                                    assert(false);
                                }
                            }
                            proof {
                                assert(vs0.contains(next_vertex)) by {
                                    if !vs0.contains(next_vertex) {
                                        assert(adj0[next_vertex as int].len() == 0);
                                    }
                                }
                            }
                            if number[next_vertex] < low[top_vertex] {
                                let nn = number[next_vertex];
                                let ghost low1 = low@;
                                low.set(top_vertex, nn);
                                proof {
                                    assert forall|v: int| 0 <= v < n implies #[trigger] number@[v] < n && low@[v] < n by {
                                        assert(number@[v] < n);
                                        assert(low1[v] < n);
                                        if v != top_vertex {
                                            assert(low@[v] == low1[v]);
                                        }
                                    }
                                    assert(labels_below(number@, low@, n));
                                    assert(vertex_stack@.len() >= 3 ==> vertex_stack@[1] != top_vertex);
                                }
                            }
                            proof {
                                assert(edge_stack@ == es_h.push((top_vertex, next_vertex)));
                                assert(vs_h.contains(next_vertex));
                                lemma_search_back_edge(
                                    es_h,
                                    vs_h,
                                    tp_h,
                                    tpos,
                                    low_h,
                                    num_h,
                                    hd_h,
                                    low@,
                                    groups,
                                    att,
                                    owner,
                                    n as nat,
                                    next_vertex,
                                );
                            }
                        }
                    } else {
                        let ghost vs0 = vertex_stack@;
                        vertex_stack.pop();
                        let ghost tp0 = tp;
                        proof {
                            if tp.len() > 0 {
                                tp = tp.drop_last();
                            }
                            assert(vs0 == vertex_stack@.push(top_vertex));
                            lemma_push_no_dup_rev(vertex_stack@, top_vertex);
                            lemma_push_contains(vertex_stack@, top_vertex);
                            assert forall|v: int|
                                0 <= v < n && #[trigger] handled@[v] && !vertex_stack@.contains(v as usize)
                                    implies g.spec_adj()[v].len() == 0 by {
                                if v != top_vertex {
                                    assert(!vs0.contains(v as usize));
                                }
                            }
                            if vertex_stack@.len() > 0 {
                                assert(vertex_stack@[0] == vs0[0]);
                            }
                            if vertex_stack@.len() >= 2 {
                                assert(vertex_stack@[1] == vs0[1]);
                            }
                            assert forall|k: int| 0 <= k < tp.len() implies 0 <= #[trigger] tp[k] < edge_stack@.len()
                                && edge_stack@[tp[k]] == (vertex_stack@[k], vertex_stack@[k + 1]) by {
                                assert(tp[k] == tp0[k]);
                                assert(vertex_stack@[k] == vs0[k]);
                                assert(vertex_stack@[k + 1] == vs0[k + 1]);
                            }
                            assert forall|i: int, j: int| 0 <= i < j < tp.len() implies #[trigger] tp[i] < #[trigger] tp[j] by {
                                assert(tp[i] == tp0[i] && tp[j] == tp0[j]);
                            }
                            if tp.len() > 0 {
                                assert(tp[0] == tp0[0]);
                            }
                            if vertex_stack@.len() == 0 {
                                assert(vs_h.len() == 1);
                                assert(es_h.len() == 0);
                                lemma_search_pop_last(es_h, vs_h, tp_h, tpos, low_h, num_h, hd_h, groups, att, owner, n as nat);
                                assert(vertex_stack@ =~= Seq::<usize>::empty());
                                assert(tp =~= Seq::<int>::empty());
                            }
                        }
                        if vertex_stack.len() > 0 {
                            let next_vertex = vertex_stack[vertex_stack.len() - 1];
                            if low[top_vertex] == number[next_vertex] {
                                let ghost p = tp0.last();
                                proof {
                                    assert(edge_stack@[p] == (vs0[vs0.len() - 2], vs0[vs0.len() - 1]));
                                    assert(vs0[vs0.len() - 2] == next_vertex);
                                }
                                let ghost rest = edge_keys(g.spec_adj());
                                let ghost es_before = edge_stack@;
                                proof {
                                    assert(in_comp@.len() == n);
                                    assert forall|v: usize| v < n implies (#[trigger] in_comp@[v as int] <==> Seq::<usize>::empty().contains(v)) by {
                                        assert(!in_comp@[v as int]);
                                    }
                                }
                                let (taken, touched, Ghost(grp)) = pop_block(
                                    &mut edge_stack,
                                    &mut in_comp,
                                    (next_vertex, top_vertex),
                                    n,
                                    Ghost(p),
                                    Ghost(e0k),
                                    Ghost(rest),
                                    Ghost(groups),
                                );
                                proof {
                                    consumed = consumed + taken;
                                    assert forall|k: int| #![trigger edge_stack@[k]] 0 <= k < edge_stack@.len() implies
                                        edge_stack@[k].0 < n && edge_stack@[k].1 < n && edge_stack@[k].0 != edge_stack@[k].1 by {
                                        assert(edge_stack@[k] == es_before[k]);
                                    }
                                    assert forall|k: int| 0 <= k < tp.len() implies 0 <= #[trigger] tp[k] < edge_stack@.len()
                                        && edge_stack@[tp[k]] == (vertex_stack@[k], vertex_stack@[k + 1]) by {
                                        assert(tp[k] == tp0[k]);
                                        assert(tp0[k] < tp0[tp0.len() - 1]);
                                        assert(edge_stack@[tp[k]] == es_before[tp[k]]);
                                    }
                                    if vertex_stack@.len() == 1 {
                                        assert(p == tp0[0]);
                                    }
                                }
                                let size = touched.len();
                                clear_marks(&mut in_comp, &touched, n);
                                if taken > 0 {
                                    proof {
                                        touched@.unique_seq_to_set();
                                        assert(touched@.to_set() =~= ends(grp)) by {
                                            assert forall|v: usize| touched@.to_set().contains(v) <==> ends(grp).contains(v) by {
                                                assert(touched@.contains(v) <==> ends(grp).contains(v));
                                            }
                                        }
                                        lemma_ledger_close(e0k, rest, stack_keys(edge_stack@), grp, groups);
                                        let owner2 = Seq::new(
                                            n as nat,
                                            |z: int|
                                                if ends(grp).contains(z as usize) && z != next_vertex {
                                                    groups.len() as int
                                                } else {
                                                    owner[z]
                                                },
                                        );
                                        assert(vs_h.last() == top_vertex);
                                        assert(vs_h[vs_h.len() - 2] == next_vertex);
                                        assert(tp_h == tp0);
                                        lemma_search_block(es_h, vs_h, tp_h, tpos, low_h, num_h, hd_h, groups, att, owner, owner2, grp, n as nat);
                                        assert(edge_stack@ == es_h.subrange(0, tp_h.last()));
                                        assert(vertex_stack@ == vs_h.drop_last());
                                        assert(tp == tp_h.drop_last());
                                        att = att.push(next_vertex);
                                        owner = owner2;
                                        groups = groups.push(grp);
                                    }
                                    result.push(size);
                                    proof {
                                        assert forall|k: int| 0 <= k < result@.len() implies #[trigger] result@[k] == ends(groups[k]).len() by {
                                            if k < result@.len() - 1 {
                                                assert(result@[k] == result@.drop_last()[k]);
                                            }
                                        }
                                    }
                                }
                            } else {
                                proof {
                                    if vertex_stack@.len() == 1 {
                                        assert(next_vertex == pivot);
                                        assert(vs0[1] == top_vertex);
                                        assert(false);
                                    }
                                }
                                if low[top_vertex] < low[next_vertex] {
                                    let lt = low[top_vertex];
                                    let ghost low1 = low@;
                                    low.set(next_vertex, lt);
                                    proof {
                                        assert forall|v: int| 0 <= v < n implies #[trigger] number@[v] < n && low@[v] < n by {
                                            assert(number@[v] < n);
                                            assert(low1[v] < n);
                                            if v != next_vertex {
                                                assert(low@[v] == low1[v]);
                                            }
                                        }
                                        assert(labels_below(number@, low@, n));
                                        assert(vertex_stack@.len() >= 3 ==> vertex_stack@[1] != next_vertex);
                                    }
                                }
                                proof {
                                    assert(vs_h.last() == top_vertex);
                                    assert(vs_h[vs_h.len() - 2] == next_vertex);
                                    lemma_search_pop(es_h, vs_h, tp_h, tpos, low_h, num_h, hd_h, low@, groups, att, owner, n as nat);
                                    assert(vertex_stack@ == vs_h.drop_last());
                                    assert(tp == tp_h.drop_last());
                                }
                            }
                        }
                    }
                }
            }
            pivot = pivot + 1;
        }
        proof {
            assert forall|v: int| 0 <= v < n implies (#[trigger] g.spec_adj()[v]).len() == 0 by {
                assert(handled@[v]);
            }
            lemma_no_edges(g.spec_adj());
            assert(stack_keys(edge_stack@) =~= Seq::<(usize, usize)>::empty());
            lemma_ledger_done(e0k, groups);
            assert(edge_stack@ =~= Seq::<(usize, usize)>::empty());
            assert(vertex_stack@ =~= Seq::<usize>::empty());
            lemma_search_done(adj_init, tpos, handled@, groups, att, owner, root, n as nat);
        }
        let mut kept: Vec<usize> = Vec::new();
        let mut k: usize = 0;
        while k < result.len()
            invariant
                k <= result@.len(),
                kept@ == kept_sizes(result@, alternative_definition, k as int),
                kept@.len() <= k,
                forall|q: int| 0 <= q < result@.len() ==> 2 <= #[trigger] result@[q] <= n,
                forall|q: int| 0 <= q < kept@.len() ==> 2 <= #[trigger] kept@[q] <= n,
                alternative_definition ==> forall|q: int| 0 <= q < kept@.len() ==> #[trigger] kept@[q] > 2,
            decreases result@.len() - k,
        {
            if !alternative_definition || result[k] > 2 {
                kept.push(result[k]);
            }
            k = k + 1;
        }
        let ghost kept0 = kept@;
        sort_usizes_down(&mut kept);
        proof {
            kept0.to_multiset_ensures();
            kept@.to_multiset_ensures();
            assert forall|q: int| 0 <= q < kept@.len() implies 2 <= #[trigger] kept@[q] <= n
                && (alternative_definition ==> kept@[q] > 2) by {
                assert(kept@.contains(kept@[q]));
                assert(kept@.to_multiset().count(kept@[q]) > 0);
                assert(kept0.contains(kept@[q]));
            }
            assert(edge_group_sizes(adj_init, groups, result@, alternative_definition, kept@));
            assert(attached_forest(adj_init, groups, att));
        }
        kept
    }
}

} // verus!
