//! The mathematical model of a graph: a sequence of adjacency lists, its
//! well-formedness, and reachability, with the lemmas the algorithms rest on.
use vstd::prelude::*;
use crate::traits::{first_index, swap_removed};

verus! {

/// An undirected simple graph given by adjacency lists over the vertices `0..adj.len()`:
/// every entry is a vertex, there are no self-loops, no list repeats an entry, and
/// `j` is in the list of `i` exactly when `i` is in the list of `j`.
pub open spec fn adj_wf(adj: Seq<Seq<usize>>) -> bool {
    &&& forall|i: int, k: int|
        0 <= i < adj.len() && 0 <= k < adj[i].len() ==> #[trigger] adj[i][k] < adj.len() && adj[i][k]
            != i
    &&& forall|i: int| 0 <= i < adj.len() ==> (#[trigger] adj[i]).no_duplicates()
    &&& forall|i: usize, j: usize|
        i < adj.len() && #[trigger] adj[i as int].contains(j) ==> adj[j as int].contains(i)
}

/// `i` and `j` are joined by an edge
pub open spec fn is_edge(adj: Seq<Seq<usize>>, i: usize, j: usize) -> bool {
    i < adj.len() && adj[i as int].contains(j)
}

/// sum of the lengths of the first `k` adjacency lists
pub open spec fn deg_sum_upto(adj: Seq<Seq<usize>>, k: int) -> nat
    decreases k,
{
    if k <= 0 {
        0
    } else {
        deg_sum_upto(adj, k - 1) + adj[k - 1].len()
    }
}

/// sum of all degrees, i.e., twice the number of edges
pub open spec fn deg_sum(adj: Seq<Seq<usize>>) -> nat {
    deg_sum_upto(adj, adj.len() as int)
}

/// Replacing one adjacency list changes the degree sum by the change in its length
pub proof fn lemma_deg_sum_update(adj: Seq<Seq<usize>>, i: int, s: Seq<usize>, k: int)
    requires
        0 <= i < adj.len(),
        0 <= k <= adj.len(),
    ensures
        deg_sum_upto(adj.update(i, s), k) == if i < k {
            deg_sum_upto(adj, k) - adj[i].len() + s.len()
        } else {
            deg_sum_upto(adj, k) as int
        },
    decreases k,
{
    if k > 0 {
        lemma_deg_sum_update(adj, i, s, k - 1);
    }
}

/// the degree sum only depends on the lengths of the lists
pub proof fn lemma_deg_sum_lengths(a: Seq<Seq<usize>>, b: Seq<Seq<usize>>, k: int)
    requires
        a.len() == b.len(),
        0 <= k <= a.len(),
        forall|i: int| 0 <= i < a.len() ==> #[trigger] a[i].len() == b[i].len(),
    ensures
        deg_sum_upto(a, k) == deg_sum_upto(b, k),
    decreases k,
{
    if k > 0 {
        lemma_deg_sum_lengths(a, b, k - 1);
    }
}

/// all lists empty: degree sum 0
pub proof fn lemma_deg_sum_empty(adj: Seq<Seq<usize>>, k: int)
    requires
        0 <= k <= adj.len(),
        forall|i: int| 0 <= i < adj.len() ==> #[trigger] adj[i].len() == 0,
    ensures
        deg_sum_upto(adj, k) == 0,
    decreases k,
{
    if k > 0 {
        lemma_deg_sum_empty(adj, k - 1);
    }
}

/// a zero degree sum means every list is empty
pub proof fn lemma_deg_sum_zero(adj: Seq<Seq<usize>>, k: int, i: int)
    requires
        0 <= i < k <= adj.len(),
        deg_sum_upto(adj, k) == 0,
    ensures
        adj[i].len() == 0,
    decreases k,
{
    if i < k - 1 {
        lemma_deg_sum_zero(adj, k - 1, i);
    }
}

/// lists with the same entries (in any order) keep a graph well formed and its degree sum
pub proof fn lemma_same_lists_wf(a: Seq<Seq<usize>>, b: Seq<Seq<usize>>)
    requires
        adj_wf(a),
        a.len() == b.len(),
        forall|i: int| 0 <= i < a.len() ==> (#[trigger] b[i]).to_multiset() == a[i].to_multiset(),
    ensures
        adj_wf(b),
        deg_sum(b) == deg_sum(a),
        forall|i: usize, j: usize| is_edge(b, i, j) <==> is_edge(a, i, j),
{
    assert forall|i: int| 0 <= i < a.len() implies #[trigger] b[i].len() == a[i].len()
        && (forall|x: usize| b[i].contains(x) <==> a[i].contains(x)) by {
        lemma_same_multiset(a[i], b[i]);
    }
    lemma_deg_sum_lengths(a, b, a.len() as int);
    assert forall|i: int, k: int| 0 <= i < b.len() && 0 <= k < b[i].len() implies #[trigger] b[i][k]
        < b.len() && b[i][k] != i by {
        assert(b[i].contains(b[i][k]));
        assert(a[i].contains(b[i][k]));
        let q = choose|q: int| 0 <= q < a[i].len() && a[i][q] == b[i][k];
        assert(a[i][q] < a.len());
    }
    assert forall|i: int| 0 <= i < b.len() implies (#[trigger] b[i]).no_duplicates() by {
        a[i].lemma_multiset_has_no_duplicates();
        b[i].lemma_multiset_has_no_duplicates_conv();
    }
    assert forall|i: usize, j: usize| i < b.len() && #[trigger] b[i as int].contains(j) implies b[j
        as int].contains(i) by {
        lemma_same_multiset(a[i as int], b[i as int]);
        assert(a[i as int].contains(j));
        assert(a[j as int].contains(i));
        let q = choose|q: int| 0 <= q < a[i as int].len() && a[i as int][q] == j;
        assert(a[i as int][q] < a.len());
        lemma_same_multiset(a[j as int], b[j as int]);
    }
}

/// lists with the same multiset of entries have the same length and entries
pub proof fn lemma_same_multiset(a: Seq<usize>, b: Seq<usize>)
    requires
        a.to_multiset() == b.to_multiset(),
    ensures
        a.len() == b.len(),
        forall|x: usize| b.contains(x) <==> a.contains(x),
{
    a.to_multiset_ensures();
    b.to_multiset_ensures();
    assert forall|x: usize| b.contains(x) <==> a.contains(x) by {
        assert(b.contains(x) <==> b.to_multiset().count(x) > 0);
        assert(a.contains(x) <==> a.to_multiset().count(x) > 0);
    }
}

/// what `swap_removed` keeps of a list without repetitions
pub proof fn lemma_swap_removed(s: Seq<usize>, x: usize)
    requires
        s.no_duplicates(),
        s.contains(x),
    ensures
        swap_removed(s, x).len() == s.len() - 1,
        swap_removed(s, x).no_duplicates(),
        forall|y: usize| swap_removed(s, x).contains(y) <==> (s.contains(y) && y != x),
        forall|k: int|
            0 <= k < swap_removed(s, x).len() ==> s.contains(#[trigger] swap_removed(s, x)[k]),
{
    let k0 = choose|k: int| 0 <= k < s.len() && s[k] == x;
    assert(0 <= k0 < s.len() && s[k0] == x && forall|q: int| 0 <= q < k0 ==> s[q] != x);
    let p = first_index(s, x);
    let r = swap_removed(s, x);
    assert(0 <= p < s.len() && s[p] == x);
    let n = s.len();
    assert forall|y: usize| r.contains(y) <==> (s.contains(y) && y != x) by {
        if r.contains(y) {
            let k = choose|k: int| 0 <= k < r.len() && r[k] == y;
            if k == p {
                assert(r[k] == s[n - 1]);
                assert(s[n - 1] != x);
            } else {
                assert(r[k] == s[k]);
                assert(k != p);
            }
        }
        if s.contains(y) && y != x {
            let k = choose|k: int| 0 <= k < s.len() && s[k] == y;
            if k == n - 1 {
                assert(r[p] == y);
            } else {
                assert(k != p);
                assert(r[k] == y);
            }
        }
    }
    assert forall|a: int, b: int| 0 <= a < r.len() && 0 <= b < r.len() && a != b implies r[a]
        != r[b] by {
        if a == p {
            assert(r[a] == s[n - 1]);
            assert(r[b] == s[b]);
        } else if b == p {
            assert(r[b] == s[n - 1]);
            assert(r[a] == s[a]);
        } else {
            assert(r[a] == s[a]);
            assert(r[b] == s[b]);
        }
    }
    assert forall|k: int| 0 <= k < r.len() implies s.contains(#[trigger] r[k]) by {
        if k == p {
            assert(s[n - 1] == r[k]);
        } else {
            assert(s[k] == r[k]);
        }
    }
}

/// The adjacency lists after adding the edge `{i, j}`
pub open spec fn added_edge(adj: Seq<Seq<usize>>, i: usize, j: usize) -> Seq<Seq<usize>> {
    adj.update(i as int, adj[i as int].push(j)).update(j as int, adj[j as int].push(i))
}

/// The adjacency lists after removing the edge `{i, j}`
pub open spec fn removed_edge(adj: Seq<Seq<usize>>, i: usize, j: usize) -> Seq<Seq<usize>> {
    adj.update(i as int, swap_removed(adj[i as int], j)).update(
        j as int,
        swap_removed(adj[j as int], i),
    )
}

/// a list with `x` pushed holds what it held and `x`
pub proof fn lemma_push_contains(s: Seq<usize>, x: usize)
    ensures
        forall|y: usize| s.push(x).contains(y) <==> (s.contains(y) || y == x),
{
    assert forall|y: usize| s.push(x).contains(y) <==> (s.contains(y) || y == x) by {
        if s.push(x).contains(y) && y != x {
            let k = choose|k: int| 0 <= k < s.push(x).len() && s.push(x)[k] == y;
            assert(s[k] == y);
        }
        if s.contains(y) {
            let k = choose|k: int| 0 <= k < s.len() && s[k] == y;
            assert(s.push(x)[k] == y);
        }
        if y == x {
            assert(s.push(x)[s.len() as int] == y);
        }
    }
}

/// a list with `x` pushed holds `y` when it held `y` before or `y` is `x`
pub proof fn lemma_push_contains_one(s: Seq<usize>, x: usize, y: usize)
    ensures
        s.push(x).contains(y) <==> (s.contains(y) || y == x),
{
    lemma_push_contains(s, x);
}

/// pushing a new value keeps a list free of repetitions
pub proof fn lemma_push_no_dup(s: Seq<usize>, x: usize)
    requires
        s.no_duplicates(),
        !s.contains(x),
    ensures
        s.push(x).no_duplicates(),
{
    let t = s.push(x);
    assert forall|a: int, b: int| 0 <= a < t.len() && 0 <= b < t.len() && a != b implies t[a]
        != t[b] by {
        if a == s.len() {
            assert(t[b] == s[b]);
        } else if b == s.len() {
            assert(t[a] == s[a]);
        } else {
            assert(t[a] == s[a] && t[b] == s[b]);
        }
    }
}

/// a list without repetitions, split off its last entry
pub proof fn lemma_push_no_dup_rev(s: Seq<usize>, x: usize)
    requires
        s.push(x).no_duplicates(),
    ensures
        s.no_duplicates(),
        !s.contains(x),
{
    let t = s.push(x);
    assert forall|a: int, b: int| 0 <= a < s.len() && 0 <= b < s.len() && a != b implies s[a]
        != s[b] by {
        assert(t[a] == s[a] && t[b] == s[b]);
    }
    if s.contains(x) {
        let k = choose|k: int| 0 <= k < s.len() && s[k] == x;
        assert(t[k] == t[s.len() as int]);
    }
}

/// Adding a missing edge keeps a graph well formed and raises the degree sum by two
pub proof fn lemma_add_edge(adj: Seq<Seq<usize>>, i: usize, j: usize)
    requires
        adj_wf(adj),
        i < adj.len(),
        j < adj.len(),
        i != j,
        !adj[i as int].contains(j),
    ensures
        adj_wf(added_edge(adj, i, j)),
        deg_sum(added_edge(adj, i, j)) == deg_sum(adj) + 2,
        !adj[j as int].contains(i),
        added_edge(adj, i, j).len() == adj.len(),
        forall|a: usize, b: usize|
            #[trigger] is_edge(added_edge(adj, i, j), a, b) <==> (is_edge(adj, a, b) || (a == i && b == j) || (
            a == j && b == i)),
{
    let n = adj.len();
    let a1 = adj.update(i as int, adj[i as int].push(j));
    let a2 = added_edge(adj, i, j);
    lemma_deg_sum_update(adj, i as int, adj[i as int].push(j), n as int);
    lemma_deg_sum_update(a1, j as int, adj[j as int].push(i), n as int);
    lemma_push_contains(adj[i as int], j);
    lemma_push_contains(adj[j as int], i);
    assert(a2[i as int] == adj[i as int].push(j));
    assert(a2[j as int] == adj[j as int].push(i));
    assert forall|v: int, k: int|
        0 <= v < n && 0 <= k < a2[v].len() implies #[trigger] a2[v][k] < n && a2[v][k] != v by {
        if v == i {
            if k < adj[i as int].len() {
                assert(a2[v][k] == adj[v][k]);
            }
        } else if v == j {
            if k < adj[j as int].len() {
                assert(a2[v][k] == adj[v][k]);
            }
        } else {
            assert(a2[v][k] == adj[v][k]);
        }
    }
    assert forall|v: int| 0 <= v < n implies (#[trigger] a2[v]).no_duplicates() by {
        if v == i {
            lemma_push_no_dup(adj[v], j);
        } else if v == j {
            lemma_push_no_dup(adj[v], i);
        }
    }
    assert forall|a: usize, b: usize|
        is_edge(a2, a, b) <==> (is_edge(adj, a, b) || (a == i && b == j) || (a == j && b == i)) by {
        if a < n && a != i && a != j {
            assert(a2[a as int] == adj[a as int]);
        } else if a == i {
            lemma_push_contains_one(adj[i as int], j, b);
            assert(a2[a as int].contains(b) <==> (adj[a as int].contains(b) || b == j));
        } else if a == j {
            assert(a2[a as int] == adj[j as int].push(i));
            lemma_push_contains_one(adj[j as int], i, b);
            assert(a2[a as int].contains(b) <==> (adj[a as int].contains(b) || b == i));
        }
    }
    assert forall|v: usize, w: usize| v < n && #[trigger] a2[v as int].contains(w) implies a2[w as int].contains(
        v,
    ) by {
        assert(is_edge(a2, v, w));
        if !((v == i && w == j) || (v == j && w == i)) {
            assert(adj[v as int].contains(w));
            assert(adj[w as int].contains(v));
            assert(is_edge(adj, w, v));
            let k = choose|k: int| 0 <= k < adj[v as int].len() && adj[v as int][k] == w;
            assert(adj[v as int][k] < n);
        }
        assert(is_edge(a2, w, v));
    }
}

/// Removing a present edge keeps a graph well formed and lowers the degree sum by two
pub proof fn lemma_remove_edge(adj: Seq<Seq<usize>>, i: usize, j: usize)
    requires
        adj_wf(adj),
        i < adj.len(),
        j < adj.len(),
        adj[i as int].contains(j),
    ensures
        i != j,
        adj[j as int].contains(i),
        adj_wf(removed_edge(adj, i, j)),
        deg_sum(removed_edge(adj, i, j)) + 2 == deg_sum(adj),
        removed_edge(adj, i, j).len() == adj.len(),
        forall|a: usize, b: usize|
            #[trigger] is_edge(removed_edge(adj, i, j), a, b) <==> (is_edge(adj, a, b) && !(a == i && b == j)
                && !(a == j && b == i)),
{
    let n = adj.len();
    let k = choose|k: int| 0 <= k < adj[i as int].len() && adj[i as int][k] == j;
    assert(adj[i as int][k] != i);
    let si = swap_removed(adj[i as int], j);
    let sj = swap_removed(adj[j as int], i);
    lemma_swap_removed(adj[i as int], j);
    lemma_swap_removed(adj[j as int], i);
    let a1 = adj.update(i as int, si);
    let a2 = removed_edge(adj, i, j);
    lemma_deg_sum_update(adj, i as int, si, n as int);
    lemma_deg_sum_update(a1, j as int, sj, n as int);
    assert(a2[i as int] == si);
    assert(a2[j as int] == sj);
    assert forall|v: int, q: int|
        0 <= v < n && 0 <= q < a2[v].len() implies #[trigger] a2[v][q] < n && a2[v][q] != v by {
        if v == i {
            assert(adj[v].contains(si[q]));
            let q2 = choose|q2: int| 0 <= q2 < adj[v].len() && adj[v][q2] == si[q];
            assert(adj[v][q2] < n && adj[v][q2] != v);
        } else if v == j {
            assert(adj[v].contains(sj[q]));
            let q2 = choose|q2: int| 0 <= q2 < adj[v].len() && adj[v][q2] == sj[q];
            assert(adj[v][q2] < n && adj[v][q2] != v);
        } else {
            assert(a2[v][q] == adj[v][q]);
        }
    }
    assert forall|v: int| 0 <= v < n implies (#[trigger] a2[v]).no_duplicates() by {
        if v != i && v != j {
            assert(a2[v] == adj[v]);
        }
    }
    assert forall|a: usize, b: usize|
        is_edge(a2, a, b) <==> (is_edge(adj, a, b) && !(a == i && b == j) && !(a == j && b == i)) by {
        if a < n && a != i && a != j {
            assert(a2[a as int] == adj[a as int]);
        }
    }
    assert forall|v: usize, w: usize| v < n && #[trigger] a2[v as int].contains(w) implies a2[w as int].contains(
        v,
    ) by {
        assert(is_edge(a2, v, w));
        assert(is_edge(adj, v, w));
        assert(adj[w as int].contains(v));
        let q = choose|q: int| 0 <= q < adj[v as int].len() && adj[v as int][q] == w;
        assert(adj[v as int][q] < n);
        assert(is_edge(adj, w, v));
        assert(is_edge(a2, w, v));
    }
}

/// `p` is a walk along edges, i.e., consecutive entries are adjacent
pub open spec fn is_walk(adj: Seq<Seq<usize>>, p: Seq<usize>) -> bool {
    &&& p.len() > 0
    &&& forall|k: int| 0 <= k < p.len() ==> #[trigger] p[k] < adj.len()
    &&& forall|k: int| 0 <= k < p.len() - 1 ==> adj[#[trigger] p[k] as int].contains(p[k + 1])
}

/// there is a walk from `s` to `t`
pub open spec fn reachable(adj: Seq<Seq<usize>>, s: usize, t: usize) -> bool {
    exists|p: Seq<usize>| is_walk(adj, p) && p[0] == s && p.last() == t
}

/// both ends of a walk are vertices
pub proof fn lemma_reachable_bounds(adj: Seq<Seq<usize>>, s: usize, t: usize)
    requires
        reachable(adj, s, t),
    ensures
        s < adj.len(),
        t < adj.len(),
{
    let p = choose|p: Seq<usize>| is_walk(adj, p) && p[0] == s && p.last() == t;
    assert(p[0] < adj.len());
    assert(p[p.len() - 1] < adj.len());
}

/// every vertex reaches itself
pub proof fn lemma_reachable_refl(adj: Seq<Seq<usize>>, s: usize)
    requires
        s < adj.len(),
    ensures
        reachable(adj, s, s),
{
    let p = seq![s];
    assert(is_walk(adj, p));
    assert(p[0] == s && p.last() == s);
}

/// a walk to `t` continued along an edge of `t`
pub proof fn lemma_reachable_step(adj: Seq<Seq<usize>>, s: usize, t: usize, u: usize)
    requires
        adj_wf(adj),
        reachable(adj, s, t),
        t < adj.len(),
        adj[t as int].contains(u),
    ensures
        reachable(adj, s, u),
{
    let p = choose|p: Seq<usize>| is_walk(adj, p) && p[0] == s && p.last() == t;
    let q = p.push(u);
    let k = choose|k: int| 0 <= k < adj[t as int].len() && adj[t as int][k] == u;
    assert(adj[t as int][k] < adj.len());
    assert forall|i: int| 0 <= i < q.len() - 1 implies adj[#[trigger] q[i] as int].contains(q[i + 1]) by {
        if i < p.len() - 1 {
            assert(q[i] == p[i] && q[i + 1] == p[i + 1]);
        }
    }
    assert(is_walk(adj, q));
    assert(q[0] == s && q.last() == u);
}

/// walks can be reversed in an undirected graph
pub proof fn lemma_reachable_sym(adj: Seq<Seq<usize>>, s: usize, t: usize)
    requires
        adj_wf(adj),
        reachable(adj, s, t),
    ensures
        reachable(adj, t, s),
{
    let p = choose|p: Seq<usize>| is_walk(adj, p) && p[0] == s && p.last() == t;
    let q = p.reverse();
    assert forall|i: int| 0 <= i < q.len() - 1 implies adj[#[trigger] q[i] as int].contains(q[i + 1]) by {
        let a = p.len() - 1 - i;
        assert(q[i] == p[a]);
        assert(q[i + 1] == p[a - 1]);
        assert(adj[p[a - 1] as int].contains(p[a]));
    }
    assert(is_walk(adj, q));
    assert(q[0] == t && q.last() == s);
}

/// walks can be joined
pub proof fn lemma_reachable_trans(adj: Seq<Seq<usize>>, s: usize, t: usize, u: usize)
    requires
        reachable(adj, s, t),
        reachable(adj, t, u),
    ensures
        reachable(adj, s, u),
{
    let p = choose|p: Seq<usize>| is_walk(adj, p) && p[0] == s && p.last() == t;
    let q = choose|q: Seq<usize>| is_walk(adj, q) && q[0] == t && q.last() == u;
    let r = p + q.drop_first();
    assert forall|i: int| 0 <= i < r.len() implies #[trigger] r[i] < adj.len() by {
        if i < p.len() {
            assert(r[i] == p[i]);
        } else {
            assert(r[i] == q[i - p.len() + 1]);
        }
    }
    assert forall|i: int| 0 <= i < r.len() - 1 implies adj[#[trigger] r[i] as int].contains(r[i + 1]) by {
        if i < p.len() - 1 {
            assert(r[i] == p[i] && r[i + 1] == p[i + 1]);
        } else if i == p.len() - 1 {
            assert(r[i] == q[0]);
            assert(r[i + 1] == q[1]);
        } else {
            assert(r[i] == q[i - p.len() + 1]);
            assert(r[i + 1] == q[i - p.len() + 2]);
        }
    }
    assert(is_walk(adj, r));
    if q.len() == 1 {
        assert(r =~= p);
    } else {
        assert(r.last() == q.last());
    }
}

/// A set of vertices that holds `s` and is closed under taking neighbors holds every
/// vertex that `s` reaches.
pub proof fn lemma_closed_set_reach(adj: Seq<Seq<usize>>, set: Set<usize>, s: usize, t: usize)
    requires
        set.contains(s),
        forall|v: usize, w: usize|
            set.contains(v) && v < adj.len() && #[trigger] adj[v as int].contains(w) ==> set.contains(w),
        reachable(adj, s, t),
    ensures
        set.contains(t),
{
    let p = choose|p: Seq<usize>| is_walk(adj, p) && p[0] == s && p.last() == t;
    lemma_closed_set_walk(adj, set, p, p.len() - 1);
}

/// every entry of a walk that starts in a closed set lies in it
proof fn lemma_closed_set_walk(adj: Seq<Seq<usize>>, set: Set<usize>, p: Seq<usize>, k: int)
    requires
        is_walk(adj, p),
        set.contains(p[0]),
        0 <= k < p.len(),
        forall|v: usize, w: usize|
            set.contains(v) && v < adj.len() && #[trigger] adj[v as int].contains(w) ==> set.contains(w),
    ensures
        set.contains(p[k]),
    decreases k,
{
    if k > 0 {
        lemma_closed_set_walk(adj, set, p, k - 1);
        assert(adj[p[k - 1] as int].contains(p[k]));
    }
}

/// some list is not empty when the degree sum is positive
proof fn lemma_deg_sum_pos(adj: Seq<Seq<usize>>, k: int) -> (i: int)
    requires
        0 <= k <= adj.len(),
        deg_sum_upto(adj, k) > 0,
    ensures
        0 <= i < k,
        adj[i].len() > 0,
    decreases k,
{
    if adj[k - 1].len() > 0 {
        k - 1
    } else {
        lemma_deg_sum_pos(adj, k - 1)
    }
}

/// In a well formed graph the degree sum is even: every edge counts twice.
pub proof fn lemma_handshake(adj: Seq<Seq<usize>>)
    requires
        adj_wf(adj),
        adj.len() <= usize::MAX,
    ensures
        deg_sum(adj) % 2 == 0,
    decreases deg_sum(adj),
{
    if deg_sum(adj) > 0 {
        let i = lemma_deg_sum_pos(adj, adj.len() as int);
        let j = adj[i][0];
        assert(adj[i].contains(j));
        lemma_remove_edge(adj, i as usize, j);
        lemma_handshake(removed_edge(adj, i as usize, j));
    }
}

/// an entry that occurs has a first occurrence
pub proof fn lemma_first_index_exists(s: Seq<usize>, x: usize, k: int)
    requires
        0 <= k < s.len(),
        s[k] == x,
    ensures
        0 <= first_index(s, x) <= k,
        s[first_index(s, x)] == x,
        forall|q: int| 0 <= q < first_index(s, x) ==> s[q] != x,
    decreases k,
{
    if exists|q: int| 0 <= q < k && s[q] == x {
        let q = choose|q: int| 0 <= q < k && s[q] == x;
        lemma_first_index_exists(s, x, q);
    } else {
        assert(0 <= k < s.len() && s[k] == x && forall|q: int| 0 <= q < k ==> s[q] != x);
    }
}

/// the list with the first `x` overwritten by `y`
pub open spec fn replaced(s: Seq<usize>, x: usize, y: usize) -> Seq<usize> {
    s.update(first_index(s, x), y)
}

/// The adjacency lists after the edge `{i0, i1}` is bent to `{i0, i2}`: in the list of `i0`
/// the entry `i1` becomes `i2`, `i1` loses `i0` (as `swap_remove`), and `i2` gains `i0` at its end
pub open spec fn rewired(adj: Seq<Seq<usize>>, i0: usize, i1: usize, i2: usize) -> Seq<Seq<usize>> {
    adj.update(i0 as int, replaced(adj[i0 as int], i1, i2)).update(
        i1 as int,
        swap_removed(adj[i1 as int], i0),
    ).update(i2 as int, adj[i2 as int].push(i0))
}

/// overwriting an entry and swap-removing it and pushing the new value give the same multiset
proof fn lemma_replaced_multiset(s: Seq<usize>, x: usize, y: usize)
    requires
        s.contains(x),
        x != y,
    ensures
        replaced(s, x, y).to_multiset() == swap_removed(s, x).push(y).to_multiset(),
{
    broadcast use vstd::multiset::group_multiset_axioms;

    let k0 = choose|k: int| 0 <= k < s.len() && s[k] == x;
    lemma_first_index_exists(s, x, k0);
    let p = first_index(s, x);
    assert(0 <= p < s.len() && s[p] == x);
    let t = s.update(p, s.last());
    vstd::seq_lib::to_multiset_update(s, p, y);
    vstd::seq_lib::to_multiset_update(s, p, s.last());
    s.to_multiset_ensures();
    t.drop_last().to_multiset_ensures();
    assert(t =~= t.drop_last().push(t.last()));
    assert(t.last() == s.last()) by {
        if p == s.len() - 1 {
            assert(t[p] == s.last());
        }
    }
    swap_removed(s, x).to_multiset_ensures();
    assert(s.contains(s.last())) by {
        assert(s[s.len() - 1] == s.last());
    }
    let m = s.to_multiset();
    assert(replaced(s, x, y).to_multiset() =~= m.insert(y).remove(x));
    assert(t.to_multiset() =~= m.insert(s.last()).remove(x));
    assert(t.to_multiset() == t.drop_last().to_multiset().insert(s.last()));
    assert(swap_removed(s, x).to_multiset() =~= m.insert(s.last()).remove(x).remove(s.last()));
    assert(swap_removed(s, x).push(y).to_multiset() =~= m.insert(y).remove(x));
}

/// Bending an edge to a vertex that is not yet a neighbor keeps a graph well formed and
/// its degree sum, and moves exactly that edge
pub proof fn lemma_rewire(adj: Seq<Seq<usize>>, i0: usize, i1: usize, i2: usize)
    requires
        adj_wf(adj),
        i0 < adj.len(),
        i1 < adj.len(),
        i2 < adj.len(),
        i0 != i2,
        i1 != i2,
        adj[i0 as int].contains(i1),
        !adj[i0 as int].contains(i2),
    ensures
        adj_wf(rewired(adj, i0, i1, i2)),
        deg_sum(rewired(adj, i0, i1, i2)) == deg_sum(adj),
        rewired(adj, i0, i1, i2).len() == adj.len(),
        forall|a: usize, b: usize|
            #[trigger] is_edge(rewired(adj, i0, i1, i2), a, b) <==> ((is_edge(adj, a, b) && !(a == i0 && b
                == i1) && !(a == i1 && b == i0)) || (a == i0 && b == i2) || (a == i2 && b == i0)),
{
    lemma_remove_edge(adj, i0, i1);
    let a1 = removed_edge(adj, i0, i1);
    assert(a1[i0 as int] == swap_removed(adj[i0 as int], i1));
    lemma_swap_removed(adj[i0 as int], i1);
    assert(!a1[i0 as int].contains(i2));
    lemma_add_edge(a1, i0, i2);
    let a2 = added_edge(a1, i0, i2);
    let r = rewired(adj, i0, i1, i2);
    assert forall|i: int| 0 <= i < adj.len() implies (#[trigger] r[i]).to_multiset() == a2[i].to_multiset() by {
        if i == i0 {
            lemma_replaced_multiset(adj[i0 as int], i1, i2);
        }
    }
    lemma_same_lists_wf(a2, r);
    assert forall|a: usize, b: usize|
        is_edge(r, a, b) <==> ((is_edge(adj, a, b) && !(a == i0 && b == i1) && !(a == i1 && b
            == i0)) || (a == i0 && b == i2) || (a == i2 && b == i0)) by {
        assert(is_edge(r, a, b) <==> is_edge(a2, a, b));
        assert(is_edge(a2, a, b) <==> (is_edge(a1, a, b) || (a == i0 && b == i2) || (a == i2 && b
            == i0)));
        assert(is_edge(a1, a, b) <==> (is_edge(adj, a, b) && !(a == i0 && b == i1) && !(a == i1
            && b == i0)));
    }
}

/// Removing an edge that was just added gives back the edges of the graph, and adding
/// an edge that was just removed gives them back too.
pub proof fn lemma_add_remove_inverse(adj: Seq<Seq<usize>>, i: usize, j: usize)
    requires
        adj_wf(adj),
        i < adj.len(),
        j < adj.len(),
        i != j,
    ensures
        !adj[i as int].contains(j) ==> forall|a: usize, b: usize|
            #[trigger] is_edge(removed_edge(added_edge(adj, i, j), i, j), a, b) <==> is_edge(adj, a, b),
        adj[i as int].contains(j) ==> forall|a: usize, b: usize|
            #[trigger] is_edge(added_edge(removed_edge(adj, i, j), i, j), a, b) <==> is_edge(adj, a, b),
{
    if !adj[i as int].contains(j) {
        lemma_add_edge(adj, i, j);
        let a1 = added_edge(adj, i, j);
        assert(a1[i as int] == adj[i as int].push(j));
        assert(a1[i as int].contains(j)) by {
            assert(a1[i as int][a1[i as int].len() - 1] == j);
        }
        lemma_remove_edge(a1, i, j);
        assert forall|a: usize, b: usize|
            #[trigger] is_edge(removed_edge(a1, i, j), a, b) <==> is_edge(adj, a, b) by {
            if is_edge(adj, a, b) && ((a == i && b == j) || (a == j && b == i)) {
                assert(adj[j as int].contains(i) ==> adj[i as int].contains(j));
            }
        }
    } else {
        lemma_remove_edge(adj, i, j);
        let a1 = removed_edge(adj, i, j);
        assert(!is_edge(a1, i, j));
        lemma_add_edge(a1, i, j);
    }
}

/// Bending an edge from `i1` to `i2` and then back from `i2` to `i1` gives back the
/// edges of the graph.
pub proof fn lemma_rewire_back(adj: Seq<Seq<usize>>, i0: usize, i1: usize, i2: usize)
    requires
        adj_wf(adj),
        i0 < adj.len(),
        i1 < adj.len(),
        i2 < adj.len(),
        i0 != i2,
        i1 != i2,
        adj[i0 as int].contains(i1),
        !adj[i0 as int].contains(i2),
    ensures
        forall|a: usize, b: usize|
            #[trigger] is_edge(rewired(rewired(adj, i0, i1, i2), i0, i2, i1), a, b) <==> is_edge(adj, a, b),
{
    lemma_rewire(adj, i0, i1, i2);
    let r1 = rewired(adj, i0, i1, i2);
    assert(i0 != i1) by {
        let k = choose|k: int| 0 <= k < adj[i0 as int].len() && adj[i0 as int][k] == i1;
        assert(adj[i0 as int][k] != i0);
    }
    assert(is_edge(r1, i0, i2));
    assert(!is_edge(r1, i0, i1));
    lemma_rewire(r1, i0, i2, i1);
    assert forall|a: usize, b: usize|
        #[trigger] is_edge(rewired(r1, i0, i2, i1), a, b) <==> is_edge(adj, a, b) by {
        if is_edge(adj, a, b) && a == i1 && b == i0 {
            assert(adj[i1 as int].contains(i0));
        }
        if is_edge(adj, a, b) && a == i2 && b == i0 {
            assert(adj[i2 as int].contains(i0) ==> adj[i0 as int].contains(i2));
        }
    }
}

} // verus!
