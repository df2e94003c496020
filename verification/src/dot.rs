//! The Graphviz (`.dot`) text of a graph: a header with the options, the list of
//! vertices, a label for each vertex, and one line for each edge.
use vstd::prelude::*;
use vstd::string::StringExecFns;
use crate::traits::AdjContainer;
use crate::generic_graph::GenericGraph;
use crate::edge_list::upper_pairs;

verus! {

/// the decimal digit `d`
pub open spec fn digit_text(d: nat) -> Seq<char> {
    if d == 0 {
        "0"@
    } else if d == 1 {
        "1"@
    } else if d == 2 {
        "2"@
    } else if d == 3 {
        "3"@
    } else if d == 4 {
        "4"@
    } else if d == 5 {
        "5"@
    } else if d == 6 {
        "6"@
    } else if d == 7 {
        "7"@
    } else if d == 8 {
        "8"@
    } else {
        "9"@
    }
}

/// `x` written in decimal, without leading zeros
pub open spec fn decimal(x: nat) -> Seq<char>
    decreases x,
{
    if x < 10 {
        digit_text(x)
    } else {
        decimal(x / 10) + digit_text(x % 10)
    }
}

/// the numeric value of the decimal digit character `c`
pub open spec fn digit_value(c: char) -> int {
    c as int - '0' as int
}

/// whether `c` is one of the characters `0` to `9`
pub open spec fn is_digit(c: char) -> bool {
    '0' <= c && c <= '9'
}

/// the number that the digit string `s` denotes, read in base 10 (most significant first)
pub open spec fn numeral_value(s: Seq<char>) -> int
    decreases s.len(),
{
    if s.len() == 0 {
        0
    } else {
        numeral_value(s.drop_last()) * 10 + digit_value(s.last())
    }
}

/// the text of the digit `d` is the single character `'0' + d`
proof fn lemma_digit_text(d: nat)
    requires
        d < 10,
    ensures
        digit_text(d).len() == 1,
        is_digit(digit_text(d)[0]),
        digit_value(digit_text(d)[0]) == d,
{
    reveal_strlit("0");
    reveal_strlit("1");
    reveal_strlit("2");
    reveal_strlit("3");
    reveal_strlit("4");
    reveal_strlit("5");
    reveal_strlit("6");
    reveal_strlit("7");
    reveal_strlit("8");
    reveal_strlit("9");
}

/// `decimal(x)` is the standard base-10 numeral of `x`: a nonempty string of digits
/// without a leading zero (unless `x` is 0) that, read in base 10, denotes `x`
pub proof fn lemma_decimal_is_numeral(x: nat)
    ensures
        decimal(x).len() >= 1,
        forall|i: int| 0 <= i < decimal(x).len() ==> is_digit(#[trigger] decimal(x)[i]),
        numeral_value(decimal(x)) == x,
        x > 0 ==> decimal(x)[0] != '0',
    decreases x,
{
    if x < 10 {
        lemma_digit_text(x);
        let s = decimal(x);
        assert(s.drop_last() =~= Seq::<char>::empty());
        assert(numeral_value(s.drop_last()) == 0);
    } else {
        lemma_decimal_is_numeral(x / 10);
        lemma_digit_text(x % 10);
        let hi = decimal(x / 10);
        let lo = digit_text(x % 10);
        let s = decimal(x);
        assert(s == hi + lo);
        assert(s.drop_last() =~= hi);
        assert(s.last() == lo[0]);
        assert(numeral_value(s) == numeral_value(hi) * 10 + digit_value(lo[0]));
        assert((x / 10) * 10 + x % 10 == x);
        assert forall|i: int| 0 <= i < s.len() implies is_digit(#[trigger] s[i]) by {
            if i < hi.len() {
                assert(s[i] == hi[i]);
            } else {
                assert(s[i] == lo[i - hi.len()]);
            }
        }
        assert(s[0] == hi[0]);
    }
}

/// distinct numbers have distinct decimal texts
pub proof fn lemma_decimal_injective(x: nat, y: nat)
    requires
        decimal(x) == decimal(y),
    ensures
        x == y,
{
    lemma_decimal_is_numeral(x);
    lemma_decimal_is_numeral(y);
}

/// the first `k` vertices, each in decimal followed by a blank
pub open spec fn vertex_list(k: nat) -> Seq<char>
    decreases k,
{
    if k == 0 {
        Seq::empty()
    } else {
        vertex_list((k - 1) as nat) + decimal((k - 1) as nat) + " "@
    }
}

/// the label lines of the first `k` vertices: `"i" [label="..."];`
pub open spec fn label_lines(labels: Seq<Seq<char>>, k: nat) -> Seq<char>
    decreases k,
{
    if k == 0 {
        Seq::empty()
    } else {
        label_lines(labels, (k - 1) as nat) + "\t\""@ + decimal((k - 1) as nat) + "\" [label=\""@
            + labels[k - 1] + "\"];\n"@
    }
}

/// the lines of the first `k` edges: `i -- j`
pub open spec fn edge_lines(edges: Seq<(usize, usize)>, k: nat) -> Seq<char>
    decreases k,
{
    if k == 0 {
        Seq::empty()
    } else {
        edge_lines(edges, (k - 1) as nat) + "\t"@ + decimal(edges[k - 1].0 as nat) + " -- "@ + decimal(
            edges[k - 1].1 as nat,
        ) + "\n"@
    }
}

/// the dot text of the graph with adjacency lists `adj`, the options `options` and the
/// vertex labels `labels`
pub open spec fn dot_spec(adj: Seq<Seq<usize>>, options: Seq<char>, labels: Seq<Seq<char>>) -> Seq<char> {
    let n = adj.len();
    let edges = upper_pairs(adj, n as int);
    "graph G{\n\t"@ + options + "\n\t"@ + vertex_list(n) + ";\n"@ + label_lines(labels, n) + edge_lines(
        edges,
        edges.len(),
    ) + "}"@
}

/// the dot text of the topology alone: the vertices and the edges
pub open spec fn topology_dot_spec(adj: Seq<Seq<usize>>) -> Seq<char> {
    let n = adj.len();
    let edges = upper_pairs(adj, n as int);
    "graph{\n\t"@ + vertex_list(n) + "\n"@ + edge_lines(edges, edges.len()) + "}"@
}

/// appends the decimal digit `d`
fn push_digit(s: &mut String, d: usize)
    requires
        d < 10,
    ensures
        final(s)@ == old(s)@ + digit_text(d as nat),
{
    if d == 0 {
        s.append("0");
    } else if d == 1 {
        s.append("1");
    } else if d == 2 {
        s.append("2");
    } else if d == 3 {
        s.append("3");
    } else if d == 4 {
        s.append("4");
    } else if d == 5 {
        s.append("5");
    } else if d == 6 {
        s.append("6");
    } else if d == 7 {
        s.append("7");
    } else if d == 8 {
        s.append("8");
    } else {
        s.append("9");
    }
}

/// appends `x` in decimal
pub fn push_decimal(s: &mut String, x: usize)
    ensures
        final(s)@ == old(s)@ + decimal(x as nat),
    decreases x,
{
    if x < 10 {
        push_digit(s, x);
    } else {
        let ghost s0 = s@;
        push_decimal(s, x / 10);
        push_digit(s, x % 10);
        proof {
            assert(s@ =~= s0 + decimal(x as nat));
        }
    }
}

/// appends the vertex list of the first `n` vertices
fn push_vertex_list(s: &mut String, n: usize)
    ensures
        final(s)@ == old(s)@ + vertex_list(n as nat),
{
    let ghost s0 = s@;
    let mut i: usize = 0;
    proof {
        assert(s@ =~= s0 + vertex_list(0));
    }
    while i < n
        invariant
            i <= n,
            s@ == s0 + vertex_list(i as nat),
        decreases n - i,
    {
        push_decimal(s, i);
        s.append(" ");
        proof {
            assert(s@ =~= s0 + vertex_list((i + 1) as nat));
        }
        i = i + 1;
    }
}

/// appends the lines of the given edges
fn push_edge_lines(s: &mut String, edges: &Vec<(usize, usize)>)
    ensures
        final(s)@ == old(s)@ + edge_lines(edges@, edges@.len()),
{
    let ghost s0 = s@;
    let mut k: usize = 0;
    proof {
        assert(s@ =~= s0 + edge_lines(edges@, 0));
    }
    while k < edges.len()
        invariant
            k <= edges@.len(),
            s@ == s0 + edge_lines(edges@, k as nat),
        decreases edges@.len() - k,
    {
        let (a, b) = edges[k];
        s.append("\t");
        push_decimal(s, a);
        s.append(" -- ");
        push_decimal(s, b);
        s.append("\n");
        proof {
            assert(s@ =~= s0 + edge_lines(edges@, (k + 1) as nat));
        }
        k = k + 1;
    }
}

/// # The dot text of a graph
/// the header with `dot_options`, the vertices, the label `labels[i]` of each vertex `i`,
/// and the edges in the order of `edge_list`
pub fn dot_text<T, A: AdjContainer<T>>(g: &GenericGraph<T, A>, dot_options: &str, labels: &Vec<String>) -> (r: String)
    requires
        g.wf(),
        labels@.len() == g.spec_vertex_count(),
    ensures
        r@ == dot_spec(g.spec_adj(), dot_options@, labels@.map_values(|l: String| l@)),
{
    let ghost lv = labels@.map_values(|l: String| l@);
    let n = g.vertex_count();
    let mut s = String::new();
    s.append("graph G{\n\t");
    s.append(dot_options);
    s.append("\n\t");
    push_vertex_list(&mut s, n);
    s.append(";\n");
    let ghost s0 = s@;
    let mut i: usize = 0;
    proof {
        assert(s@ =~= s0 + label_lines(lv, 0));
    }
    while i < n
        invariant
            i <= n,
            n == labels@.len(),
            lv == labels@.map_values(|l: String| l@),
            s@ == s0 + label_lines(lv, i as nat),
        decreases n - i,
    {
        s.append("\t\"");
        push_decimal(&mut s, i);
        s.append("\" [label=\"");
        s.append(labels[i].as_str());
        s.append("\"];\n");
        proof {
            assert(lv[i as int] == labels@[i as int]@);
            assert(s@ =~= s0 + label_lines(lv, (i + 1) as nat));
        }
        i = i + 1;
    }
    let edges = g.edge_list();
    push_edge_lines(&mut s, &edges);
    s.append("}");
    proof {
        assert(s@ =~= dot_spec(g.spec_adj(), dot_options@, lv));
    }
    s
}

/// # The dot text of the topology
/// the vertices, then the edges in the order of `edge_list`, each vertex labeled by its
/// index
pub fn topology_dot_text<T, A: AdjContainer<T>>(g: &GenericGraph<T, A>) -> (r: String)
    requires
        g.wf(),
    ensures
        r@ == topology_dot_spec(g.spec_adj()),
{
    let n = g.vertex_count();
    let mut s = String::new();
    s.append("graph{\n\t");
    push_vertex_list(&mut s, n);
    s.append("\n");
    let edges = g.edge_list();
    push_edge_lines(&mut s, &edges);
    s.append("}");
    proof {
        assert(s@ =~= topology_dot_spec(g.spec_adj()));
    }
    s
}

} // verus!
