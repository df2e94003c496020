//! # Small-world ensemble
//! The states that the steps of the small-world ensemble report.
use vstd::prelude::*;
use crate::traits::GraphErrors;

verus! {

/// # Returned by markov steps
/// * information about the performed step and possible errors
#[derive(Debug, Clone, Copy, PartialEq, Eq, Structural)]
pub enum SwChangeState {
    /// ERROR adjacency list invalid?
    InvalidAdjecency,
    /// Can not add edge twice
    BlockedByExistingEdge,
    /// Nothing happened
    Nothing,
    /// old edge: (Rewire.0, Rewire.1), new edge (Rewire.0, Rewire.2)
    Rewire(usize, usize, usize),
    /// old edge: (Reset.0, Reset.1), new edge (Reset.0, Reset.2)
    Reset(usize, usize, usize),
    /// A GraphError occurred
    GError(GraphErrors),
}

impl SwChangeState {
    /// checks if self is `Nothing` variant
    pub fn is_nothing(&self) -> (r: bool)
        ensures
            r == (*self is Nothing),
    {
        match self {
            SwChangeState::Nothing => true,
            _ => false,
        }
    }

    /// checks if self is `Nothing` or `BlockedByExistingEdge`
    pub fn is_nothing_or_blocked(&self) -> (r: bool)
        ensures
            r == (*self is Nothing || *self is BlockedByExistingEdge),
    {
        match self {
            SwChangeState::Nothing | SwChangeState::BlockedByExistingEdge => true,
            _ => false,
        }
    }

    /// result is equal to `!self.is_nothing_or_blocked()`
    pub fn not_nothing_or_blocked(&self) -> (r: bool)
        ensures
            r == !(*self is Nothing || *self is BlockedByExistingEdge),
    {
        match self {
            SwChangeState::Nothing | SwChangeState::BlockedByExistingEdge => false,
            _ => true,
        }
    }

    /// # valid states:
    /// * `SwChangeState::Rewire(..)`
    /// * `SwChangeState::Reset(..)`
    /// * `SwChangeState::Nothing`
    /// * `SwChangeState::BlockedByExistingEdge`
    /// # invalid states:
    /// * `SwChangeState::InvalidAdjecency`
    /// * `SwChangeState::GError(..)`
    pub fn is_valid(&self) -> (r: bool)
        ensures
            r == !(*self is InvalidAdjecency || *self is GError),
    {
        match self {
            SwChangeState::Rewire(..) | SwChangeState::Reset(..) | SwChangeState::Nothing
            | SwChangeState::BlockedByExistingEdge => true,
            SwChangeState::InvalidAdjecency | SwChangeState::GError(..) => false,
        }
    }
}

impl GraphErrors {
    /// wraps the error into the state of a small-world step
    pub(crate) fn convert_to_sw_state(self) -> (r: SwChangeState)
        ensures
            r == SwChangeState::GError(self),
    {
        SwChangeState::GError(self)
    }
}

/// the smaller of the component ids of the ring neighbors `k` and `k + 1` (the last
/// vertex is followed by the first)
pub open spec fn pair_min(ids: Seq<isize>, k: int) -> isize {
    let a = ids[k];
    let b = ids[(k + 1) % (ids.len() as int)];
    if a < b {
        a
    } else {
        b
    }
}

/// the ring neighbors `k` and `k + 1` lie in different components
pub open spec fn split_pair(ids: Seq<isize>, k: int) -> bool {
    ids[k] != ids[(k + 1) % (ids.len() as int)]
}

/// Among the first `k` ring pairs, those in different components whose smaller
/// component id no pair before them had: at most one pair per component id
pub open spec fn ring_joins(ids: Seq<isize>, k: nat) -> Seq<usize>
    decreases k,
{
    if k == 0 {
        Seq::empty()
    } else {
        let p = ring_joins(ids, (k - 1) as nat);
        let i = k - 1;
        if split_pair(ids, i) && !p.map_values(|q: usize| pair_min(ids, q as int)).contains(pair_min(ids, i)) {
            p.push(i as usize)
        } else {
            p
        }
    }
}

/// a list with `x` pushed holds `y` when it held `y` before or `y` is `x`
proof fn lemma_push_holds(s: Seq<isize>, x: isize, y: isize)
    ensures
        s.push(x).contains(y) <==> (s.contains(y) || y == x),
{
    if s.push(x).contains(y) && y != x {
        let k = choose|k: int| 0 <= k < s.push(x).len() && s.push(x)[k] == y;
        assert(s[k] == y);
    }
    if s.contains(y) {
        let k = choose|k: int| 0 <= k < s.len() && s[k] == y;
        assert(s.push(x)[k] == y);
    }
    if y == x {
        assert(s.push(x)[s.len() as int] == y);
    }
}

/// # Ring pairs to join
/// * `ids`: the connected component id of each vertex of a small-world graph, below `num`
/// * the vertices `index` whose root edge back to their ring neighbor `index + 1` is to be
/// reset to connect the graph: the first ring pair, in the order of the vertices, for
/// each smaller component id of pairs that lie in different components
pub fn ring_pairs_to_join(ids: &Vec<isize>, num: usize) -> (r: Vec<usize>)
    requires
        forall|v: int| 0 <= v < ids@.len() ==> 0 <= #[trigger] ids@[v] < num,
        num <= isize::MAX,
    ensures
        r@ == ring_joins(ids@, ids@.len()),
{
    let n = ids.len();
    let mut used: Vec<bool> = vec![false; num];
    let mut r: Vec<usize> = Vec::new();
    let mut index: usize = 0;
    while index < n
        invariant
            n == ids@.len(),
            forall|v: int| 0 <= v < ids@.len() ==> 0 <= #[trigger] ids@[v] < num,
            num <= isize::MAX,
            index <= n,
            used@.len() == num,
            r@ == ring_joins(ids@, index as nat),
            forall|c: int|
                0 <= c < num ==> (#[trigger] used@[c] <==> r@.map_values(|q: usize| pair_min(ids@, q as int)).contains(
                    c as isize,
                )),
        decreases n - index,
    {
        let next = if index + 1 == n {
            0
        } else {
            index + 1
        };
        proof {
            if index + 1 == n {
                assert((n as int) % (n as int) == 0) by (nonlinear_arith)
                    requires
                        n > 0,
                ;
            } else {
                assert((index as int + 1) % (n as int) == index as int + 1) by (nonlinear_arith)
                    requires
                        0 <= index + 1 < n,
                ;
            }
        }
        let a = ids[index];
        let b = ids[next];
        let min = if a < b {
            a
        } else {
            b
        };
        let ghost m0 = r@.map_values(|q: usize| pair_min(ids@, q as int));
        if a != b && !used[min as usize] {
            used.set(min as usize, true);
            r.push(index);
            proof {
                assert(r@.map_values(|q: usize| pair_min(ids@, q as int)) =~= m0.push(min));
                assert forall|c: int| 0 <= c < num implies (#[trigger] used@[c] <==> r@.map_values(
                    |q: usize| pair_min(ids@, q as int),
                ).contains(c as isize)) by {
                    lemma_push_holds(m0, min, c as isize);
                }
            }
        }
        index = index + 1;
    }
    r
}

} // verus!
