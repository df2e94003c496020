//! Small verified helpers on vectors that the graph types share.
use vstd::prelude::*;
use vstd::seq_lib::to_multiset_update;

verus! {

broadcast use vstd::multiset::group_multiset_axioms;

/// `s` is sorted in non-decreasing order
pub open spec fn sorted_up(s: Seq<usize>) -> bool {
    forall|a: int, b: int| 0 <= a < b < s.len() ==> s[a] <= s[b]
}

/// `s` is sorted in non-increasing order
pub open spec fn sorted_down(s: Seq<usize>) -> bool {
    forall|a: int, b: int| 0 <= a < b < s.len() ==> s[a] >= s[b]
}

/// Swapping two entries does not change which values a sequence holds
pub proof fn lemma_swap_multiset<A>(s: Seq<A>, i: int, j: int)
    requires
        0 <= i < s.len(),
        0 <= j < s.len(),
    ensures
        s.update(i, s[j]).update(j, s[i]).to_multiset() == s.to_multiset(),
{
    to_multiset_update(s, i, s[j]);
    to_multiset_update(s.update(i, s[j]), j, s[i]);
    if i == j {
        assert(s.update(i, s[j]) =~= s);
        assert(s.update(i, s[j]).update(j, s[i]) =~= s);
    } else {
        assert(s.update(i, s[j])[j] == s[j]);
        s.to_multiset_ensures();
        assert(s.contains(s[i]));
        assert(s.contains(s[j]));
        let m = s.to_multiset();
        let m2 = m.insert(s[j]).remove(s[i]).insert(s[i]).remove(s[j]);
        assert(m2 =~= m);
    }
}

/// sorts `v` in non-decreasing order (insertion sort)
pub fn sort_usizes(v: &mut Vec<usize>)
    ensures
        final(v)@.to_multiset() == old(v)@.to_multiset(),
        sorted_up(final(v)@),
{
    let n = v.len();
    let mut i: usize = 1;
    if n == 0 {
        return ;
    }
    while i < n
        invariant
            n == v@.len(),
            1 <= i <= n,
            v@.to_multiset() == old(v)@.to_multiset(),
            forall|a: int, b: int| 0 <= a < b < i ==> v@[a] <= v@[b],
        decreases n - i,
    {
        let mut j: usize = i;
        while j > 0 && v[j - 1] > v[j]
            invariant
                n == v@.len(),
                1 <= i < n,
                j <= i,
                v@.to_multiset() == old(v)@.to_multiset(),
                forall|a: int, b: int| 0 <= a < b <= i && b != j ==> v@[a] <= v@[b],
                forall|a: int, b: int| 0 <= a < j && j < b <= i ==> v@[a] <= v@[b],
            decreases j,
        {
            let x = v[j - 1];
            let y = v[j];
            proof {
                lemma_swap_multiset(v@, j - 1, j as int);
            }
            v.set(j - 1, y);
            v.set(j, x);
            j = j - 1;
        }
        i = i + 1;
    }
}

/// sorts `v` in non-increasing order (insertion sort)
pub fn sort_usizes_down(v: &mut Vec<usize>)
    ensures
        final(v)@.to_multiset() == old(v)@.to_multiset(),
        sorted_down(final(v)@),
{
    let n = v.len();
    let mut i: usize = 1;
    if n == 0 {
        return ;
    }
    while i < n
        invariant
            n == v@.len(),
            1 <= i <= n,
            v@.to_multiset() == old(v)@.to_multiset(),
            forall|a: int, b: int| 0 <= a < b < i ==> v@[a] >= v@[b],
        decreases n - i,
    {
        let mut j: usize = i;
        while j > 0 && v[j - 1] < v[j]
            invariant
                n == v@.len(),
                1 <= i < n,
                j <= i,
                v@.to_multiset() == old(v)@.to_multiset(),
                forall|a: int, b: int| 0 <= a < b <= i && b != j ==> v@[a] >= v@[b],
                forall|a: int, b: int| 0 <= a < j && j < b <= i ==> v@[a] >= v@[b],
            decreases j,
        {
            let x = v[j - 1];
            let y = v[j];
            proof {
                lemma_swap_multiset(v@, j - 1, j as int);
            }
            v.set(j - 1, y);
            v.set(j, x);
            j = j - 1;
        }
        i = i + 1;
    }
}

/// the position of `x` in `s`, searched from the front
pub fn position_of(s: &Vec<usize>, x: usize) -> (r: Option<usize>)
    ensures
        r is None <==> !s@.contains(x),
        r matches Some(p) ==> p < s@.len() && s@[p as int] == x && forall|q: int|
            0 <= q < p ==> s@[q] != x,
{
    let n = s.len();
    let mut k: usize = 0;
    while k < n
        invariant
            n == s@.len(),
            k <= n,
            forall|q: int| 0 <= q < k ==> s@[q] != x,
        decreases n - k,
    {
        if s[k] == x {
            return Some(k);
        }
        k = k + 1;
    }
    None
}

/// the sequence that `Vec::swap_remove(j)` leaves behind
pub open spec fn taken<A>(s: Seq<A>, j: int) -> Seq<A> {
    s.update(j, s.last()).drop_last()
}

/// the sequence after putting `a` back at `j`, the inverse of `taken`
pub open spec fn put_back<A>(s: Seq<A>, j: int, a: A) -> Seq<A> {
    if j == s.len() {
        s.push(a)
    } else {
        s.update(j, a).push(s[j])
    }
}

/// putting a value back where one was taken out replaces the entry there
pub proof fn lemma_take_put<A>(s: Seq<A>, j: int, a: A)
    requires
        0 <= j < s.len(),
    ensures
        put_back(taken(s, j), j, a) == s.update(j, a),
        taken(s, j).len() == s.len() - 1,
{
    let t = taken(s, j);
    if j == s.len() - 1 {
        assert(put_back(t, j, a) =~= s.update(j, a));
    } else {
        assert(put_back(t, j, a) =~= s.update(j, a));
    }
}

/// moves the entry at `j` out of `v` (as `Vec::swap_remove`)
pub fn take_at<A>(v: &mut Vec<A>, j: usize) -> (r: A)
    requires
        j < old(v)@.len(),
    ensures
        r == old(v)@[j as int],
        final(v)@ == taken(old(v)@, j as int),
{
    v.swap_remove(j)
}

/// puts `a` back at `j`, undoing `take_at`
pub fn put_at<A>(v: &mut Vec<A>, j: usize, a: A)
    requires
        j <= old(v)@.len(),
    ensures
        final(v)@ == put_back(old(v)@, j as int, a),
{
    if j == v.len() {
        v.push(a);
    } else {
        let mut l = a;
        std::mem::swap(&mut v[j], &mut l);
        v.push(l);
    }
}

} // verus!

verus! {

/// the vertices `0..n`
pub open spec fn below(n: nat) -> Set<usize> {
    Set::new(|v: usize| v < n)
}

/// there are `n` values below `n`
pub proof fn lemma_below_card(n: nat)
    requires
        n <= usize::MAX + 1,
    ensures
        below(n).finite(),
        below(n).len() == n,
    decreases n,
{
    broadcast use vstd::set::group_set_axioms;

    if n == 0 {
        assert(below(0) =~= Set::<usize>::empty());
    } else {
        lemma_below_card((n - 1) as nat);
        assert(below(n) =~= below((n - 1) as nat).insert((n - 1) as usize));
    }
}

/// A list of distinct values below `n` has at most `n` entries, and exactly `n`
/// when it holds every value below `n`.
pub proof fn lemma_cover(s: Seq<usize>, n: nat)
    requires
        s.no_duplicates(),
        forall|k: int| 0 <= k < s.len() ==> #[trigger] s[k] < n,
        n <= usize::MAX + 1,
    ensures
        s.len() <= n,
        s.len() == n <==> forall|v: usize| v < n ==> s.contains(v),
{
    broadcast use vstd::set::group_set_axioms;

    lemma_below_card(n);
    s.unique_seq_to_set();
    let st = s.to_set();
    assert(st.subset_of(below(n))) by {
        assert forall|v: usize| st.contains(v) implies below(n).contains(v) by {
            let k = choose|k: int| 0 <= k < s.len() && s[k] == v;
        }
    }
    vstd::set_lib::lemma_len_subset(st, below(n));
    if forall|v: usize| v < n ==> s.contains(v) {
        assert(st =~= below(n));
    }
    if exists|v: usize| v < n && !s.contains(v) {
        let v = choose|v: usize| v < n && !s.contains(v);
        assert(st.subset_of(below(n).remove(v)));
        vstd::set_lib::lemma_len_subset(st, below(n).remove(v));
    }
}

} // verus!

verus! {

/// the three positions in ascending order
pub open spec fn sort3(i: int, j: int, k: int) -> (int, int, int) {
    if i < j {
        if j < k {
            (i, j, k)
        } else if i < k {
            (i, k, j)
        } else {
            (k, i, j)
        }
    } else {
        if i < k {
            (j, i, k)
        } else if j < k {
            (j, k, i)
        } else {
            (k, j, i)
        }
    }
}

/// the sequence after three entries were taken out, the highest position first
pub open spec fn taken3<A>(s: Seq<A>, i: int, j: int, k: int) -> Seq<A> {
    let (lo, mid, hi) = sort3(i, j, k);
    taken(taken(taken(s, hi), mid), lo)
}

/// putting three taken entries back, the lowest position first, only replaces them
proof fn lemma_take_three<A>(s: Seq<A>, lo: int, mid: int, hi: int, a: A, b: A, c: A)
    requires
        0 <= lo < mid < hi < s.len(),
    ensures
        put_back(put_back(put_back(taken(taken(taken(s, hi), mid), lo), lo, a), mid, b), hi, c)
            == s.update(lo, a).update(mid, b).update(hi, c),
        taken(taken(taken(s, hi), mid), lo).len() == s.len() - 3,
        taken(s, hi)[mid] == s[mid],
        taken(taken(s, hi), mid)[lo] == s[lo],
{
    let t1 = taken(s, hi);
    lemma_take_put(s, hi, c);
    lemma_take_put(t1, mid, b);
    let t2 = taken(t1, mid);
    lemma_take_put(t2, lo, a);
    assert(taken(t1.update(lo, a), mid) =~= t2.update(lo, a));
    lemma_take_put(t1.update(lo, a), mid, b);
    let s2 = s.update(lo, a).update(mid, b);
    assert(taken(s2, hi) =~= t1.update(lo, a).update(mid, b));
    lemma_take_put(s2, hi, c);
}

/// moves the entries at three distinct positions out of `v`
pub fn take3<A>(v: &mut Vec<A>, i: usize, j: usize, k: usize) -> (r: (A, A, A))
    requires
        i < old(v)@.len(),
        j < old(v)@.len(),
        k < old(v)@.len(),
        i != j,
        j != k,
        i != k,
    ensures
        r.0 == old(v)@[i as int],
        r.1 == old(v)@[j as int],
        r.2 == old(v)@[k as int],
        final(v)@ == taken3(old(v)@, i as int, j as int, k as int),
{
    let ghost s = v@;
    let ghost (lo, mid, hi) = sort3(i as int, j as int, k as int);
    proof {
        lemma_take_three(s, lo, mid, hi, s[lo], s[mid], s[hi]);
    }
    if i < j {
        if j < k {
            let c = take_at(v, k);
            let b = take_at(v, j);
            let a = take_at(v, i);
            (a, b, c)
        } else if i < k {
            let b = take_at(v, j);
            let c = take_at(v, k);
            let a = take_at(v, i);
            (a, b, c)
        } else {
            let b = take_at(v, j);
            let a = take_at(v, i);
            let c = take_at(v, k);
            (a, b, c)
        }
    } else {
        if i < k {
            let c = take_at(v, k);
            let a = take_at(v, i);
            let b = take_at(v, j);
            (a, b, c)
        } else if j < k {
            let a = take_at(v, i);
            let c = take_at(v, k);
            let b = take_at(v, j);
            (a, b, c)
        } else {
            let a = take_at(v, i);
            let b = take_at(v, j);
            let c = take_at(v, k);
            (a, b, c)
        }
    }
}

/// puts the three entries back, undoing `take3`
pub fn put3<A>(v: &mut Vec<A>, Ghost(s): Ghost<Seq<A>>, i: usize, j: usize, k: usize, a: A, b: A, c: A)
    requires
        i < s.len(),
        j < s.len(),
        k < s.len(),
        i != j,
        j != k,
        i != k,
        old(v)@ == taken3(s, i as int, j as int, k as int),
    ensures
        final(v)@ == s.update(i as int, a).update(j as int, b).update(k as int, c),
{
    let ghost (lo, mid, hi) = sort3(i as int, j as int, k as int);
    if i < j {
        if j < k {
            proof { lemma_take_three(s, lo, mid, hi, a, b, c); }
            put_at(v, i, a);
            put_at(v, j, b);
            put_at(v, k, c);
        } else if i < k {
            proof { lemma_take_three(s, lo, mid, hi, a, c, b); }
            put_at(v, i, a);
            put_at(v, k, c);
            put_at(v, j, b);
            assert(v@ =~= s.update(i as int, a).update(j as int, b).update(k as int, c));
        } else {
            proof { lemma_take_three(s, lo, mid, hi, c, a, b); }
            put_at(v, k, c);
            put_at(v, i, a);
            put_at(v, j, b);
            assert(v@ =~= s.update(i as int, a).update(j as int, b).update(k as int, c));
        }
    } else {
        if i < k {
            proof { lemma_take_three(s, lo, mid, hi, b, a, c); }
            put_at(v, j, b);
            put_at(v, i, a);
            put_at(v, k, c);
            assert(v@ =~= s.update(i as int, a).update(j as int, b).update(k as int, c));
        } else if j < k {
            proof { lemma_take_three(s, lo, mid, hi, b, c, a); }
            put_at(v, j, b);
            put_at(v, k, c);
            put_at(v, i, a);
            assert(v@ =~= s.update(i as int, a).update(j as int, b).update(k as int, c));
        } else {
            proof { lemma_take_three(s, lo, mid, hi, c, b, a); }
            put_at(v, k, c);
            put_at(v, j, b);
            put_at(v, i, a);
            assert(v@ =~= s.update(i as int, a).update(j as int, b).update(k as int, c));
        }
    }
}

/// A list of distinct values that holds every value below `n` has at least `n` entries
pub proof fn lemma_holds_all_below(s: Seq<usize>, n: nat)
    requires
        s.no_duplicates(),
        forall|v: usize| v < n ==> s.contains(v),
        n <= usize::MAX + 1,
    ensures
        s.len() >= n,
{
    lemma_below_card(n);
    s.unique_seq_to_set();
    vstd::seq_lib::seq_to_set_is_finite(s);
    assert(below(n).subset_of(s.to_set()));
    vstd::set_lib::lemma_len_subset(below(n), s.to_set());
}

/// the sum of the first `k` entries
pub open spec fn seq_sum_upto(s: Seq<usize>, k: int) -> nat
    decreases k,
{
    if k <= 0 {
        0
    } else {
        seq_sum_upto(s, k - 1) + s[k - 1] as nat
    }
}

/// the sum of all entries
pub open spec fn seq_sum(s: Seq<usize>) -> nat {
    seq_sum_upto(s, s.len() as int)
}

/// Changing one entry changes the sum by the difference
pub proof fn lemma_seq_sum_update(s: Seq<usize>, i: int, x: usize, k: int)
    requires
        0 <= i < s.len(),
        0 <= k <= s.len(),
    ensures
        seq_sum_upto(s.update(i, x), k) == if i < k {
            seq_sum_upto(s, k) - s[i] + x
        } else {
            seq_sum_upto(s, k) as int
        },
    decreases k,
{
    if k > 0 {
        lemma_seq_sum_update(s, i, x, k - 1);
    }
}

/// A sum is at least each of its entries
pub proof fn lemma_seq_sum_ge(s: Seq<usize>, i: int, k: int)
    requires
        0 <= i < k <= s.len(),
    ensures
        seq_sum_upto(s, k) >= s[i],
    decreases k,
{
    if i < k - 1 {
        lemma_seq_sum_ge(s, i, k - 1);
    }
}

} // verus!
