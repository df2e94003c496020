//! Histograms of `usize` values: counting values into bins given by their borders.
use vstd::prelude::*;
use crate::traits::AdjContainer;
use crate::generic_graph::GenericGraph;

verus! {

/// Possible Errors of the traits `Histogram` and `HistogramVal`
#[derive(Debug, Clone, Copy, PartialEq, Eq, Structural)]
pub enum HistErrors {
    /// A histogram without any bins does not make sense!
    NoBins,
    /// Nothing can hit the bin! (left >= right?)
    IntervalWidthZero,
    /// Invalid value
    OutsideHist,
}

/// # Use this has a histogram
/// * anything that implements `Histogram` should also implement the trait `HistogramVal`
pub trait Histogram: Sized {
    /// the count of each bin
    spec fn spec_hist(&self) -> Seq<usize>;

    /// # `self.hist[index] += 1`, `Err()` if `index` out of bounds
    fn count_index(&mut self, index: usize) -> (r: Result<usize, HistErrors>)
        requires
            index < old(self).spec_hist().len() ==> old(self).spec_hist()[index as int] < usize::MAX,
        ensures
            index < old(self).spec_hist().len() ==> {
                &&& r == Ok::<usize, HistErrors>(index)
                &&& final(self).spec_hist() == old(self).spec_hist().update(
                    index as int,
                    (old(self).spec_hist()[index as int] + 1) as usize,
                )
            },
            index >= old(self).spec_hist().len() ==> {
                &&& r == Err::<usize, HistErrors>(HistErrors::OutsideHist)
                &&& final(self).spec_hist() == old(self).spec_hist()
            },
    ;

    /// # the created histogram
    fn hist(&self) -> (r: &Vec<usize>)
        ensures
            r@ == self.spec_hist(),
    ;

    /// # How many bins the histogram contains
    fn bin_count(&self) -> (r: usize)
        ensures
            r == self.spec_hist().len(),
    {
        self.hist().len()
    }

    /// reset the histogram to zero
    fn reset(&mut self)
        ensures
            final(self).spec_hist().len() == old(self).spec_hist().len(),
            forall|i: int| 0 <= i < final(self).spec_hist().len() ==> #[trigger] final(self).spec_hist()[i] == 0,
    ;

    /// check if any bin was not hit yet
    fn any_bin_zero(&self) -> (r: bool)
        ensures
            r <==> exists|i: int| 0 <= i < self.spec_hist().len() && #[trigger] self.spec_hist()[i] == 0,
    {
        let h = self.hist();
        let mut k: usize = 0;
        while k < h.len()
            invariant
                h@ == self.spec_hist(),
                k <= h@.len(),
                forall|i: int| 0 <= i < k ==> #[trigger] h@[i] != 0,
            decreases h@.len() - k,
        {
            if h[k] == 0 {
                assert(h@[k as int] == 0);
                return true;
            }
            k = k + 1;
        }
        false
    }
}

/// sets every entry of `hist` to zero
fn zero_all(hist: &mut Vec<usize>)
    ensures
        final(hist)@.len() == old(hist)@.len(),
        forall|i: int| 0 <= i < final(hist)@.len() ==> #[trigger] final(hist)@[i] == 0,
{
    let n = hist.len();
    let mut i: usize = 0;
    while i < n
        invariant
            n == hist@.len(),
            i <= n,
            forall|k: int| 0 <= k < i ==> #[trigger] hist@[k] == 0,
        decreases n - i,
    {
        hist.set(i, 0);
        i = i + 1;
    }
}

/// Generic Histogram struct
#[derive(Debug, Clone)]
pub struct HistogramGeneric<T> {
    bin_borders: Vec<T>,
    hist: Vec<usize>,
}

impl<T> HistogramGeneric<T> {
    /// the borders of the bins
    pub closed spec fn spec_borders(&self) -> Seq<T> {
        self.bin_borders@
    }

    /// similar to `self.borders_clone` but does not allocate memory
    pub fn borders(&self) -> (r: &Vec<T>)
        ensures
            r@ == self.spec_borders(),
    {
        &self.bin_borders
    }
}

impl<T> Histogram for HistogramGeneric<T> {
    closed spec fn spec_hist(&self) -> Seq<usize> {
        self.hist@
    }

    fn count_index(&mut self, index: usize) -> (r: Result<usize, HistErrors>) {
        if index < self.hist.len() {
            let c = self.hist[index];
            self.hist.set(index, c + 1);
            Ok(index)
        } else {
            Err(HistErrors::OutsideHist)
        }
    }

    fn hist(&self) -> (r: &Vec<usize>) {
        &self.hist
    }

    fn reset(&mut self) {
        zero_all(&mut self.hist);
    }
}

/// * trait used for mapping values of arbitrary type `T` to bins
/// * used to create a histogram
pub trait HistogramVal<T>: Histogram {
    /// the histogram's bins are in order
    spec fn val_wf(&self) -> bool;

    /// the left most border (inclusive)
    spec fn spec_left(&self) -> T;

    /// the right most border (exclusive)
    spec fn spec_right(&self) -> T;

    /// the value falls into a bin
    spec fn spec_inside(&self, val: T) -> bool;

    /// the bin a value inside falls into
    spec fn spec_bin(&self, val: T) -> int;

    /// convert val to the respective histogram index
    fn get_bin_index(&self, val: T) -> (r: Result<usize, HistErrors>)
        requires
            self.val_wf(),
        ensures
            self.spec_inside(val) ==> (r matches Ok(i) && i == self.spec_bin(val)) && 0 <= self.spec_bin(val)
                < self.spec_hist().len(),
            !self.spec_inside(val) ==> r == Err::<usize, HistErrors>(HistErrors::OutsideHist),
    ;

    /// count val. `Ok(index)`, if inside of hist, `Err(OutsideHist)` if val is invalid
    fn count_val(&mut self, val: T) -> (r: Result<usize, HistErrors>)
        requires
            old(self).val_wf(),
            old(self).spec_inside(val) ==> old(self).spec_hist()[old(self).spec_bin(val)] < usize::MAX,
        ensures
            old(self).spec_inside(val) ==> {
                &&& r matches Ok(i) && i == old(self).spec_bin(val)
                &&& final(self).spec_hist() == old(self).spec_hist().update(
                    old(self).spec_bin(val),
                    (old(self).spec_hist()[old(self).spec_bin(val)] + 1) as usize,
                )
            },
            !old(self).spec_inside(val) ==> {
                &&& r == Err::<usize, HistErrors>(HistErrors::OutsideHist)
                &&& final(self).spec_hist() == old(self).spec_hist()
            },
    {
        match self.get_bin_index(val) {
            Ok(id) => self.count_index(id),
            Err(e) => Err(e),
        }
    }

    /// does a value correspond to a valid bin?
    fn is_inside(&self, val: T) -> (r: bool)
        requires
            self.val_wf(),
        ensures
            r == self.spec_inside(val),
    ;

    /// opposite of `is_inside`
    fn not_inside(&self, val: T) -> (r: bool)
        requires
            self.val_wf(),
        ensures
            r == !self.spec_inside(val),
    ;

    /// get the left most border (inclusive)
    fn get_left(&self) -> (r: T)
        requires
            self.val_wf(),
        ensures
            r == self.spec_left(),
    ;

    /// get the right most border (exclusive)
    fn get_right(&self) -> (r: T)
        requires
            self.val_wf(),
        ensures
            r == self.spec_right(),
    ;
}

/// `b` ascends strictly
pub open spec fn strictly_up(b: Seq<usize>) -> bool {
    forall|i: int, j: int| 0 <= i < j < b.len() ==> b[i] < b[j]
}

/// the bin of `val` among the strictly ascending borders `b`
pub open spec fn bin_of(b: Seq<usize>, val: usize) -> int {
    choose|i: int| 0 <= i < b.len() - 1 && #[trigger] b[i] <= val < b[i + 1]
}

/// # Note: Consider using `HistogramFast` if possible, as it is faster.
/// * `HistogramFast`only works, if every number should correspond to a bin
pub type HistogramUsize = HistogramGeneric<usize>;

impl HistogramGeneric<usize> {
    /// there is one more border than bins, and the borders ascend strictly
    pub open spec fn borders_wf(&self) -> bool {
        &&& self.spec_borders().len() == self.spec_hist().len() + 1
        &&& self.spec_hist().len() >= 1
        &&& strictly_up(self.spec_borders())
    }

    /// right exclusive, left inclusive
    /// (b-a)/bins has to be integer, else `None`
    pub fn new(left: usize, right: usize, bins: usize) -> (r: Option<Self>)
        requires
            left < right,
            1 <= bins < usize::MAX,
        ensures
            r.is_some() <==> (right - left) % (bins as int) == 0,
            r matches Some(h) ==> {
                &&& h.borders_wf()
                &&& h.spec_hist() == Seq::new(bins as nat, |i: int| 0usize)
                &&& h.spec_borders() == Seq::new(
                    bins as nat + 1,
                    |i: int| (left + i * ((right - left) / (bins as int))) as usize,
                )
            },
    {
        let bin_size = (right - left) / bins;
        proof {
            assert(bins * bin_size <= right - left) by (nonlinear_arith)
                requires
                    bin_size == (right - left) / (bins as int),
                    bins >= 1,
                    right > left,
            ;
            assert((left + bins * bin_size == right) <==> (right - left) % (bins as int) == 0) by (nonlinear_arith)
                requires
                    bin_size == (right - left) / (bins as int),
                    bins >= 1,
                    right > left,
            ;
        }
        if left + bins * bin_size != right {
            None
        } else {
            proof {
                assert(bin_size >= 1) by (nonlinear_arith)
                    requires
                        left + bins * bin_size == right,
                        left < right,
                ;
            }
            let hist: Vec<usize> = vec![0; bins];
            let mut bin_borders: Vec<usize> = Vec::with_capacity(bins + 1);
            let mut val: usize = 0;
            while val <= bins
                invariant
                    val <= bins + 1,
                    bins * bin_size == right - left,
                    bin_size >= 1,
                    left < right,
                    bins < usize::MAX,
                    bin_borders@.len() == val,
                    forall|k: int| 0 <= k < val ==> #[trigger] bin_borders@[k] == left + k * bin_size,
                decreases bins + 1 - val,
            {
                proof {
                    assert(val * bin_size <= bins * bin_size) by (nonlinear_arith)
                        requires
                            val <= bins,
                    ;
                }
                bin_borders.push(left + val * bin_size);
                val = val + 1;
            }
            let h = HistogramGeneric { bin_borders, hist };
            proof {
                assert(h.spec_hist() =~= Seq::new(bins as nat, |i: int| 0usize));
                assert forall|i: int, j: int| 0 <= i < j < h.spec_borders().len() implies h.spec_borders()[i]
                    < h.spec_borders()[j] by {
                    assert(i * bin_size < j * bin_size) by (nonlinear_arith)
                        requires
                            i < j,
                            bin_size >= 1,
                    ;
                }
                assert(h.spec_borders() =~= Seq::new(
                    bins as nat + 1,
                    |i: int| (left + i * ((right - left) / (bins as int))) as usize,
                ));
            }
            Some(h)
        }
    }

    /// the index `i` of the bin with `b[i] <= val < b[i + 1]`, by binary search
    fn search_bin(&self, val: usize) -> (r: usize)
        requires
            self.borders_wf(),
            self.spec_borders()[0] <= val < self.spec_borders().last(),
        ensures
            r == bin_of(self.spec_borders(), val),
            r < self.spec_hist().len(),
    {
        let b = &self.bin_borders;
        let mut lo: usize = 0;
        let mut hi: usize = b.len() - 1;
        while hi - lo > 1
            invariant
                b@ == self.spec_borders(),
                lo < hi < b@.len(),
                b@[lo as int] <= val < b@[hi as int],
            decreases hi - lo,
        {
            let mid = lo + (hi - lo) / 2;
            if b[mid] <= val {
                lo = mid;
            } else {
                hi = mid;
            }
        }
        proof {
            let bs = self.spec_borders();
            assert(0 <= lo < bs.len() - 1 && bs[lo as int] <= val < bs[lo + 1]);
            let c = bin_of(bs, val);
            if c < lo {
                assert(bs[c + 1] <= bs[lo as int]);
            } else if c > lo {
                assert(bs[lo + 1] <= bs[c]);
            }
        }
        lo
    }
}

impl HistogramVal<usize> for HistogramGeneric<usize> {
    open spec fn val_wf(&self) -> bool {
        self.borders_wf()
    }

    open spec fn spec_left(&self) -> usize {
        self.spec_borders()[0]
    }

    open spec fn spec_right(&self) -> usize {
        self.spec_borders().last()
    }

    open spec fn spec_inside(&self, val: usize) -> bool {
        self.spec_left() <= val < self.spec_right()
    }

    open spec fn spec_bin(&self, val: usize) -> int {
        bin_of(self.spec_borders(), val)
    }

    /// `Err(OutsideHist)` if not inside the histogram's borders
    fn get_bin_index(&self, val: usize) -> (r: Result<usize, HistErrors>) {
        if self.not_inside(val) {
            return Err(HistErrors::OutsideHist);
        }
        Ok(self.search_bin(val))
    }

    fn is_inside(&self, val: usize) -> (r: bool) {
        val >= self.get_left() && val < self.get_right()
    }

    fn not_inside(&self, val: usize) -> (r: bool) {
        val < self.get_left() || val >= self.get_right()
    }

    fn get_left(&self) -> (r: usize) {
        self.bin_borders[0]
    }

    fn get_right(&self) -> (r: usize) {
        self.bin_borders[self.bin_borders.len() - 1]
    }
}

impl HistogramGeneric<usize> {
    /// # binning borders
    /// * any val which fullfills `self.border[i] <= val < self.border[i + 1]`
    /// will get index `i`.
    pub fn borders_clone(&self) -> (r: Vec<usize>)
        ensures
            r@ == self.spec_borders(),
    {
        let mut r: Vec<usize> = Vec::with_capacity(self.bin_borders.len());
        let mut k: usize = 0;
        while k < self.bin_borders.len()
            invariant
                k <= self.bin_borders@.len(),
                r@ == self.bin_borders@.take(k as int),
            decreases self.bin_borders@.len() - k,
        {
            r.push(self.bin_borders[k]);
            k = k + 1;
            assert(r@ =~= self.bin_borders@.take(k as int));
        }
        assert(r@ =~= self.bin_borders@);
        r
    }

    /// # distance of a value from the histogram
    /// * zero for a value inside the histogram
    /// * below the left border: the left border minus one; at or above the right border:
    /// how far it lies above the right border, plus one
    pub fn distance(&self, val: usize) -> (r: usize)
        requires
            self.borders_wf(),
        ensures
            self.spec_inside(val) ==> r == 0,
            val < self.spec_left() ==> r == self.spec_left() - 1,
            val >= self.spec_right() ==> r == val - self.spec_right() + 1,
    {
        if self.not_inside(val) {
            if val < self.get_left() {
                self.get_left() - 1
            } else {
                val - self.get_right() + 1
            }
        } else {
            0
        }
    }
}

/// Distance metric for how far a value is from a valid interval
pub trait HistogramIntervalDistance<T>: HistogramVal<T> {
    /// # Distance metric for how far a value is from a valid interval
    /// * partitions in more intervals, checks which bin interval a bin corresponds to
    /// and returns distance of said interval to the target interval
    /// * used for heuristiks
    /// * overlap has to be bigger 0
    fn interval_distance_overlap(&self, val: T, overlap: usize) -> (r: usize)
        requires
            self.val_wf(),
            overlap > 0,
        ensures
            r == 0 <==> self.spec_inside(val),
    ;
}

impl HistogramIntervalDistance<usize> for HistogramGeneric<usize> {
    fn interval_distance_overlap(&self, val: usize, overlap: usize) -> (r: usize)
        ensures
            !self.spec_inside(val) ==> r == 1 + (if val < self.spec_left() {
                self.spec_left() - val
            } else {
                val - self.spec_right()
            }) / (if self.spec_hist().len() as int / (overlap as int) > 1 {
                self.spec_hist().len() as int / (overlap as int)
            } else {
                1int
            }),
    {
        if self.not_inside(val) {
            let per = self.bin_count() / overlap;
            let num_bins_overlap = if per > 1 {
                per
            } else {
                1
            };
            let dist = if val < self.get_left() {
                self.get_left() - val
            } else {
                val - self.get_right()
            };
            proof {
                let bs = self.spec_borders();
                assert(bs[0] < bs[bs.len() - 1]);
                assert(dist < usize::MAX);
                assert(dist / num_bins_overlap <= dist) by (nonlinear_arith)
                    requires
                        num_bins_overlap >= 1,
                ;
            }
            1 + dist / num_bins_overlap
        } else {
            0
        }
    }
}

/// # Faster version of HistogramUsize
/// provided the bins should be: (left, left +1, ..., right - 1)
/// then you should use this version!
#[derive(Debug, Clone)]
pub struct HistogramFast {
    left: usize,
    right: usize,
    hist: Vec<usize>,
}

impl HistogramFast {
    /// # Create a new interval
    /// * Err if `left >= right`
    /// * left is inclusive, right is exclusive
    pub fn new(left: usize, right: usize) -> (r: Result<Self, HistErrors>)
        ensures
            left >= right ==> r == Err::<Self, HistErrors>(HistErrors::OutsideHist),
            left < right ==> (r matches Ok(h) && h.val_wf() && h.spec_left() == left && h.spec_right() == right
                && h.spec_hist() == Seq::new((right - left) as nat, |i: int| 0usize)),
    {
        if left >= right {
            Err(HistErrors::OutsideHist)
        } else {
            let width = right - left;
            let h = HistogramFast { left, right, hist: vec![0; width] };
            assert(h.spec_hist() =~= Seq::new((right - left) as nat, |i: int| 0usize));
            Ok(h)
        }
    }

    /// same as `self.new`but right is inclusive
    pub fn new_inclusive(left: usize, right: usize) -> (r: Result<Self, HistErrors>)
        requires
            right < usize::MAX,
        ensures
            left > right ==> r == Err::<Self, HistErrors>(HistErrors::OutsideHist),
            left <= right ==> (r matches Ok(h) && h.val_wf() && h.spec_left() == left && h.spec_right() == right
                + 1 && h.spec_hist() == Seq::new((right + 1 - left) as nat, |i: int| 0usize)),
    {
        Self::new(left, right + 1)
    }

    /// # binning borders: every value from `left` to `right`, both included
    pub fn borders(&self) -> (r: Vec<usize>)
        requires
            self.val_wf(),
        ensures
            r@ == Seq::new((self.spec_right() - self.spec_left() + 1) as nat, |i: int| (self.spec_left() + i) as usize),
    {
        let mut r: Vec<usize> = Vec::new();
        let mut v: usize = self.left;
        loop
            invariant_except_break
                self.left <= v <= self.right,
                r@ == Seq::new((v - self.left) as nat, |i: int| (self.left + i) as usize),
            ensures
                r@ == Seq::new((self.right - self.left + 1) as nat, |i: int| (self.left + i) as usize),
            decreases self.right - v,
        {
            r.push(v);
            if v == self.right {
                assert(r@ =~= Seq::new((self.right - self.left + 1) as nat, |i: int| (self.left + i) as usize));
                break;
            }
            v = v + 1;
            assert(r@ =~= Seq::new((v - self.left) as nat, |i: int| (self.left + i) as usize));
        }
        r
    }

    /// # distance of a value from the histogram
    /// * zero for a value inside the histogram
    /// * below the left border: the left border minus one; at or above the right border:
    /// how far it lies above the right border, plus one
    pub fn distance(&self, val: usize) -> (r: usize)
        requires
            self.val_wf(),
        ensures
            self.spec_inside(val) ==> r == 0,
            val < self.spec_left() ==> r == self.spec_left() - 1,
            val >= self.spec_right() ==> r == val - self.spec_right() + 1,
    {
        if self.not_inside(val) {
            if val < self.get_left() {
                self.get_left() - 1
            } else {
                val - self.get_right() + 1
            }
        } else {
            0
        }
    }
}

impl Histogram for HistogramFast {
    closed spec fn spec_hist(&self) -> Seq<usize> {
        self.hist@
    }

    fn count_index(&mut self, index: usize) -> (r: Result<usize, HistErrors>) {
        if index < self.hist.len() {
            let c = self.hist[index];
            self.hist.set(index, c + 1);
            Ok(index)
        } else {
            Err(HistErrors::OutsideHist)
        }
    }

    fn hist(&self) -> (r: &Vec<usize>) {
        &self.hist
    }

    fn reset(&mut self) {
        zero_all(&mut self.hist);
    }
}

impl HistogramVal<usize> for HistogramFast {
    closed spec fn val_wf(&self) -> bool {
        self.left < self.right && self.hist@.len() == self.right - self.left
    }

    closed spec fn spec_left(&self) -> usize {
        self.left
    }

    closed spec fn spec_right(&self) -> usize {
        self.right
    }

    open spec fn spec_inside(&self, val: usize) -> bool {
        self.spec_left() <= val < self.spec_right()
    }

    open spec fn spec_bin(&self, val: usize) -> int {
        val - self.spec_left()
    }

    /// count val. `Ok(index)`, if inside of hist, `Err(OutsideHist)` if val is invalid
    fn count_val(&mut self, val: usize) -> (r: Result<usize, HistErrors>)
        ensures
            final(self).val_wf(),
            final(self).spec_left() == old(self).spec_left(),
            final(self).spec_right() == old(self).spec_right(),
    {
        let index = self.get_bin_index(val)?;
        let c = self.hist[index];
        self.hist.set(index, c + 1);
        Ok(index)
    }

    fn get_bin_index(&self, val: usize) -> (r: Result<usize, HistErrors>) {
        if val < self.right {
            match val.checked_sub(self.left) {
                None => Err(HistErrors::OutsideHist),
                Some(index) => Ok(index),
            }
        } else {
            Err(HistErrors::OutsideHist)
        }
    }

    fn is_inside(&self, val: usize) -> (r: bool) {
        val >= self.left && val < self.right
    }

    fn not_inside(&self, val: usize) -> (r: bool) {
        val >= self.right || val < self.left
    }

    fn get_left(&self) -> (r: usize) {
        self.left
    }

    fn get_right(&self) -> (r: usize) {
        self.right
    }
}

/// the number of vertices below `upto` with degree `d`
pub open spec fn count_degree(adj: Seq<Seq<usize>>, d: nat, upto: int) -> nat
    decreases upto,
{
    if upto <= 0 {
        0
    } else {
        count_degree(adj, d, upto - 1) + if adj[upto - 1].len() == d {
            1nat
        } else {
            0
        }
    }
}

/// no more vertices below `upto` have a degree than there are vertices below `upto`
pub proof fn lemma_count_degree_bound(adj: Seq<Seq<usize>>, d: nat, upto: int)
    requires
        upto >= 0,
    ensures
        count_degree(adj, d, upto) <= upto,
    decreases upto,
{
    if upto > 0 {
        lemma_count_degree_bound(adj, d, upto - 1);
    }
}

impl<T, A: AdjContainer<T>> GenericGraph<T, A> {
    /// # Get a histogram of the degrees
    /// * the bins run from the smallest degree to the largest, each bin counting the
    /// vertices of one degree
    /// * the graph needs at least one vertex
    pub fn degree_histogram(&self) -> (r: HistogramFast)
        requires
            self.wf(),
            self.spec_vertex_count() >= 1,
        ensures
            r.val_wf(),
            forall|v: int| 0 <= v < self.spec_vertex_count() ==> r.spec_left() <= #[trigger] self.spec_adj()[v].len() < r.spec_right(),
            exists|v: int| 0 <= v < self.spec_vertex_count() && #[trigger] self.spec_adj()[v].len() == r.spec_left(),
            exists|v: int| 0 <= v < self.spec_vertex_count() && #[trigger] self.spec_adj()[v].len() + 1 == r.spec_right(),
            forall|k: int|
                0 <= k < r.spec_hist().len() ==> #[trigger] r.spec_hist()[k] == count_degree(
                    self.spec_adj(),
                    (r.spec_left() + k) as nat,
                    self.spec_vertex_count() as int,
                ),
    {
        let ghost adj = self.spec_adj();
        let n = self.vertex_count();
        proof {
            self.lemma_len_bound();
        }
        let mut min = self.container(0).degree();
        let mut max = min;
        proof {
            assert(adj[0].len() == min);
        }
        let mut v: usize = 1;
        while v < n
            invariant
                self.wf(),
                adj == self.spec_adj(),
                n == adj.len(),
                1 <= v <= n,
                forall|w: int| 0 <= w < v ==> min <= #[trigger] adj[w].len() <= max,
                exists|w: int| 0 <= w < v && #[trigger] adj[w].len() == min,
                exists|w: int| 0 <= w < v && #[trigger] adj[w].len() == max,
            decreases n - v,
        {
            let d = self.container(v).degree();
            proof {
                assert(adj[v as int].len() == d);
            }
            if d < min {
                min = d;
            } else if d > max {
                max = d;
            }
            v = v + 1;
        }
        let ghost wmax = choose|w: int| 0 <= w < n && #[trigger] adj[w].len() == max;
        proof {
            assert(adj[wmax].len() == max);
            assert(!adj[wmax].contains(wmax as usize)) by {
                if adj[wmax].contains(wmax as usize) {
                    let q = choose|q: int| 0 <= q < adj[wmax].len() && adj[wmax][q] == wmax as usize;
                    assert(adj[wmax][q] != wmax);
                }
            }
            crate::seq_util::lemma_cover(adj[wmax], n as nat);
        }
        let mut hist = match HistogramFast::new_inclusive(min, max) {
            Ok(h) => h,
            Err(_) => {
                proof {
                    assert(false);
                }
                return HistogramFast { left: 0, right: 1, hist: vec![0; 1] };
            },
        };
        let mut v: usize = 0;
        while v < n
            invariant
                self.wf(),
                adj == self.spec_adj(),
                n == adj.len(),
                v <= n,
                hist.val_wf(),
                hist.spec_left() == min,
                hist.spec_right() == max + 1,
                forall|w: int| 0 <= w < n ==> min <= #[trigger] adj[w].len() <= max,
                forall|k: int|
                    0 <= k < hist.spec_hist().len() ==> #[trigger] hist.spec_hist()[k] == count_degree(
                        adj,
                        (min + k) as nat,
                        v as int,
                    ),
            decreases n - v,
        {
            let d = self.container(v).degree();
            let ghost h0 = hist.spec_hist();
            proof {
                lemma_count_degree_bound(adj, d as nat, v as int);
                assert(adj[v as int].len() == d);
                assert(h0[d - min] == count_degree(adj, (min + (d - min)) as nat, v as int));
            }
            let res = hist.count_val(d);
            proof {
                assert forall|k: int|
                    0 <= k < hist.spec_hist().len() implies #[trigger] hist.spec_hist()[k] == count_degree(
                    adj,
                    (min + k) as nat,
                    v + 1,
                ) by {
                    assert(h0[k] == count_degree(adj, (min + k) as nat, v as int));
                }
            }
            v = v + 1;
        }
        hist
    }
}

} // verus!
