//! Latin hypercube sampling in two dimensions: `samples` points in a grid of
//! `samples` rows and `samples` columns, with exactly one point in each row and in each
//! column.
use vstd::prelude::*;
use vstd::multiset::Multiset;
use crate::random::draw_index;

verus! {

/// the values below `n`, ascending
pub open spec fn range_seq(n: nat) -> Seq<usize> {
    Seq::new(n, |i: int| i as usize)
}

/// Draws the points of a latin hypercube sample one at a time: the row and the column of
/// each point are drawn from those not used yet
pub struct LatinHypercubeSampling2D<R> {
    x: Vec<usize>,
    y: Vec<usize>,
    rng: R,
    samples: Ghost<nat>,
    drawn_x: Ghost<Seq<usize>>,
    drawn_y: Ghost<Seq<usize>>,
}

impl<R> LatinHypercubeSampling2D<R> {
    /// the number of points of the sample
    pub closed spec fn spec_samples(&self) -> nat {
        self.samples@
    }

    /// the points drawn so far, in order
    pub closed spec fn drawn(&self) -> Seq<(usize, usize)> {
        Seq::new(self.drawn_x@.len(), |k: int| (self.drawn_x@[k], self.drawn_y@[k]))
    }

    /// the rows and the columns not used yet, together with those of the points drawn,
    /// are each value below the number of points once
    pub closed spec fn latin_wf(&self) -> bool {
        &&& self.x@.len() == self.y@.len()
        &&& self.drawn_x@.len() == self.drawn_y@.len()
        &&& self.x@.len() + self.drawn_x@.len() == self.samples@
        &&& self.samples@ <= usize::MAX
        &&& self.x@.to_multiset().add(self.drawn_x@.to_multiset()) == range_seq(self.samples@).to_multiset()
        &&& self.y@.to_multiset().add(self.drawn_y@.to_multiset()) == range_seq(self.samples@).to_multiset()
    }

    /// Once all points are drawn, their rows are the values below the number of points,
    /// each once, and so are their columns.
    pub proof fn lemma_latin_complete(&self)
        requires
            self.latin_wf(),
            self.drawn().len() == self.spec_samples(),
        ensures
            self.drawn().map_values(|p: (usize, usize)| p.0).to_multiset() == range_seq(self.spec_samples()).to_multiset(),
            self.drawn().map_values(|p: (usize, usize)| p.1).to_multiset() == range_seq(self.spec_samples()).to_multiset(),
    {
        broadcast use vstd::multiset::group_multiset_axioms;
        assert(self.drawn().map_values(|p: (usize, usize)| p.0) =~= self.drawn_x@);
        assert(self.drawn().map_values(|p: (usize, usize)| p.1) =~= self.drawn_y@);
        assert(self.x@ =~= Seq::<usize>::empty());
        assert(self.y@ =~= Seq::<usize>::empty());
        self.x@.to_multiset_ensures();
        self.y@.to_multiset_ensures();
        assert(self.x@.to_multiset() =~= Multiset::empty());
        assert(self.y@.to_multiset() =~= Multiset::empty());
        assert(self.x@.to_multiset().add(self.drawn_x@.to_multiset()) =~= self.drawn_x@.to_multiset());
        assert(self.y@.to_multiset().add(self.drawn_y@.to_multiset()) =~= self.drawn_y@.to_multiset());
    }

    /// a sample of `samples` points, none drawn yet
    pub fn new(samples: usize, rng: R) -> (r: Self)
        ensures
            r.latin_wf(),
            r.spec_samples() == samples,
            r.drawn() == Seq::<(usize, usize)>::empty(),
    {
        let mut x: Vec<usize> = Vec::with_capacity(samples);
        let mut i: usize = 0;
        while i < samples
            invariant
                i <= samples,
                x@ == range_seq(i as nat),
            decreases samples - i,
        {
            x.push(i);
            i = i + 1;
            proof {
                assert(x@ =~= range_seq(i as nat));
            }
        }
        let y = x.clone();
        proof {
            assert(y@ == x@);
            broadcast use vstd::multiset::group_multiset_axioms;
            Seq::<usize>::empty().to_multiset_ensures();
            assert(Seq::<usize>::empty().to_multiset() =~= Multiset::empty());
            assert(x@.to_multiset().add(Seq::<usize>::empty().to_multiset()) =~= x@.to_multiset());
        }
        let r = LatinHypercubeSampling2D {
            x,
            y,
            rng,
            samples: Ghost(samples as nat),
            drawn_x: Ghost(Seq::empty()),
            drawn_y: Ghost(Seq::empty()),
        };
        assert(r.drawn() =~= Seq::<(usize, usize)>::empty());
        r
    }

    /// the number of points still to be drawn
    pub fn len(&self) -> (r: usize)
        requires
            self.latin_wf(),
        ensures
            r == self.spec_samples() - self.drawn().len(),
    {
        self.x.len()
    }
}

/// `s` with entry `i` taken out by `Vec::swap_remove` holds the same values but that one
proof fn lemma_swap_remove_multiset(s: Seq<usize>, i: int)
    requires
        0 <= i < s.len(),
    ensures
        s.update(i, s.last()).drop_last().to_multiset().insert(s[i]) == s.to_multiset(),
{
    broadcast use vstd::seq_lib::group_to_multiset_ensures;
    broadcast use vstd::multiset::group_multiset_axioms;
    let u = s.update(i, s.last());
    assert(u.drop_last() =~= u.remove(u.len() - 1));
    assert(u[u.len() - 1] == s.last());
    assert(u.drop_last().to_multiset() == u.to_multiset().remove(s.last()));
    assert(u.to_multiset() == s.to_multiset().insert(s.last()).remove(s[i]));
    assert(s.to_multiset().count(s[i]) > 0) by {
        assert(s.contains(s[i]));
    }
    assert(u.drop_last().to_multiset().insert(s[i]) =~= s.to_multiset());
}

impl<R: rand::Rng> LatinHypercubeSampling2D<R> {
    /// the next point `(row, column)`, its row drawn from the rows not used yet and its
    /// column from the columns not used yet; `None` once all points are drawn
    pub fn next(&mut self) -> (r: Option<(usize, usize)>)
        requires
            old(self).latin_wf(),
        ensures
            final(self).latin_wf(),
            final(self).spec_samples() == old(self).spec_samples(),
            old(self).drawn().len() == old(self).spec_samples() ==> r is None && final(self).drawn() == old(
                self,
            ).drawn(),
            old(self).drawn().len() < old(self).spec_samples() ==> (r matches Some(p) && final(self).drawn()
                == old(self).drawn().push(p)),
    {
        let len = self.x.len();
        if len == 0 {
            return None;
        }
        let x_idx = draw_index(&mut self.rng, len);
        let y_idx = draw_index(&mut self.rng, len);
        let ghost x0 = self.x@;
        let ghost y0 = self.y@;
        let ghost d0 = self.drawn();
        let x = self.x.swap_remove(x_idx);
        let y = self.y.swap_remove(y_idx);
        proof {
            broadcast use vstd::seq_lib::group_to_multiset_ensures;
            broadcast use vstd::multiset::group_multiset_axioms;
            lemma_swap_remove_multiset(x0, x_idx as int);
            lemma_swap_remove_multiset(y0, y_idx as int);
            let dx = self.drawn_x@;
            let dy = self.drawn_y@;
            assert(self.x@.to_multiset().add(dx.push(x).to_multiset()) =~= x0.to_multiset().add(dx.to_multiset()));
            assert(self.y@.to_multiset().add(dy.push(y).to_multiset()) =~= y0.to_multiset().add(dy.to_multiset()));
        }
        self.drawn_x = Ghost(self.drawn_x@.push(x));
        self.drawn_y = Ghost(self.drawn_y@.push(y));
        assert(self.drawn() =~= d0.push((x, y)));
        Some((x, y))
    }
}

} // verus!
