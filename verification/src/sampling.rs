//! Traits for sampling an ensemble: Markov chains, simple sampling and access to the
//! random number generator.
use vstd::prelude::*;

verus! {

/// # Create a markov chain by doing markov steps
pub trait MarkovChain<S, Res>: Sized {
    /// the state is fit for the chain's steps
    spec fn chain_wf(&self) -> bool;

    /// a Markov step is possible
    spec fn chain_can_step(&self) -> bool;

    /// the steps can be undone, from the last to the first
    spec fn undoable(&self, steps: Seq<S>) -> bool;

    /// no steps can always be undone
    proof fn lemma_undoable_empty(&self)
        ensures
            self.undoable(Seq::<S>::empty()),
    ;

    /// when a list of steps can be undone, so can its last step on its own
    proof fn lemma_undoable_last(&self, steps: Seq<S>, step: S)
        ensures
            self.undoable(steps.push(step)) ==> self.undoable(seq![step]),
    ;

    /// * undo a markov step, return result-state
    /// * if you want to undo more than one step
    /// see [`undo_steps`](#method.undo_steps)
    fn undo_step(&mut self, step: S) -> (r: Res)
        requires
            old(self).chain_wf(),
            old(self).undoable(seq![step]),
        ensures
            final(self).chain_wf(),
            final(self).chain_can_step() == old(self).chain_can_step(),
            forall|steps: Seq<S>| #[trigger] old(self).undoable(steps.push(step)) ==> final(self).undoable(steps),
    ;

    /// * undo a markov step
    /// * for undoing multiple steps see [`undo_steps_quiet`](#method.undo_steps_quiet)
    fn undo_step_quiet(&mut self, step: S)
        requires
            old(self).chain_wf(),
            old(self).undoable(seq![step]),
        ensures
            final(self).chain_wf(),
            final(self).chain_can_step() == old(self).chain_can_step(),
            forall|steps: Seq<S>| #[trigger] old(self).undoable(steps.push(step)) ==> final(self).undoable(steps),
    ;

    /// # Markov step
    /// * use this to perform a markov step step
    /// * for doing multiple markov steps at once, use [`m_steps`](#method.m_steps)
    fn m_step(&mut self) -> (s: S)
        requires
            old(self).chain_wf(),
            old(self).chain_can_step(),
        ensures
            final(self).chain_wf(),
            final(self).chain_can_step(),
            forall|steps: Seq<S>| old(self).undoable(steps) ==> #[trigger] final(self).undoable(steps.push(s)),
    ;

    /// #  Markov steps
    /// * use this to perform multiple markov steps at once
    /// * result `Vec<S>` can be used to undo the steps with `self.undo_steps(result)`
    fn m_steps(&mut self, count: usize) -> (r: Vec<S>)
        requires
            old(self).chain_wf(),
            old(self).chain_can_step(),
        ensures
            final(self).chain_wf(),
            final(self).chain_can_step(),
            r@.len() == count,
            forall|steps: Seq<S>| old(self).undoable(steps) ==> #[trigger] final(self).undoable(steps + r@),
    {
        let mut vec: Vec<S> = Vec::with_capacity(count);
        let mut k: usize = 0;
        while k < count
            invariant
                self.chain_wf(),
                self.chain_can_step(),
                k <= count,
                vec@.len() == k,
                forall|steps: Seq<S>| old(self).undoable(steps) ==> #[trigger] self.undoable(steps + vec@),
            decreases count - k,
        {
            let ghost v0 = vec@;
            let s = self.m_step();
            vec.push(s);
            proof {
                assert forall|steps: Seq<S>| old(self).undoable(steps) implies #[trigger] self.undoable(
                    steps + vec@,
                ) by {
                    assert(steps + vec@ =~= (steps + v0).push(s));
                }
            }
            k = k + 1;
        }
        proof {
            assert forall|steps: Seq<S>| old(self).undoable(steps) implies #[trigger] self.undoable(steps + vec@) by {}
        }
        vec
    }

    /// # Markov steps without return
    /// * use this to perform multiple markov steps at once
    /// * only use this if you **know** that you do **not** want to undo the steps
    fn m_steps_quiet(&mut self, count: usize)
        requires
            old(self).chain_wf(),
            old(self).chain_can_step(),
        ensures
            final(self).chain_wf(),
            final(self).chain_can_step(),
            exists|done: Seq<S>|
                #![trigger done.len()]
                done.len() == count && forall|steps: Seq<S>|
                    old(self).undoable(steps) ==> #[trigger] final(self).undoable(steps + done),
    {
        let mut k: usize = 0;
        let ghost mut done: Seq<S> = Seq::empty();
        proof {
            assert forall|steps: Seq<S>| old(self).undoable(steps) implies #[trigger] self.undoable(steps + done) by {
                assert(steps + done =~= steps);
            }
        }
        while k < count
            invariant
                self.chain_wf(),
                self.chain_can_step(),
                k <= count,
                done.len() == k,
                forall|steps: Seq<S>| old(self).undoable(steps) ==> #[trigger] self.undoable(steps + done),
            decreases count - k,
        {
            let ghost d0 = done;
            let s = self.m_step();
            proof {
                done = d0.push(s);
                assert forall|steps: Seq<S>| old(self).undoable(steps) implies #[trigger] self.undoable(steps + done) by {
                    assert(steps + done =~= (steps + d0).push(s));
                }
            }
            k = k + 1;
        }
        proof {
            assert(done.len() == count);
        }
    }

    /// # Undo markov steps
    /// * Note: uses undo_step in correct order (the last step first) and returns the
    /// results in that order
    fn undo_steps(&mut self, steps: Vec<S>) -> (r: Vec<Res>)
        requires
            old(self).chain_wf(),
            old(self).undoable(steps@),
        ensures
            final(self).chain_wf(),
            final(self).chain_can_step() == old(self).chain_can_step(),
            r@.len() == steps@.len(),
    {
        let mut steps = steps;
        let n = steps.len();
        let mut r: Vec<Res> = Vec::with_capacity(n);
        while steps.len() > 0
            invariant
                self.chain_wf(),
                self.chain_can_step() == old(self).chain_can_step(),
                self.undoable(steps@),
                r@.len() + steps@.len() == n,
            decreases steps@.len(),
        {
            let ghost s0 = steps@;
            let step = steps.pop().unwrap();
            proof {
                assert(s0 == steps@.push(step));
                self.lemma_undoable_last(steps@, step);
            }
            let res = self.undo_step(step);
            r.push(res);
        }
        r
    }

    /// # Undo markov steps
    /// * Note: uses `undo_step_quiet` in correct order (the last step first)
    fn undo_steps_quiet(&mut self, steps: Vec<S>)
        requires
            old(self).chain_wf(),
            old(self).undoable(steps@),
        ensures
            final(self).chain_wf(),
            final(self).chain_can_step() == old(self).chain_can_step(),
            forall|before: Seq<S>| #[trigger] old(self).undoable(before + steps@) ==> final(self).undoable(before),
    {
        let ghost all = steps@;
        let mut steps = steps;
        proof {
            assert forall|before: Seq<S>| #[trigger] old(self).undoable(before + all) implies self.undoable(
                before + steps@,
            ) by {}
        }
        while steps.len() > 0
            invariant
                self.chain_wf(),
                self.chain_can_step() == old(self).chain_can_step(),
                self.undoable(steps@),
                forall|before: Seq<S>| #[trigger] old(self).undoable(before + all) ==> self.undoable(before + steps@),
            decreases steps@.len(),
        {
            let ghost s0 = steps@;
            let step = steps.pop().unwrap();
            proof {
                assert(s0 == steps@.push(step));
                self.lemma_undoable_last(steps@, step);
            }
            let ghost mid = *self;
            self.undo_step_quiet(step);
            proof {
                assert forall|before: Seq<S>| #[trigger] old(self).undoable(before + all) implies self.undoable(
                    before + steps@,
                ) by {
                    assert(before + s0 =~= (before + steps@).push(step));
                    assert(mid.undoable((before + steps@).push(step)));
                }
            }
        }
        proof {
            assert forall|before: Seq<S>| #[trigger] old(self).undoable(before + all) implies self.undoable(before) by {
                assert(before + steps@ =~= before);
            }
        }
    }
}

/// For easy sampling of your ensemble
pub trait SimpleSample: Sized {
    /// the state is fit to be drawn anew
    spec fn sample_wf(&self) -> bool;

    /// # Randomizes self according to  model
    /// * this is intended for creation of initial sample
    fn randomize(&mut self)
        requires
            old(self).sample_wf(),
        ensures
            final(self).sample_wf(),
    ;
}

/// # Access internal random number generator
pub trait HasRng<Rng> {
    /// # Access RNG
    /// If, for some reason, you want access to the internal random number generator: Here you go
    fn rng(&mut self) -> &mut Rng;

    /// # If you need to exchange the internal rng
    /// * swaps internal random number generator with `rng`
    fn swap_rng(&mut self, rng: &mut Rng);
}

/// unify graph ensembles in a trait
pub trait WithGraph<T, G>: Sized {
    /// the ensemble is well formed
    spec fn with_graph_wf(&self) -> bool;

    /// number of vertices
    spec fn node_total(&self) -> nat;

    /// what vertex `index` holds
    spec fn node_at(&self, index: int) -> T;

    /// the underlying topology
    spec fn spec_with_graph(&self) -> G;

    /// * access additional information at index
    fn at(&self, index: usize) -> (r: &T)
        requires
            self.with_graph_wf(),
            index < self.node_total(),
        ensures
            *r == self.node_at(index as int),
    ;

    /// * mutable access to additional information at index
    fn at_mut(&mut self, index: usize) -> (r: &mut T)
        requires
            old(self).with_graph_wf(),
            index < old(self).node_total(),
        ensures
            *r == old(self).node_at(index as int),
            final(self).with_graph_wf(),
            final(self).node_total() == old(self).node_total(),
            final(self).node_at(index as int) == *final(r),
            forall|i: int|
                0 <= i < old(self).node_total() && i != index ==> #[trigger] final(self).node_at(i) == old(
                    self,
                ).node_at(i),
    ;

    /// * returns reference to the underlying topology aka, the `GenericGraph`
    /// * use this to call functions regarding the topology
    fn graph(&self) -> (r: &G)
        ensures
            *r == self.spec_with_graph(),
    ;

    /// * sorts Adjecaency List
    fn sort_adj(&mut self)
        requires
            old(self).with_graph_wf(),
        ensures
            final(self).with_graph_wf(),
            final(self).node_total() == old(self).node_total(),
            forall|i: int| 0 <= i < old(self).node_total() ==> #[trigger] final(self).node_at(i) == old(self).node_at(i),
    ;
}

/// Which refinement a Wang-Landau simulation uses (R. E. Belardinelli and V. D. Pereyra,
/// Fast algorithm to calculate density of states, Phys. Rev. E 75: 046701 (2007))
#[derive(Debug, Clone, Copy, PartialEq, Eq, Structural)]
pub enum WangLandauMode {
    /// the original Wang-Landau: refine each time every bin of the histogram was hit
    RefineOriginal,
    /// the `1/t` approach: refine at each step
    Refine1T,
}

impl WangLandauMode {
    /// true for the variant `RefineOriginal`
    pub fn is_mode_original(&self) -> (r: bool)
        ensures
            r <==> *self == WangLandauMode::RefineOriginal,
    {
        match self {
            WangLandauMode::RefineOriginal => true,
            _ => false,
        }
    }

    /// true for the variant `Refine1T`
    pub fn is_mode_1_t(&self) -> (r: bool)
        ensures
            r <==> *self == WangLandauMode::Refine1T,
    {
        match self {
            WangLandauMode::Refine1T => true,
            _ => false,
        }
    }
}

} // verus!
