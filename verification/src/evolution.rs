//! # Evolution
//!
//! Connects the quadtree state, user oracle, and refinement policy into one
//! refinement step:
//!
//! 1. choose one leaf using a [`RefinementPolicy`],
//! 2. split that leaf into four children,
//! 3. evaluate each child using the [`QuadOracle`],
//! 4. store the evaluated children back into the tree.
//!
//! The module contains no refinement heuristics itself; those belong to the
//! policies.
use vstd::prelude::*;

use crate::{
    cell::Cell,
    geometry::Rect,
    oracle::{evaluated_in_order, QuadOracle},
    policy::{is_max, leaf_scores, max_score, scores_of, CellScore, RefinementPolicy},
    tree::{are_children_of, split_leaves, QuadTree, TreeError},
};

verus! {

/// Why a refinement step failed.
#[derive(Debug, Clone, Copy, PartialEq, Eq, Structural)]
pub enum EvolutionError {
    Tree(TreeError),
    NoLeafSelected,
}

impl From<TreeError> for EvolutionError {
    fn from(e: TreeError) -> (r: EvolutionError) {
        EvolutionError::Tree(e)
    }
}

impl vstd::std_specs::convert::FromSpecImpl<TreeError> for EvolutionError {
    open spec fn obeys_from_spec() -> bool {
        true
    }

    open spec fn from_spec(e: TreeError) -> EvolutionError {
        EvolutionError::Tree(e)
    }
}

/// What a refinement step decides once the leaf to split is chosen: the
/// quadrants of that leaf, or why the step fails.
pub open spec fn refine_outcome<D>(tree: QuadTree<D>, choice: Option<usize>) -> Result<Seq<Rect>, EvolutionError> {
    match choice {
        None => Err(EvolutionError::NoLeafSelected),
        Some(index) => match tree.split_outcome(index) {
            Err(e) => Err(EvolutionError::Tree(e)),
            Ok(q) => Ok(q),
        },
    }
}

/// `new`, `r` and the oracle state `after` are what a refinement step that
/// chose `choice` makes of `old` with the oracle in state `before`: on
/// failure the tree and the oracle are unchanged; on success the chosen leaf
/// is replaced by its four children, which the oracle evaluated one after
/// another in quadrant order, each on its own bounds.
pub open spec fn refined_by<O: QuadOracle>(
    old: QuadTree<O::Data>,
    choice: Option<usize>,
    before: O,
    new: QuadTree<O::Data>,
    after: O,
    r: Result<(), EvolutionError>,
) -> bool {
    match refine_outcome(old, choice) {
        Err(e) => r == Err::<(), EvolutionError>(e) && new == old && after == before,
        Ok(_) => {
            &&& r is Ok
            &&& new.spec_root() == old.spec_root()
            &&& new.spec_max_depth() == old.spec_max_depth()
            &&& new.spec_max_leaves() == old.spec_max_leaves()
            &&& exists|cs: Seq<Cell<O::Data>>| {
                &&& are_children_of(old.spec_leaves()[choice->0 as int], cs)
                &&& #[trigger] new.spec_leaves() == split_leaves(old.spec_leaves(), choice->0 as int, cs)
                &&& evaluated_in_order(before, after, cs)
            }
        },
    }
}

/// Splits the leaf `choice` of `state`, evaluating the children with
/// `problem`; fails with [`EvolutionError::NoLeafSelected`] when no leaf was
/// chosen and with the tree's error when the split is refused.
pub fn refine_chosen<O: QuadOracle>(
    state: &mut QuadTree<O::Data>,
    choice: Option<usize>,
    problem: &mut O,
) -> (r: Result<(), EvolutionError>)
    ensures
        refined_by(*old(state), choice, *old(problem), *final(state), *final(problem), r),
        old(state).wf() ==> final(state).wf(),
{
    let index = match choice {
        Some(i) => i,
        None => {
            return Err(EvolutionError::NoLeafSelected);
        },
    };
    match state.split_leaf_with(index, problem) {
        Ok(()) => Ok(()),
        Err(e) => Err(EvolutionError::Tree(e)),
    }
}

/// Refines a tree with a policy, one leaf per step.
#[derive(Debug, Clone)]
pub struct QuadTreeRefiner<P> {
    policy: P,
}

impl<P> QuadTreeRefiner<P> {
    pub closed spec fn spec_policy(&self) -> P {
        self.policy
    }

    pub fn new(policy: P) -> (r: Self)
        ensures
            r.spec_policy() == policy,
    {
        Self { policy }
    }

    pub fn policy(&self) -> (r: &P)
        ensures
            *r == self.spec_policy(),
    {
        &self.policy
    }

    /// Preparing a run needs no work: the tree is left as it is.
    pub fn initialise_fallible<O: QuadOracle>(&self, problem: &mut O, state: &mut QuadTree<O::Data>) -> (r: Result<(), EvolutionError>)
        ensures
            r is Ok,
            *final(state) == *old(state),
            *final(problem) == *old(problem),
    {
        Ok(())
    }

    /// The result of a run is the refined tree itself: a copy with the same
    /// root, limits and leaves, each leaf's data cloned.
    pub fn finalise_fallible<O: QuadOracle>(&self, problem: &mut O, state: &QuadTree<O::Data>) -> (r: Result<QuadTree<O::Data>, EvolutionError>)
        where
            O::Data: Clone,
        ensures
            r is Ok,
            *final(problem) == *old(problem),
            r matches Ok(t) ==> {
                &&& t.spec_root() == state.spec_root()
                &&& t.spec_max_depth() == state.spec_max_depth()
                &&& t.spec_max_leaves() == state.spec_max_leaves()
                &&& t.spec_leaves().len() == state.spec_leaves().len()
                &&& forall|i: int|
                    0 <= i < state.spec_leaves().len() ==> {
                        &&& (#[trigger] t.spec_leaves()[i]).spec_bounds() == state.spec_leaves()[i].spec_bounds()
                        &&& t.spec_leaves()[i].spec_depth() == state.spec_leaves()[i].spec_depth()
                        &&& cloned(state.spec_leaves()[i].spec_data(), t.spec_leaves()[i].spec_data())
                    }
                &&& state.wf() ==> t.wf()
            },
    {
        Ok(state.duplicate())
    }

    /// One refinement step: the policy chooses a leaf and the leaf is split,
    /// its children evaluated by `problem`.
    pub fn step_fallible<O: QuadOracle>(&self, problem: &mut O, state: &mut QuadTree<O::Data>) -> (r: Result<(), EvolutionError>)
        where
            P: RefinementPolicy<O::Data>,
        requires
            old(state).wf(),
        ensures
            refined_by(
                *old(state),
                self.spec_policy().spec_choose_leaf(*old(state)),
                *old(problem),
                *final(state),
                *final(problem),
                r,
            ),
            final(state).wf(),
    {
        let choice = self.policy.choose_leaf(state);
        refine_chosen(state, choice, problem)
    }
}

impl<D: CellScore> QuadTree<D> {
    /// A tree is ready for refinement once it has a leaf.
    pub fn is_initialised(&self) -> (r: bool)
        ensures
            r == (self.spec_leaves().len() > 0),
    {
        self.leaf_count() > 0
    }

    /// The progress measure of a tree: the largest leaf score (0 for a
    /// tree without leaves, which no constructor makes).
    pub fn progress(&self) -> (r: i32)
        ensures
            self.spec_leaves().len() > 0 ==> is_max(scores_of(self.spec_leaves()), r as int),
            self.spec_leaves().len() == 0 ==> r == 0,
    {
        let scores = leaf_scores(self);
        max_score(&scores)
    }
}

} // verus!
