//! # Oracle
//!
//! The user-provided evaluation interface for quadtree refinement.
//!
//! A quadtree algorithm maintains geometry and refinement state, but it does
//! not know what a cell "means". The oracle supplies that problem-specific
//! interpretation by evaluating each cell and returning user-defined data.
//!
//! The returned data is stored on the cell and may later be used by
//! refinement policies, convergence checks, or output consumers.
use vstd::prelude::*;

use crate::{cell::Cell, geometry::Rect};

verus! {

/// User-provided cell evaluator.
///
/// The output type `Data` is stored directly on the corresponding quadtree
/// cell. It may represent an approximation error, a classification result, a
/// density estimate, or any other cell-local quantity.
pub trait QuadOracle: Sized {
    /// Data attached to each evaluated cell.
    type Data;

    /// Evaluating `bounds` with the oracle in state `self` may give `d` and
    /// leave the oracle in state `next`.
    spec fn evaluated(&self, next: Self, bounds: Rect, d: Self::Data) -> bool;

    /// Evaluates a cell region. Called when a new cell is created;
    /// implementations may be deterministic or stochastic.
    fn evaluate(&mut self, bounds: Rect) -> (r: Self::Data)
        ensures
            old(self).evaluated(*final(self), bounds, r),
    ;
}

/// Step `k` of `states`: evaluating the bounds of `cs[k]` took the oracle
/// from `states[k]` to `states[k + 1]` and gave the data of `cs[k]`.
pub open spec fn evaluation_step<O: QuadOracle>(states: Seq<O>, cs: Seq<Cell<O::Data>>, k: int) -> bool {
    states[k].evaluated(states[k + 1], cs[k].spec_bounds(), cs[k].spec_data())
}

/// The oracle went from `before` to `after` by evaluating the bounds of the
/// cells `cs` one after another, in order, each evaluation giving that
/// cell's data.
pub open spec fn evaluated_in_order<O: QuadOracle>(before: O, after: O, cs: Seq<Cell<O::Data>>) -> bool {
    exists|states: Seq<O>|
        #![trigger states[0]]
        {
            &&& states.len() == cs.len() + 1
            &&& states[0] == before
            &&& states[cs.len() as int] == after
            &&& forall|k: int| 0 <= k < cs.len() ==> #[trigger] evaluation_step(states, cs, k)
        }
}

} // verus!
