//! Limits and stopping criteria of a refinement run.
use vstd::prelude::*;

verus! {

/// Limits and stopping criteria of a refinement run.
#[derive(Debug, Clone, Copy, PartialEq, Eq, Structural)]
pub struct QuadTreeConfig {
    pub max_iter: usize,
    pub max_depth: usize,
    pub max_leaves: usize,
    pub target_score: i64,
    pub target_window: usize,
    /// The least improvement of the progress measure that counts as
    /// progress, in hundredths of a score unit: 250 stands for 2.5.
    pub no_progress_tolerance: i64,
    pub no_progress_window: usize,
}

impl QuadTreeConfig {
    /// The default configuration for a target score: 1 000 iterations, depth
    /// 32, 100 000 leaves, a target window of 3, and a no-progress
    /// tolerance of one hundredth of the target (in hundredths of a score
    /// unit, the target itself) over 25 iterations.
    pub fn new(target_score: i64) -> (r: Self)
        ensures
            r.max_iter == 1_000,
            r.max_depth == 32,
            r.max_leaves == 100_000,
            r.target_score == target_score,
            r.target_window == 3,
            r.no_progress_tolerance == target_score,
            r.no_progress_window == 25,
    {
        Self {
            max_iter: 1_000,
            max_depth: 32,
            max_leaves: 100_000,
            target_score,
            target_window: 3,
            no_progress_tolerance: target_score,
            no_progress_window: 25,
        }
    }

    pub fn with_max_iter(self, max_iter: usize) -> (r: Self)
        ensures
            r == (Self { max_iter, ..self }),
    {
        let mut c = self;
        c.max_iter = max_iter;
        c
    }

    pub fn with_max_depth(self, max_depth: usize) -> (r: Self)
        ensures
            r == (Self { max_depth, ..self }),
    {
        let mut c = self;
        c.max_depth = max_depth;
        c
    }

    pub fn with_max_leaves(self, max_leaves: usize) -> (r: Self)
        ensures
            r == (Self { max_leaves, ..self }),
    {
        let mut c = self;
        c.max_leaves = max_leaves;
        c
    }

    pub fn with_target_window(self, target_window: usize) -> (r: Self)
        ensures
            r == (Self { target_window, ..self }),
    {
        let mut c = self;
        c.target_window = target_window;
        c
    }

    /// Sets the no-progress tolerance, in hundredths of a score unit.
    pub fn with_no_progress_tolerance(self, no_progress_tolerance: i64) -> (r: Self)
        ensures
            r == (Self { no_progress_tolerance, ..self }),
    {
        let mut c = self;
        c.no_progress_tolerance = no_progress_tolerance;
        c
    }

    pub fn with_no_progress_window(self, no_progress_window: usize) -> (r: Self)
        ensures
            r == (Self { no_progress_window, ..self }),
    {
        let mut c = self;
        c.no_progress_window = no_progress_window;
        c
    }
}

} // verus!
