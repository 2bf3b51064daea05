use quadtree::evolution::{refine_chosen, EvolutionError, QuadTreeRefiner};
use quadtree::geometry::{Rect, UNIT};
use quadtree::oracle::QuadOracle;
use quadtree::policy::{CellScore, LargestAreaPolicy, MaxScorePolicy};
use quadtree::tree::{QuadTree, TreeError};

#[derive(Debug, Clone, Copy)]
struct Score(i32);

impl CellScore for Score {
    fn spec_score(&self) -> i32 {
        self.0
    }

    fn score(&self) -> i32 {
        self.0
    }
}

/// `v` whole units, in fixed point.
fn u(v: i64) -> i64 {
    v * UNIT
}

/// The area of `r` in square units, rounded down.
fn area_units(r: Rect) -> i32 {
    (r.area() / ((UNIT as i128) * (UNIT as i128))) as i32
}

/// The sum of the centre coordinates of `r`, in whole units.
fn centre_sum_units(r: Rect) -> i32 {
    let c = r.centre();
    ((c.x + c.y) / UNIT) as i32
}

struct AreaOracle;

impl QuadOracle for AreaOracle {
    type Data = Score;

    fn evaluated(&self, _next: Self, bounds: Rect, d: Score) -> bool {
        d.0 == area_units(bounds)
    }

    fn evaluate(&mut self, bounds: Rect) -> Self::Data {
        Score(area_units(bounds))
    }
}

struct CentreScoreOracle;

impl QuadOracle for CentreScoreOracle {
    type Data = Score;

    fn evaluated(&self, _next: Self, bounds: Rect, d: Score) -> bool {
        d.0 == centre_sum_units(bounds)
    }

    fn evaluate(&mut self, bounds: Rect) -> Self::Data {
        Score(centre_sum_units(bounds))
    }
}

struct CountingOracle {
    calls: usize,
}

impl QuadOracle for CountingOracle {
    type Data = Score;

    fn evaluated(&self, next: Self, _bounds: Rect, d: Score) -> bool {
        next.calls == self.calls + 1 && d.0 == next.calls as i32
    }

    fn evaluate(&mut self, _bounds: Rect) -> Self::Data {
        self.calls += 1;
        Score(self.calls as i32)
    }
}

fn root() -> Rect {
    Rect::new(u(0), u(4), u(0), u(4)).unwrap()
}

#[test]
fn initialise_is_noop_for_valid_state() {
    let refiner = QuadTreeRefiner::<LargestAreaPolicy>::new(LargestAreaPolicy);
    let mut oracle = AreaOracle;
    let mut state = QuadTree::new(root(), Score(16), 8, 100);

    refiner.initialise_fallible(&mut oracle, &mut state).unwrap();

    assert_eq!(state.leaf_count(), 1);
}

#[test]
fn one_step_splits_one_leaf_into_four() {
    let refiner = QuadTreeRefiner::<LargestAreaPolicy>::new(LargestAreaPolicy);
    let mut oracle = AreaOracle;
    let mut state = QuadTree::new(root(), Score(16), 8, 100);

    refiner.step_fallible(&mut oracle, &mut state).unwrap();

    assert_eq!(state.leaf_count(), 4);

    for leaf in state.iter() {
        assert_eq!(leaf.depth(), 1);
        assert_eq!(leaf.data().score(), 4);
    }
}

#[test]
fn repeated_steps_refine_tree() {
    let refiner = QuadTreeRefiner::<LargestAreaPolicy>::new(LargestAreaPolicy);
    let mut oracle = AreaOracle;
    let mut state = QuadTree::new(root(), Score(16), 8, 100);

    for _ in 0..3 {
        refiner.step_fallible(&mut oracle, &mut state).unwrap();
    }

    assert_eq!(state.leaf_count(), 10);
    assert_eq!(state.max_leaf_depth(), 2);
}

#[test]
fn step_respects_max_depth() {
    let refiner = QuadTreeRefiner::<LargestAreaPolicy>::new(LargestAreaPolicy);
    let mut oracle = AreaOracle;
    let mut state = QuadTree::new(root(), Score(16), 0, 100);

    let err = refiner.step_fallible(&mut oracle, &mut state).unwrap_err();

    assert!(matches!(err, EvolutionError::Tree(TreeError::MaxDepthExceeded { .. })));
}

#[test]
fn step_respects_max_leaves() {
    let refiner = QuadTreeRefiner::<LargestAreaPolicy>::new(LargestAreaPolicy);
    let mut oracle = AreaOracle;
    let mut state = QuadTree::new(root(), Score(16), 8, 3);

    let err = refiner.step_fallible(&mut oracle, &mut state).unwrap_err();

    assert!(matches!(err, EvolutionError::Tree(TreeError::MaxLeavesExceeded { .. })));
}

#[test]
fn max_score_policy_refines_high_score_region() {
    let refiner = QuadTreeRefiner::<MaxScorePolicy>::new(MaxScorePolicy);
    let mut oracle = CentreScoreOracle;
    let mut state = QuadTree::new(root(), Score(0), 8, 100);

    refiner.step_fallible(&mut oracle, &mut state).unwrap();

    let first_best = state
        .iter()
        .enumerate()
        .max_by(|(_, a), (_, b)| a.data().score().partial_cmp(&b.data().score()).unwrap())
        .map(|(i, _)| i)
        .unwrap();

    refiner.step_fallible(&mut oracle, &mut state).unwrap();

    assert_eq!(state.leaf_count(), 7);

    let max_depth = state.max_leaf_depth();
    assert_eq!(max_depth, 2);

    assert!(state.iter().any(|leaf| leaf.depth() == 2));

    let _ = first_best;
}

#[test]
fn finalise_returns_tree_clone() {
    let refiner = QuadTreeRefiner::<LargestAreaPolicy>::new(LargestAreaPolicy);
    let mut oracle = AreaOracle;
    let state = QuadTree::new(root(), Score(16), 8, 100);

    let output = refiner.finalise_fallible(&mut oracle, &state).unwrap();

    assert_eq!(output.leaf_count(), state.leaf_count());
    assert_eq!(output.root(), state.root());
}

#[test]
fn user_state_progress_is_max_score() {
    let mut state = QuadTree::new(root(), Score(1), 8, 100);
    state
        .split_leaf(0, |rect| Score(centre_sum_units(rect)))
        .unwrap();

    assert_eq!(state.progress(), 6);
}

#[test]
fn progress_is_the_largest_score_even_when_negative() {
    let state = QuadTree::new(root(), Score(-5), 8, 100);

    assert_eq!(state.progress(), -5);
}

#[test]
fn user_state_reports_initialised_when_tree_has_root_leaf() {
    let state = QuadTree::new(root(), Score(1), 8, 100);

    assert!(state.is_initialised());
}

#[test]
fn refine_without_a_choice_reports_no_leaf() {
    let mut oracle = CountingOracle { calls: 0 };
    let mut state = QuadTree::new(root(), Score(1), 8, 100);

    let err = refine_chosen(&mut state, None, &mut oracle).unwrap_err();

    assert_eq!(err, EvolutionError::NoLeafSelected);
    assert_eq!(state.leaf_count(), 1);
    assert_eq!(oracle.calls, 0);
}

#[test]
fn refine_evaluates_each_child_once_in_quadrant_order() {
    let mut oracle = CountingOracle { calls: 0 };
    let mut state = QuadTree::new(root(), Score(0), 8, 100);

    refine_chosen(&mut state, Some(0), &mut oracle).unwrap();

    assert_eq!(oracle.calls, 4);
    let scores: Vec<_> = state.iter().map(|l| l.data().score()).collect();
    assert_eq!(scores, vec![1, 2, 3, 4]);
    assert_eq!(state.leaf(3).unwrap().bounds(), Rect::new(u(2), u(4), u(2), u(4)).unwrap());
}

#[test]
fn refine_refused_split_does_not_call_the_oracle() {
    let mut oracle = CountingOracle { calls: 0 };
    let mut state = QuadTree::new(root(), Score(0), 8, 100);

    let err = refine_chosen(&mut state, Some(3), &mut oracle).unwrap_err();

    assert_eq!(err, EvolutionError::Tree(TreeError::LeafIndexOutOfBounds { index: 3, len: 1 }));
    assert_eq!(oracle.calls, 0);
}

#[test]
fn refiner_keeps_its_policy() {
    let refiner = QuadTreeRefiner::new(MaxScorePolicy);

    let _policy: &MaxScorePolicy = refiner.policy();
}

struct RecordingOracle {
    seen: Vec<Rect>,
}

impl QuadOracle for RecordingOracle {
    type Data = Score;

    fn evaluated(&self, next: Self, bounds: Rect, d: Score) -> bool {
        next.seen.len() == self.seen.len() + 1 && next.seen[self.seen.len()] == bounds && d.0 == (bounds.x_min / UNIT) as i32
    }

    fn evaluate(&mut self, bounds: Rect) -> Self::Data {
        self.seen.push(bounds);
        Score((bounds.x_min / UNIT) as i32)
    }
}

#[test]
fn refine_hands_each_child_its_own_bounds() {
    let mut oracle = RecordingOracle { seen: Vec::new() };
    let mut state = QuadTree::new(root(), Score(0), 8, 100);

    refine_chosen(&mut state, Some(0), &mut oracle).unwrap();

    let bounds: Vec<Rect> = state.iter().map(|l| l.bounds()).collect();
    assert_eq!(oracle.seen, bounds);
    assert_eq!(
        bounds,
        vec![
            Rect::new(u(0), u(2), u(0), u(2)).unwrap(),
            Rect::new(u(2), u(4), u(0), u(2)).unwrap(),
            Rect::new(u(0), u(2), u(2), u(4)).unwrap(),
            Rect::new(u(2), u(4), u(2), u(4)).unwrap(),
        ]
    );
    let xs: Vec<i32> = state.iter().map(|l| l.data().score()).collect();
    assert_eq!(xs, vec![0, 2, 0, 2]);
}

#[test]
fn finalise_leaves_the_oracle_alone() {
    let refiner = QuadTreeRefiner::new(LargestAreaPolicy);
    let mut oracle = CountingOracle { calls: 7 };
    let state = QuadTree::new(root(), Score(1), 8, 100);

    let out = refiner.finalise_fallible(&mut oracle, &state).unwrap();

    assert_eq!(oracle.calls, 7);
    assert_eq!(out.leaf_count(), 1);
}
