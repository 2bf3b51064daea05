//! Refinement policies: which leaf to split next.
//!
//! Each built-in policy ranks the leaves by an integer key and picks the
//! leaf with the largest key (the last of several equal ones) or, for
//! [`ShallowestFirstPolicy`], the smallest (the first of several equal ones).
use vstd::prelude::*;

use crate::{
    cell::Cell,
    geometry::{lemma_area_bounds, lemma_side_squares_bounds},
    tree::{are_children_of, lemma_leaves_bounded, split_leaves, QuadTree},
};

verus! {

/// `i` is the last position at which `keys` takes its largest value.
pub open spec fn is_last_max(keys: Seq<int>, i: int) -> bool {
    &&& 0 <= i < keys.len()
    &&& forall|j: int| 0 <= j < keys.len() ==> #[trigger] keys[j] <= keys[i]
    &&& forall|j: int| i < j < keys.len() ==> #[trigger] keys[j] < keys[i]
}

/// `i` is the first position at which `keys` takes its smallest value.
pub open spec fn is_first_min(keys: Seq<int>, i: int) -> bool {
    &&& 0 <= i < keys.len()
    &&& forall|j: int| 0 <= j < keys.len() ==> keys[i] <= #[trigger] keys[j]
    &&& forall|j: int| 0 <= j < i ==> keys[i] < #[trigger] keys[j]
}

/// The keys as mathematical integers.
pub open spec fn int_keys(keys: Seq<i128>) -> Seq<int> {
    keys.map_values(|k: i128| k as int)
}

/// The area of each leaf.
pub open spec fn area_keys<D>(leaves: Seq<Cell<D>>) -> Seq<int> {
    Seq::new(leaves.len(), |j: int| leaves[j].spec_bounds().spec_area())
}

/// The squared diagonal of each leaf; diagonals compare as their squares do.
pub open spec fn diagonal_keys<D>(leaves: Seq<Cell<D>>) -> Seq<int> {
    Seq::new(leaves.len(), |j: int| leaves[j].spec_bounds().spec_diagonal_sq())
}

/// The depth of each leaf.
pub open spec fn depth_keys<D>(leaves: Seq<Cell<D>>) -> Seq<int> {
    Seq::new(leaves.len(), |j: int| leaves[j].spec_depth() as int)
}

/// Scores as mathematical integers.
pub open spec fn score_ints(scores: Seq<i32>) -> Seq<int> {
    scores.map_values(|k: i32| k as int)
}

/// The score of each leaf, given in `scores`, times the area of the leaf.
pub open spec fn weighted_keys<D>(leaves: Seq<Cell<D>>, scores: Seq<i32>) -> Seq<int> {
    Seq::new(leaves.len(), |j: int| scores[j] * leaves[j].spec_bounds().spec_area())
}

/// `m` is the largest of `scores`, which are not empty.
pub open spec fn is_max(scores: Seq<i32>, m: int) -> bool {
    &&& scores.len() > 0
    &&& forall|j: int| 0 <= j < scores.len() ==> #[trigger] scores[j] <= m
    &&& exists|j: int| 0 <= j < scores.len() && #[trigger] scores[j] == m
}

/// The score of the data of each leaf.
pub open spec fn scores_of<D: CellScore>(leaves: Seq<Cell<D>>) -> Seq<i32> {
    Seq::new(leaves.len(), |j: int| leaves[j].spec_data().spec_score())
}

/// The position of the last largest key, or `None` when there is no key.
pub open spec fn last_max_choice(keys: Seq<int>) -> Option<usize> {
    if keys.len() == 0 {
        None
    } else {
        Some((choose|i: int| is_last_max(keys, i)) as usize)
    }
}

/// The position of the first smallest key, or `None` when there is no key.
pub open spec fn first_min_choice(keys: Seq<int>) -> Option<usize> {
    if keys.len() == 0 {
        None
    } else {
        Some((choose|i: int| is_first_min(keys, i)) as usize)
    }
}

/// There is only one last position of the largest key.
pub proof fn lemma_last_max_unique(keys: Seq<int>, i: int, j: int)
    requires
        is_last_max(keys, i),
        is_last_max(keys, j),
    ensures
        i == j,
{
    if i < j {
        assert(keys[j] < keys[i]);
        assert(keys[i] <= keys[j]);
    } else if j < i {
        assert(keys[i] < keys[j]);
        assert(keys[j] <= keys[i]);
    }
}

/// There is only one first position of the smallest key.
pub proof fn lemma_first_min_unique(keys: Seq<int>, i: int, j: int)
    requires
        is_first_min(keys, i),
        is_first_min(keys, j),
    ensures
        i == j,
{
    if i < j {
        assert(keys[i] < keys[j]);
        assert(keys[j] <= keys[i]);
    } else if j < i {
        assert(keys[j] < keys[i]);
        assert(keys[i] <= keys[j]);
    }
}

/// A result that is `None` exactly for no keys and otherwise a last
/// largest position is `last_max_choice`.
proof fn lemma_is_last_max_choice(keys: Seq<int>, r: Option<usize>)
    requires
        r is None <==> keys.len() == 0,
        r matches Some(i) ==> is_last_max(keys, i as int),
    ensures
        r == last_max_choice(keys),
{
    if let Some(i) = r {
        let j = choose|j: int| is_last_max(keys, j);
        lemma_last_max_unique(keys, i as int, j);
    }
}

/// A result that is `None` exactly for no keys and otherwise a first
/// smallest position is `first_min_choice`.
proof fn lemma_is_first_min_choice(keys: Seq<int>, r: Option<usize>)
    requires
        r is None <==> keys.len() == 0,
        r matches Some(i) ==> is_first_min(keys, i as int),
    ensures
        r == first_min_choice(keys),
{
    if let Some(i) = r {
        let j = choose|j: int| is_first_min(keys, j);
        lemma_first_min_unique(keys, i as int, j);
    }
}

/// Selects a leaf to refine.
pub trait RefinementPolicy<D> {
    /// The leaf that the policy selects in `tree`, if any.
    spec fn spec_choose_leaf(&self, tree: QuadTree<D>) -> Option<usize>;

    fn choose_leaf(&self, tree: &QuadTree<D>) -> (r: Option<usize>)
        requires
            tree.wf(),
        ensures
            r == self.spec_choose_leaf(*tree),
    ;
}

/// A scalar measure of the data of a cell, such as a local error estimate.
pub trait CellScore {
    /// The score, as a function of the data.
    spec fn spec_score(&self) -> i32;

    fn score(&self) -> (r: i32)
        ensures
            r == self.spec_score(),
    ;
}

/// The position of the last largest key, if there is any key.
pub(crate) fn last_argmax(keys: &Vec<i128>) -> (r: Option<usize>)
    ensures
        r is None <==> keys@.len() == 0,
        r matches Some(i) ==> is_last_max(int_keys(keys@), i as int),
{
    let len = keys.len();
    if len == 0 {
        return None;
    }
    let ghost k = int_keys(keys@);
    let mut best: usize = 0;
    let mut i: usize = 1;
    while i < len
        invariant
            len == keys@.len(),
            k == int_keys(keys@),
            1 <= i <= len,
            best < i,
            forall|j: int| 0 <= j < i ==> #[trigger] k[j] <= k[best as int],
            forall|j: int| best < j < i ==> #[trigger] k[j] < k[best as int],
        decreases len - i,
    {
        if keys[i] >= keys[best] {
            best = i;
        }
        i = i + 1;
    }
    Some(best)
}

/// The position of the first smallest key, if there is any key.
pub(crate) fn first_argmin(keys: &Vec<i128>) -> (r: Option<usize>)
    ensures
        r is None <==> keys@.len() == 0,
        r matches Some(i) ==> is_first_min(int_keys(keys@), i as int),
{
    let len = keys.len();
    if len == 0 {
        return None;
    }
    let ghost k = int_keys(keys@);
    let mut best: usize = 0;
    let mut i: usize = 1;
    while i < len
        invariant
            len == keys@.len(),
            k == int_keys(keys@),
            1 <= i <= len,
            best < i,
            forall|j: int| 0 <= j < i ==> k[best as int] <= #[trigger] k[j],
            forall|j: int| 0 <= j < best ==> k[best as int] < #[trigger] k[j],
        decreases len - i,
    {
        if keys[i] < keys[best] {
            best = i;
        }
        i = i + 1;
    }
    Some(best)
}


/// The leaf at `i`.
fn leaf_ref<D>(tree: &QuadTree<D>, i: usize) -> (r: &Cell<D>)
    requires
        i < tree.spec_leaves().len(),
    ensures
        *r == tree.spec_leaves()[i as int],
{
    tree.leaf(i).unwrap()
}

/// A measure of a leaf by which the built-in geometric policies rank leaves.
#[derive(Clone, Copy)]
pub(crate) enum LeafKey {
    Area,
    Diagonal,
    Depth,
}

/// The measure `kind` of each leaf.
pub(crate) open spec fn leaf_keys<D>(leaves: Seq<Cell<D>>, kind: LeafKey) -> Seq<int> {
    match kind {
        LeafKey::Area => area_keys(leaves),
        LeafKey::Diagonal => diagonal_keys(leaves),
        LeafKey::Depth => depth_keys(leaves),
    }
}

/// The measure `kind` of `cell`.
fn leaf_key<D>(cell: &Cell<D>, kind: LeafKey) -> (r: i128)
    requires
        cell.spec_bounds().bounded(),
    ensures
        r == leaf_keys(seq![*cell], kind)[0],
{
    match kind {
        LeafKey::Area => cell.area(),
        LeafKey::Diagonal => {
            let w = cell.width() as i128;
            let h = cell.height() as i128;
            proof {
                lemma_side_squares_bounds(w as int, h as int);
            }
            w * w + h * h
        },
        LeafKey::Depth => cell.depth() as i128,
    }
}

/// The measure `kind` of each leaf, in order.
pub(crate) fn leaf_key_vec<D>(tree: &QuadTree<D>, kind: LeafKey) -> (r: Vec<i128>)
    requires
        tree.wf(),
    ensures
        int_keys(r@) == leaf_keys(tree.spec_leaves(), kind),
        r@.len() == tree.spec_leaves().len(),
{
    let len = tree.leaf_count();
    let mut keys: Vec<i128> = Vec::new();
    let mut i: usize = 0;
    proof {
        lemma_leaves_bounded(*tree);
    }
    while i < len
        invariant
            len == tree.spec_leaves().len(),
            forall|j: int| 0 <= j < len ==> (#[trigger] tree.spec_leaves()[j]).spec_bounds().bounded(),
            i <= len,
            keys@.len() == i,
            forall|j: int| 0 <= j < i ==> #[trigger] keys@[j] as int == leaf_keys(tree.spec_leaves(), kind)[j],
        decreases len - i,
    {
        let cell = leaf_ref(tree, i);
        keys.push(leaf_key(cell, kind));
        i = i + 1;
    }
    assert(int_keys(keys@) =~= leaf_keys(tree.spec_leaves(), kind));
    keys
}

/// The score of the data of each leaf, in order.
pub fn leaf_scores<D: CellScore>(tree: &QuadTree<D>) -> (r: Vec<i32>)
    ensures
        r@ == scores_of(tree.spec_leaves()),
{
    let len = tree.leaf_count();
    let mut scores: Vec<i32> = Vec::new();
    let mut i: usize = 0;
    while i < len
        invariant
            len == tree.spec_leaves().len(),
            i <= len,
            scores@.len() == i,
            forall|j: int| 0 <= j < i ==> #[trigger] scores@[j] == scores_of(tree.spec_leaves())[j],
        decreases len - i,
    {
        scores.push(leaf_ref(tree, i).data().score());
        i = i + 1;
    }
    assert(scores@ =~= scores_of(tree.spec_leaves()));
    scores
}

/// The position of the last largest score, if there is any score.
pub fn last_max_score(scores: &Vec<i32>) -> (r: Option<usize>)
    ensures
        r is None <==> scores@.len() == 0,
        r matches Some(i) ==> is_last_max(score_ints(scores@), i as int),
        r matches Some(i) ==> forall|j: int| 0 <= j < scores@.len() ==> #[trigger] scores@[j] <= scores@[i as int],
        r matches Some(i) ==> forall|j: int| i < j < scores@.len() ==> #[trigger] scores@[j] < scores@[i as int],
{
    let len = scores.len();
    let mut keys: Vec<i128> = Vec::new();
    let mut i: usize = 0;
    while i < len
        invariant
            len == scores@.len(),
            i <= len,
            keys@.len() == i,
            forall|j: int| 0 <= j < i ==> #[trigger] keys@[j] as int == scores@[j] as int,
        decreases len - i,
    {
        keys.push(scores[i] as i128);
        i = i + 1;
    }
    assert(int_keys(keys@) =~= score_ints(scores@));
    let r = last_argmax(&keys);
    proof {
        if let Some(m) = r {
            let k = score_ints(scores@);
            assert forall|j: int| 0 <= j < scores@.len() implies #[trigger] scores@[j] <= scores@[m as int] by {
                assert(k[j] <= k[m as int]);
            }
            assert forall|j: int| m < j < scores@.len() implies #[trigger] scores@[j] < scores@[m as int] by {
                assert(k[j] < k[m as int]);
            }
        }
    }
    r
}

/// `s` times the width times the height of `cell`.
pub open spec fn weighed<D>(cell: Cell<D>, s: i32) -> int {
    s * (cell.spec_bounds().spec_width() * cell.spec_bounds().spec_height())
}

/// The position of the last leaf whose score, given in `scores`, times its
/// area is largest, if there is a leaf.
pub fn last_max_weighted_score<D>(tree: &QuadTree<D>, scores: &Vec<i32>) -> (r: Option<usize>)
    requires
        tree.wf(),
        scores@.len() == tree.spec_leaves().len(),
    ensures
        r is None <==> tree.spec_leaves().len() == 0,
        r matches Some(i) ==> is_last_max(weighted_keys(tree.spec_leaves(), scores@), i as int),
        r matches Some(i) ==> forall|j: int|
            0 <= j < scores@.len() ==> #[trigger] weighed(tree.spec_leaves()[j], scores@[j]) <= weighed(
                tree.spec_leaves()[i as int],
                scores@[i as int],
            ),
        r matches Some(i) ==> forall|j: int|
            i < j < scores@.len() ==> #[trigger] weighed(tree.spec_leaves()[j], scores@[j]) < weighed(
                tree.spec_leaves()[i as int],
                scores@[i as int],
            ),
{
    let len = tree.leaf_count();
    let mut keys: Vec<i128> = Vec::new();
    let mut i: usize = 0;
    proof {
        lemma_leaves_bounded(*tree);
    }
    while i < len
        invariant
            len == tree.spec_leaves().len(),
            forall|j: int| 0 <= j < len ==> (#[trigger] tree.spec_leaves()[j]).spec_bounds().bounded(),
            len == scores@.len(),
            i <= len,
            keys@.len() == i,
            forall|j: int|
                0 <= j < i ==> #[trigger] keys@[j] as int == weighted_keys(tree.spec_leaves(), scores@)[j],
        decreases len - i,
    {
        let cell = leaf_ref(tree, i);
        let s = scores[i] as i128;
        let a = cell.area();
        proof {
            lemma_area_bounds(cell.spec_bounds());
            lemma_weighted_bounds(s as int, a as int);
        }
        keys.push(s * a);
        i = i + 1;
    }
    assert(int_keys(keys@) =~= weighted_keys(tree.spec_leaves(), scores@));
    let r = last_argmax(&keys);
    proof {
        if let Some(m) = r {
            let k = weighted_keys(tree.spec_leaves(), scores@);
            let l = tree.spec_leaves();
            assert forall|j: int| 0 <= j < scores@.len() implies #[trigger] weighed(l[j], scores@[j]) <= weighed(
                l[m as int],
                scores@[m as int],
            ) by {
                assert(k[j] <= k[m as int]);
            }
            assert forall|j: int| m < j < scores@.len() implies #[trigger] weighed(l[j], scores@[j]) < weighed(
                l[m as int],
                scores@[m as int],
            ) by {
                assert(k[j] < k[m as int]);
            }
        }
    }
    r
}

/// The largest of `scores`, or 0 when there is no score.
pub fn max_score(scores: &Vec<i32>) -> (r: i32)
    ensures
        scores@.len() == 0 ==> r == 0,
        scores@.len() > 0 ==> is_max(scores@, r as int),
{
    let len = scores.len();
    if len == 0 {
        return 0;
    }
    let mut best: i32 = scores[0];
    let mut i: usize = 1;
    while i < len
        invariant
            len == scores@.len(),
            1 <= i <= len,
            forall|j: int| 0 <= j < i ==> #[trigger] scores@[j] <= best,
            exists|j: int| 0 <= j < i && #[trigger] scores@[j] == best,
        decreases len - i,
    {
        if scores[i] > best {
            best = scores[i];
        }
        i = i + 1;
    }
    best
}

proof fn lemma_weighted_bounds(s: int, a: int)
    requires
        -0x8000_0000 <= s < 0x8000_0000,
        -0x4000_0000_0000_0000_0000_0000 <= a <= 0x4000_0000_0000_0000_0000_0000,
    ensures
        -0x2000_0000_0000_0000_0000_0000_0000_0000 <= s * a <= 0x2000_0000_0000_0000_0000_0000_0000_0000,
{
    assert(-0x2000_0000_0000_0000_0000_0000_0000_0000 <= s * a <= 0x2000_0000_0000_0000_0000_0000_0000_0000)
        by (nonlinear_arith)
        requires
            -0x8000_0000 <= s < 0x8000_0000,
            -0x4000_0000_0000_0000_0000_0000 <= a <= 0x4000_0000_0000_0000_0000_0000,
    ;
}

/// Refines the leaf with largest area.
#[derive(Debug, Clone, Copy, Default)]
pub struct LargestAreaPolicy;

impl<D> RefinementPolicy<D> for LargestAreaPolicy {
    open spec fn spec_choose_leaf(&self, tree: QuadTree<D>) -> Option<usize> {
        last_max_choice(area_keys(tree.spec_leaves()))
    }

    /// The last leaf of largest area.
    fn choose_leaf(&self, tree: &QuadTree<D>) -> (r: Option<usize>)
        ensures
            r is None <==> tree.spec_leaves().len() == 0,
            r matches Some(i) ==> is_last_max(area_keys(tree.spec_leaves()), i as int),
    {
        let r = last_argmax(&leaf_key_vec(tree, LeafKey::Area));
        proof {
            lemma_is_last_max_choice(area_keys(tree.spec_leaves()), r);
        }
        r
    }
}

/// Refines the leaf with largest diagonal length.
#[derive(Debug, Clone, Copy, Default)]
pub struct LargestDiameterPolicy;

impl<D> RefinementPolicy<D> for LargestDiameterPolicy {
    open spec fn spec_choose_leaf(&self, tree: QuadTree<D>) -> Option<usize> {
        last_max_choice(diagonal_keys(tree.spec_leaves()))
    }

    /// The last leaf of longest diagonal.
    fn choose_leaf(&self, tree: &QuadTree<D>) -> (r: Option<usize>)
        ensures
            r is None <==> tree.spec_leaves().len() == 0,
            r matches Some(i) ==> is_last_max(diagonal_keys(tree.spec_leaves()), i as int),
    {
        let r = last_argmax(&leaf_key_vec(tree, LeafKey::Diagonal));
        proof {
            lemma_is_last_max_choice(diagonal_keys(tree.spec_leaves()), r);
        }
        r
    }
}

/// Refines the shallowest leaf first, which gives breadth-first refinement.
#[derive(Debug, Clone, Copy, Default)]
pub struct ShallowestFirstPolicy;

impl<D> RefinementPolicy<D> for ShallowestFirstPolicy {
    open spec fn spec_choose_leaf(&self, tree: QuadTree<D>) -> Option<usize> {
        first_min_choice(depth_keys(tree.spec_leaves()))
    }

    /// The first leaf of least depth.
    fn choose_leaf(&self, tree: &QuadTree<D>) -> (r: Option<usize>)
        ensures
            r is None <==> tree.spec_leaves().len() == 0,
            r matches Some(i) ==> is_first_min(depth_keys(tree.spec_leaves()), i as int),
    {
        let r = first_argmin(&leaf_key_vec(tree, LeafKey::Depth));
        proof {
            lemma_is_first_min_choice(depth_keys(tree.spec_leaves()), r);
        }
        r
    }
}

/// Refines the deepest leaf first.
#[derive(Debug, Clone, Copy, Default)]
pub struct DeepestFirstPolicy;

impl<D> RefinementPolicy<D> for DeepestFirstPolicy {
    open spec fn spec_choose_leaf(&self, tree: QuadTree<D>) -> Option<usize> {
        last_max_choice(depth_keys(tree.spec_leaves()))
    }

    /// The last leaf of greatest depth.
    fn choose_leaf(&self, tree: &QuadTree<D>) -> (r: Option<usize>)
        ensures
            r is None <==> tree.spec_leaves().len() == 0,
            r matches Some(i) ==> is_last_max(depth_keys(tree.spec_leaves()), i as int),
    {
        let r = last_argmax(&leaf_key_vec(tree, LeafKey::Depth));
        proof {
            lemma_is_last_max_choice(depth_keys(tree.spec_leaves()), r);
        }
        r
    }
}

/// Refines the leaf whose data has the largest score.
#[derive(Debug, Clone, Copy, Default)]
pub struct MaxScorePolicy;

impl<D: CellScore> RefinementPolicy<D> for MaxScorePolicy {
    open spec fn spec_choose_leaf(&self, tree: QuadTree<D>) -> Option<usize> {
        last_max_choice(score_ints(scores_of(tree.spec_leaves())))
    }

    /// The last leaf of largest score.
    fn choose_leaf(&self, tree: &QuadTree<D>) -> (r: Option<usize>)
        ensures
            r is None <==> tree.spec_leaves().len() == 0,
            r matches Some(i) ==> is_last_max(score_ints(scores_of(tree.spec_leaves())), i as int),
    {
        let scores = leaf_scores(tree);
        let r = last_max_score(&scores);
        proof {
            lemma_is_last_max_choice(score_ints(scores_of(tree.spec_leaves())), r);
        }
        r
    }
}

/// Refines by `score * area`: useful when the score is an error density or
/// local residual and larger cells should come first.
#[derive(Debug, Clone, Copy, Default)]
pub struct MaxWeightedScorePolicy;

impl<D: CellScore> RefinementPolicy<D> for MaxWeightedScorePolicy {
    open spec fn spec_choose_leaf(&self, tree: QuadTree<D>) -> Option<usize> {
        last_max_choice(weighted_keys(tree.spec_leaves(), scores_of(tree.spec_leaves())))
    }

    /// The last leaf of largest score times area.
    fn choose_leaf(&self, tree: &QuadTree<D>) -> (r: Option<usize>)
        ensures
            r is None <==> tree.spec_leaves().len() == 0,
            r matches Some(i) ==> is_last_max(
                weighted_keys(tree.spec_leaves(), scores_of(tree.spec_leaves())),
                i as int,
            ),
    {
        let scores = leaf_scores(tree);
        let r = last_max_weighted_score(tree, &scores);
        proof {
            lemma_is_last_max_choice(weighted_keys(tree.spec_leaves(), scores_of(tree.spec_leaves())), r);
        }
        r
    }
}

/// No two leaves differ in depth by more than one.
pub open spec fn depths_within_one<D>(leaves: Seq<Cell<D>>) -> bool {
    forall|i: int, j: int|
        0 <= i < leaves.len() && 0 <= j < leaves.len() ==> (#[trigger] leaves[i]).spec_depth() <= (#[trigger] leaves[j]).spec_depth() + 1
}

/// Breadth-first refinement: splitting the first shallowest leaf, as
/// [`ShallowestFirstPolicy`] chooses it, keeps all leaf depths within one of
/// each other.
pub proof fn lemma_shallowest_first_keeps_depths_within_one<D>(old: QuadTree<D>, index: int, cs: Seq<Cell<D>>)
    requires
        depths_within_one(old.spec_leaves()),
        is_first_min(depth_keys(old.spec_leaves()), index),
        are_children_of(old.spec_leaves()[index], cs),
    ensures
        depths_within_one(split_leaves(old.spec_leaves(), index, cs)),
{
    let o = old.spec_leaves();
    let new = split_leaves(o, index, cs);
    let n = o.len() - 1;
    let m = o[index].spec_depth() as int;
    assert forall|j: int| 0 <= j < new.len() implies m <= #[trigger] new[j].spec_depth() <= m + 1 by {
        if j < n {
            let w = if j < index { j } else { j + 1 };
            assert(new[j] == o[w]);
            assert(depth_keys(o)[index] <= depth_keys(o)[w]);
            assert(o[w].spec_depth() <= o[index].spec_depth() + 1);
        } else {
            assert(new[j] == cs[j - n]);
        }
    }
}

/// The policy that a run uses unless it is given another.
pub type DefaultPolicy = MaxWeightedScorePolicy;

/// A non-empty sequence of keys has a last position of its largest key.
proof fn lemma_last_max_exists(keys: Seq<int>)
    requires
        keys.len() > 0,
    ensures
        exists|i: int| is_last_max(keys, i),
    decreases keys.len(),
{
    let n = keys.len() - 1;
    if n == 0 {
        assert(is_last_max(keys, 0));
    } else {
        let d = keys.drop_last();
        lemma_last_max_exists(d);
        let k = choose|k: int| is_last_max(d, k);
        assert forall|j: int| 0 <= j < n implies #[trigger] keys[j] == d[j] by {}
        if keys[n] >= keys[k] {
            assert forall|j: int| 0 <= j < keys.len() implies #[trigger] keys[j] <= keys[n] by {
                if j < n {
                    assert(d[j] <= d[k]);
                }
            }
            assert(is_last_max(keys, n));
        } else {
            assert forall|j: int| 0 <= j < keys.len() implies #[trigger] keys[j] <= keys[k] by {
                if j < n {
                    assert(d[j] <= d[k]);
                }
            }
            assert forall|j: int| k < j < keys.len() implies #[trigger] keys[j] < keys[k] by {
                if j < n {
                    assert(d[j] < d[k]);
                }
            }
            assert(is_last_max(keys, k));
        }
    }
}

/// A non-empty sequence of keys has a first position of its smallest key.
proof fn lemma_first_min_exists(keys: Seq<int>)
    requires
        keys.len() > 0,
    ensures
        exists|i: int| is_first_min(keys, i),
{
    let neg = Seq::new(keys.len(), |j: int| -keys[j]);
    let rev = Seq::new(keys.len(), |j: int| neg[keys.len() - 1 - j]);
    lemma_last_max_exists(rev);
    let k = choose|k: int| is_last_max(rev, k);
    let i = keys.len() - 1 - k;
    assert forall|j: int| 0 <= j < keys.len() implies keys[i] <= #[trigger] keys[j] by {
        assert(rev[keys.len() - 1 - j] <= rev[k]);
    }
    assert forall|j: int| 0 <= j < i implies keys[i] < #[trigger] keys[j] by {
        assert(rev[keys.len() - 1 - j] < rev[k]);
    }
    assert(is_first_min(keys, i));
}

/// On non-empty keys `last_max_choice` is a last position of the largest key.
proof fn lemma_last_max_choice_is_last_max(keys: Seq<int>)
    requires
        0 < keys.len() <= usize::MAX,
    ensures
        last_max_choice(keys) is Some,
        is_last_max(keys, last_max_choice(keys)->0 as int),
{
    lemma_last_max_exists(keys);
}

/// On non-empty keys `first_min_choice` is a first position of the smallest key.
proof fn lemma_first_min_choice_is_first_min(keys: Seq<int>)
    requires
        0 < keys.len() <= usize::MAX,
    ensures
        first_min_choice(keys) is Some,
        is_first_min(keys, first_min_choice(keys)->0 as int),
{
    lemma_first_min_exists(keys);
}

/// `LargestAreaPolicy` picks a leaf of a non-empty tree whose area (width
/// times height) no leaf exceeds, and no later leaf has that area.
pub proof fn lemma_largest_area_policy_picks_largest_area<D>(tree: QuadTree<D>)
    requires
        0 < tree.spec_leaves().len() <= usize::MAX,
    ensures
        ({
            let leaves = tree.spec_leaves();
            let c = <LargestAreaPolicy as RefinementPolicy<D>>::spec_choose_leaf(&LargestAreaPolicy, tree);
            &&& c is Some
            &&& c->0 < leaves.len()
            &&& forall|j: int|
                0 <= j < leaves.len() ==> (#[trigger] leaves[j]).spec_bounds().spec_width()
                    * leaves[j].spec_bounds().spec_height() <= leaves[c->0 as int].spec_bounds().spec_width()
                    * leaves[c->0 as int].spec_bounds().spec_height()
            &&& forall|j: int|
                c->0 < j < leaves.len() ==> (#[trigger] leaves[j]).spec_bounds().spec_width()
                    * leaves[j].spec_bounds().spec_height() < leaves[c->0 as int].spec_bounds().spec_width()
                    * leaves[c->0 as int].spec_bounds().spec_height()
        }),
{
    let leaves = tree.spec_leaves();
    let keys = area_keys(leaves);
    lemma_last_max_choice_is_last_max(keys);
    let i = last_max_choice(keys)->0 as int;
    assert forall|j: int| 0 <= j < leaves.len() implies (#[trigger] leaves[j]).spec_bounds().spec_width()
        * leaves[j].spec_bounds().spec_height() <= leaves[i].spec_bounds().spec_width()
        * leaves[i].spec_bounds().spec_height() by {
        assert(keys[j] <= keys[i]);
    }
    assert forall|j: int| i < j < leaves.len() implies (#[trigger] leaves[j]).spec_bounds().spec_width()
        * leaves[j].spec_bounds().spec_height() < leaves[i].spec_bounds().spec_width()
        * leaves[i].spec_bounds().spec_height() by {
        assert(keys[j] < keys[i]);
    }
}

/// `LargestDiameterPolicy` picks a leaf of a non-empty tree whose squared
/// diagonal (width squared plus height squared) no leaf exceeds, and no
/// later leaf has that diagonal.
pub proof fn lemma_largest_diameter_policy_picks_longest_diagonal<D>(tree: QuadTree<D>)
    requires
        0 < tree.spec_leaves().len() <= usize::MAX,
    ensures
        ({
            let leaves = tree.spec_leaves();
            let c = <LargestDiameterPolicy as RefinementPolicy<D>>::spec_choose_leaf(&LargestDiameterPolicy, tree);
            let d = |j: int|
                leaves[j].spec_bounds().spec_width() * leaves[j].spec_bounds().spec_width()
                    + leaves[j].spec_bounds().spec_height() * leaves[j].spec_bounds().spec_height();
            &&& c is Some
            &&& c->0 < leaves.len()
            &&& forall|j: int| 0 <= j < leaves.len() ==> #[trigger] d(j) <= d(c->0 as int)
            &&& forall|j: int| c->0 < j < leaves.len() ==> #[trigger] d(j) < d(c->0 as int)
        }),
{
    let leaves = tree.spec_leaves();
    let keys = diagonal_keys(leaves);
    lemma_last_max_choice_is_last_max(keys);
    let i = last_max_choice(keys)->0 as int;
    let d = |j: int|
        leaves[j].spec_bounds().spec_width() * leaves[j].spec_bounds().spec_width()
            + leaves[j].spec_bounds().spec_height() * leaves[j].spec_bounds().spec_height();
    assert forall|j: int| 0 <= j < leaves.len() implies #[trigger] d(j) <= d(i) by {
        assert(keys[j] <= keys[i]);
    }
    assert forall|j: int| i < j < leaves.len() implies #[trigger] d(j) < d(i) by {
        assert(keys[j] < keys[i]);
    }
}

/// `ShallowestFirstPolicy` picks the first leaf of least depth of a
/// non-empty tree: no leaf is shallower, and every earlier leaf is deeper.
pub proof fn lemma_shallowest_first_policy_picks_first_shallowest<D>(tree: QuadTree<D>)
    requires
        0 < tree.spec_leaves().len() <= usize::MAX,
    ensures
        ({
            let leaves = tree.spec_leaves();
            let c = <ShallowestFirstPolicy as RefinementPolicy<D>>::spec_choose_leaf(&ShallowestFirstPolicy, tree);
            &&& c is Some
            &&& c->0 < leaves.len()
            &&& forall|j: int| 0 <= j < leaves.len() ==> leaves[c->0 as int].spec_depth() <= (#[trigger] leaves[j]).spec_depth()
            &&& forall|j: int| 0 <= j < c->0 ==> leaves[c->0 as int].spec_depth() < (#[trigger] leaves[j]).spec_depth()
        }),
{
    let leaves = tree.spec_leaves();
    let keys = depth_keys(leaves);
    lemma_first_min_choice_is_first_min(keys);
    let i = first_min_choice(keys)->0 as int;
    assert forall|j: int| 0 <= j < leaves.len() implies leaves[i].spec_depth() <= (#[trigger] leaves[j]).spec_depth() by {
        assert(keys[i] <= keys[j]);
    }
    assert forall|j: int| 0 <= j < i implies leaves[i].spec_depth() < (#[trigger] leaves[j]).spec_depth() by {
        assert(keys[i] < keys[j]);
    }
}

/// `DeepestFirstPolicy` picks the last leaf of greatest depth of a
/// non-empty tree: no leaf is deeper, and every later leaf is shallower.
pub proof fn lemma_deepest_first_policy_picks_last_deepest<D>(tree: QuadTree<D>)
    requires
        0 < tree.spec_leaves().len() <= usize::MAX,
    ensures
        ({
            let leaves = tree.spec_leaves();
            let c = <DeepestFirstPolicy as RefinementPolicy<D>>::spec_choose_leaf(&DeepestFirstPolicy, tree);
            &&& c is Some
            &&& c->0 < leaves.len()
            &&& forall|j: int| 0 <= j < leaves.len() ==> (#[trigger] leaves[j]).spec_depth() <= leaves[c->0 as int].spec_depth()
            &&& forall|j: int| c->0 < j < leaves.len() ==> (#[trigger] leaves[j]).spec_depth() < leaves[c->0 as int].spec_depth()
        }),
{
    let leaves = tree.spec_leaves();
    let keys = depth_keys(leaves);
    lemma_last_max_choice_is_last_max(keys);
    let i = last_max_choice(keys)->0 as int;
    assert forall|j: int| 0 <= j < leaves.len() implies (#[trigger] leaves[j]).spec_depth() <= leaves[i].spec_depth() by {
        assert(keys[j] <= keys[i]);
    }
    assert forall|j: int| i < j < leaves.len() implies (#[trigger] leaves[j]).spec_depth() < leaves[i].spec_depth() by {
        assert(keys[j] < keys[i]);
    }
}

/// `MaxScorePolicy` picks a leaf of a non-empty tree whose data scores at
/// least as high as every leaf's, and higher than every later leaf's.
pub proof fn lemma_max_score_policy_picks_highest_score<D: CellScore>(tree: QuadTree<D>)
    requires
        0 < tree.spec_leaves().len() <= usize::MAX,
    ensures
        ({
            let leaves = tree.spec_leaves();
            let c = <MaxScorePolicy as RefinementPolicy<D>>::spec_choose_leaf(&MaxScorePolicy, tree);
            &&& c is Some
            &&& c->0 < leaves.len()
            &&& forall|j: int|
                0 <= j < leaves.len() ==> (#[trigger] leaves[j]).spec_data().spec_score() <= leaves[c->0 as int].spec_data().spec_score()
            &&& forall|j: int|
                c->0 < j < leaves.len() ==> (#[trigger] leaves[j]).spec_data().spec_score() < leaves[c->0 as int].spec_data().spec_score()
        }),
{
    let leaves = tree.spec_leaves();
    let keys = score_ints(scores_of(leaves));
    lemma_last_max_choice_is_last_max(keys);
    let i = last_max_choice(keys)->0 as int;
    assert forall|j: int| 0 <= j < leaves.len() implies (#[trigger] leaves[j]).spec_data().spec_score()
        <= leaves[i].spec_data().spec_score() by {
        assert(keys[j] <= keys[i]);
    }
    assert forall|j: int| i < j < leaves.len() implies (#[trigger] leaves[j]).spec_data().spec_score()
        < leaves[i].spec_data().spec_score() by {
        assert(keys[j] < keys[i]);
    }
}

/// `MaxWeightedScorePolicy` picks a leaf of a non-empty tree whose score
/// times area (width times height) is at least every leaf's, and greater
/// than every later leaf's.
pub proof fn lemma_max_weighted_policy_picks_highest_score_times_area<D: CellScore>(tree: QuadTree<D>)
    requires
        0 < tree.spec_leaves().len() <= usize::MAX,
    ensures
        ({
            let leaves = tree.spec_leaves();
            let c = <MaxWeightedScorePolicy as RefinementPolicy<D>>::spec_choose_leaf(&MaxWeightedScorePolicy, tree);
            let w = |j: int|
                leaves[j].spec_data().spec_score() * (leaves[j].spec_bounds().spec_width()
                    * leaves[j].spec_bounds().spec_height());
            &&& c is Some
            &&& c->0 < leaves.len()
            &&& forall|j: int| 0 <= j < leaves.len() ==> #[trigger] w(j) <= w(c->0 as int)
            &&& forall|j: int| c->0 < j < leaves.len() ==> #[trigger] w(j) < w(c->0 as int)
        }),
{
    let leaves = tree.spec_leaves();
    let keys = weighted_keys(leaves, scores_of(leaves));
    lemma_last_max_choice_is_last_max(keys);
    let i = last_max_choice(keys)->0 as int;
    let w = |j: int|
        leaves[j].spec_data().spec_score() * (leaves[j].spec_bounds().spec_width()
            * leaves[j].spec_bounds().spec_height());
    assert forall|j: int| 0 <= j < leaves.len() implies #[trigger] w(j) <= w(i) by {
        assert(keys[j] <= keys[i]);
    }
    assert forall|j: int| i < j < leaves.len() implies #[trigger] w(j) < w(i) by {
        assert(keys[j] < keys[i]);
    }
}

} // verus!
