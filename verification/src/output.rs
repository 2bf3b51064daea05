//! Leaves as a refinement run reports them.
use vstd::prelude::*;

use crate::{
    geometry::{Point, Rect},
    cell::Cell,
    scaling::{lemma_map_identity, spec_map_rect, Scaler2D, ScalerError},
    tree::{sum_area, QuadTree},
};

verus! {

/// A leaf of a finished run: its bounds in the raw domain, its depth, and a
/// reference to its data.
#[derive(Debug, Clone, Copy)]
pub struct RawLeaf<'a, D> {
    bounds: Rect,
    depth: usize,
    data: &'a D,
}

impl<'a, D> RawLeaf<'a, D> {
    pub closed spec fn spec_bounds(&self) -> Rect {
        self.bounds
    }

    pub closed spec fn spec_depth(&self) -> usize {
        self.depth
    }

    pub closed spec fn spec_data(&self) -> &'a D {
        self.data
    }

    pub fn new(bounds: Rect, depth: usize, data: &'a D) -> (r: Self)
        ensures
            r.spec_bounds() == bounds,
            r.spec_depth() == depth,
            r.spec_data() == data,
    {
        RawLeaf { bounds, depth, data }
    }

    pub fn centre(&self) -> (r: Point)
        ensures
            r == self.spec_bounds().spec_centre(),
    {
        self.bounds.centre()
    }

    pub fn bounds(&self) -> (r: Rect)
        ensures
            r == self.spec_bounds(),
    {
        self.bounds
    }

    pub fn area(&self) -> (r: i128)
        requires
            self.spec_bounds().bounded(),
        ensures
            r == self.spec_bounds().spec_area(),
    {
        self.bounds.area()
    }

    pub fn depth(&self) -> (r: usize)
        ensures
            r == self.spec_depth(),
    {
        self.depth
    }

    pub fn data(&self) -> (r: &'a D)
        ensures
            r == self.spec_data(),
    {
        self.data
    }
}

/// The raw bounds of leaf `i` of `tree`: its bounds mapped from the scaled
/// domain of `scaler` to the raw domain.
pub open spec fn raw_bounds<D>(tree: QuadTree<D>, scaler: Scaler2D, i: int) -> Result<Rect, ScalerError> {
    spec_map_rect(tree.spec_leaves()[i].spec_bounds(), scaler.spec_scaled(), scaler.spec_raw())
}

/// The bounds of the leaves of `tree` in the raw domain of `scaler`, in
/// order; the error of the first leaf that cannot be mapped, if one cannot.
pub fn raw_leaves<D>(tree: &QuadTree<D>, scaler: &Scaler2D) -> (r: Result<Vec<Rect>, ScalerError>)
    requires
        scaler.spec_scaled().spec_width() != 0,
        scaler.spec_scaled().spec_height() != 0,
        scaler.spec_scaled().bounded(),
        scaler.spec_raw().bounded(),
    ensures
        r is Ok <==> forall|i: int| 0 <= i < tree.spec_leaves().len() ==> (#[trigger] raw_bounds(*tree, *scaler, i)) is Ok,
        r matches Ok(v) ==> {
            &&& v@.len() == tree.spec_leaves().len()
            &&& forall|i: int| 0 <= i < v@.len() ==> raw_bounds(*tree, *scaler, i) == Ok::<Rect, ScalerError>(#[trigger] v@[i])
            &&& forall|i: int| 0 <= i < v@.len() ==> (#[trigger] v@[i]).valid()
        },
        r matches Err(e) ==> exists|i: int|
            0 <= i < tree.spec_leaves().len() && #[trigger] raw_bounds(*tree, *scaler, i) == Err::<Rect, ScalerError>(e)
                && forall|j: int| 0 <= j < i ==> (#[trigger] raw_bounds(*tree, *scaler, j)) is Ok,
{
    let len = tree.leaf_count();
    let mut rects: Vec<Rect> = Vec::new();
    let mut i: usize = 0;
    while i < len
        invariant
            len == tree.spec_leaves().len(),
            scaler.spec_scaled().spec_width() != 0,
            scaler.spec_scaled().spec_height() != 0,
            scaler.spec_scaled().bounded(),
            scaler.spec_raw().bounded(),
            i <= len,
            rects@.len() == i,
            forall|j: int| 0 <= j < i ==> raw_bounds(*tree, *scaler, j) == Ok::<Rect, ScalerError>(#[trigger] rects@[j]),
            forall|j: int| 0 <= j < i ==> (#[trigger] rects@[j]).valid(),
        decreases len - i,
    {
        let b = tree.leaf(i).unwrap().bounds();
        match scaler.to_raw_rect(b) {
            Ok(rr) => {
                rects.push(rr);
            },
            Err(e) => {
                assert(raw_bounds(*tree, *scaler, i as int) == Err::<Rect, ScalerError>(e));
                assert forall|j: int| 0 <= j < i implies (#[trigger] raw_bounds(*tree, *scaler, j)) is Ok by {
                    assert(raw_bounds(*tree, *scaler, j) == Ok::<Rect, ScalerError>(rects@[j]));
                }
                return Err(e);
            },
        }
        i = i + 1;
    }
    assert forall|j: int| 0 <= j < len implies (#[trigger] raw_bounds(*tree, *scaler, j)) is Ok by {
        assert(raw_bounds(*tree, *scaler, j) == Ok::<Rect, ScalerError>(rects@[j]));
    }
    Ok(rects)
}

/// The sum of the areas of `rects`.
pub open spec fn sum_rect_area(rects: Seq<Rect>) -> int
    decreases rects.len(),
{
    if rects.len() == 0 {
        0
    } else {
        sum_rect_area(rects.drop_last()) + rects.last().spec_area()
    }
}

/// The total area of valid, bounded rectangles, or `None` when it does not
/// fit in a `u128`.
pub fn total_area(rects: &Vec<Rect>) -> (r: Option<u128>)
    requires
        forall|i: int| 0 <= i < rects@.len() ==> (#[trigger] rects@[i]).valid() && rects@[i].bounded(),
    ensures
        r == (if sum_rect_area(rects@) <= u128::MAX {
            Some(sum_rect_area(rects@) as u128)
        } else {
            None::<u128>
        }),
{
    let len = rects.len();
    let mut total: u128 = 0;
    let mut i: usize = 0;
    proof {
        assert(rects@.take(0) =~= Seq::<Rect>::empty());
    }
    while i < len
        invariant
            len == rects@.len(),
            forall|k: int| 0 <= k < rects@.len() ==> (#[trigger] rects@[k]).valid() && rects@[k].bounded(),
            i <= len,
            total == sum_rect_area(rects@.take(i as int)),
        decreases len - i,
    {
        let rect = rects[i];
        let a = rect.area();
        proof {
            assert(rects@.take(i + 1).drop_last() =~= rects@.take(i as int));
            assert(rect.valid());
            lemma_valid_area_positive(rect);
            lemma_prefix_area_bounded(rects@, i + 1);
        }
        match total.checked_add(a as u128) {
            Some(t) => {
                total = t;
            },
            None => {
                return None;
            },
        }
        i = i + 1;
    }
    proof {
        assert(rects@.take(len as int) =~= rects@);
    }
    Some(total)
}

/// A valid rectangle has a positive area.
proof fn lemma_valid_area_positive(r: Rect)
    requires
        r.valid(),
    ensures
        0 < r.spec_area(),
{
    let w = r.spec_width();
    let h = r.spec_height();
    assert(0 < w * h) by (nonlinear_arith)
        requires
            0 < w,
            0 < h,
    ;
}

/// For valid rectangles, a prefix has no more area than the whole.
proof fn lemma_prefix_area_bounded(rects: Seq<Rect>, n: int)
    requires
        0 <= n <= rects.len(),
        forall|i: int| 0 <= i < rects.len() ==> (#[trigger] rects[i]).valid(),
    ensures
        0 <= sum_rect_area(rects.take(n)) <= sum_rect_area(rects),
    decreases rects.len(),
{
    if rects.len() == 0 {
        assert(rects.take(n) =~= rects);
    } else if n == rects.len() {
        assert(rects.take(n) =~= rects);
        lemma_prefix_area_bounded(rects.drop_last(), n - 1);
        assert(rects.drop_last().take(n - 1) =~= rects.drop_last());
        lemma_valid_area_positive(rects.last());
    } else {
        let d = rects.drop_last();
        assert forall|i: int| 0 <= i < d.len() implies (#[trigger] d[i]).valid() by {
            assert(d[i] == rects[i]);
        }
        lemma_prefix_area_bounded(d, n);
        assert(d.take(n) =~= rects.take(n));
        lemma_valid_area_positive(rects.last());
    }
}

/// Adding a rectangle adds its area, width times height, to the total.
pub proof fn lemma_sum_rect_area_push(s: Seq<Rect>, r: Rect)
    ensures
        sum_rect_area(s.push(r)) == sum_rect_area(s) + r.spec_width() * r.spec_height(),
{
    assert(s.push(r).drop_last() =~= s);
}

/// The total area of two runs of rectangles is the sum of their totals.
pub proof fn lemma_sum_rect_area_append(a: Seq<Rect>, b: Seq<Rect>)
    ensures
        sum_rect_area(a + b) == sum_rect_area(a) + sum_rect_area(b),
    decreases b.len(),
{
    if b.len() == 0 {
        assert(a + b =~= a);
    } else {
        lemma_sum_rect_area_append(a, b.drop_last());
        assert((a + b).drop_last() =~= a + b.drop_last());
        assert((a + b).last() == b.last());
    }
}

/// The bounds of the cells `leaves`, in order.
pub open spec fn bounds_of<D>(leaves: Seq<Cell<D>>) -> Seq<Rect> {
    Seq::new(leaves.len(), |i: int| leaves[i].spec_bounds())
}

/// The total area of the bounds of some cells is the total area of the cells.
pub proof fn lemma_sum_rect_area_of_leaves<D>(leaves: Seq<Cell<D>>)
    ensures
        sum_rect_area(bounds_of(leaves)) == sum_area(leaves),
    decreases leaves.len(),
{
    if leaves.len() > 0 {
        lemma_sum_rect_area_of_leaves(leaves.drop_last());
        assert(bounds_of(leaves).drop_last() =~= bounds_of(leaves.drop_last()));
    }
}

/// Mapped through a scaler whose raw and scaled domains are both the root of
/// a tree, every leaf keeps its bounds, and the leaves' total area is the
/// area of the root, width times height.
pub proof fn lemma_identity_raw_leaves_total_root_area<D>(tree: QuadTree<D>, scaler: Scaler2D)
    requires
        tree.wf(),
        tree.spec_root().valid(),
        scaler.spec_raw() == tree.spec_root(),
        scaler.spec_scaled() == tree.spec_root(),
    ensures
        forall|i: int|
            0 <= i < tree.spec_leaves().len() ==> #[trigger] raw_bounds(tree, scaler, i) == Ok::<Rect, ScalerError>(
                tree.spec_leaves()[i].spec_bounds(),
            ),
        sum_rect_area(bounds_of(tree.spec_leaves())) == tree.spec_root().spec_width() * tree.spec_root().spec_height(),
{
    let leaves = tree.spec_leaves();
    let root = tree.spec_root();
    assert forall|i: int| 0 <= i < leaves.len() implies #[trigger] raw_bounds(tree, scaler, i) == Ok::<Rect, ScalerError>(
        leaves[i].spec_bounds(),
    ) by {
        let b = leaves[i].spec_bounds();
        assert(root.contains_rect(b));
        if leaves.len() == 1 {
            assert(i == 0);
        }
        assert(b.valid());
        lemma_map_identity(Point { x: b.x_min, y: b.y_min }, root);
        lemma_map_identity(Point { x: b.x_max, y: b.y_max }, root);
    }
    lemma_sum_rect_area_of_leaves(leaves);
}

} // verus!
