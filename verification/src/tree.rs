//! # Quadtree
//!
//! The mutable state of an adaptive quadtree.
//!
//! The tree stores only the current leaf cells. Internal nodes are discarded
//! once split, since refinement algorithms operate only on the active
//! partition of the domain. Each refinement step replaces one leaf by its four
//! children, so each refinement increases the number of leaves by three.
//!
//! The tree itself is policy-free. It provides only the operations required to
//! maintain a valid adaptive partition:
//!
//! - store the current leaf set,
//! - split a leaf,
//! - enforce maximum depth,
//! - enforce maximum leaf count.
use vstd::prelude::*;

use crate::{
    cell::Cell,
    geometry::{
        lemma_area_bounds, lemma_quadrants_cover, lemma_quadrants_ok_iff_two_steps, lemma_quadrants_partition, Point,
        Rect,
    },
    oracle::{evaluated_in_order, evaluation_step, QuadOracle},
    policy::{area_keys, is_last_max, last_argmax, leaf_key_vec, LeafKey},
    scaling::ScalerError,
};

verus! {

/// Why a leaf could not be split.
#[derive(Debug, Clone, Copy, PartialEq, Eq, Structural)]
pub enum TreeError {
    LeafIndexOutOfBounds { index: usize, len: usize },
    MaxDepthExceeded { depth: usize, max_depth: usize },
    MaxLeavesExceeded { max_leaves: usize },
    Rect(ScalerError),
}

impl From<ScalerError> for TreeError {
    fn from(e: ScalerError) -> (r: TreeError) {
        TreeError::Rect(e)
    }
}

impl vstd::std_specs::convert::FromSpecImpl<ScalerError> for TreeError {
    open spec fn obeys_from_spec() -> bool {
        true
    }

    open spec fn from_spec(e: ScalerError) -> TreeError {
        TreeError::Rect(e)
    }
}

/// The sum of the areas of the cells of `s`.
pub open spec fn sum_area<D>(s: Seq<Cell<D>>) -> int
    decreases s.len(),
{
    if s.len() == 0 {
        0
    } else {
        sum_area(s.drop_last()) + s.last().spec_bounds().spec_area()
    }
}

/// Every point of `root` lies in some leaf.
pub open spec fn covers<D>(root: Rect, leaves: Seq<Cell<D>>) -> bool {
    forall|p: Point|
        #[trigger] root.spec_contains(p) ==> exists|i: int|
            0 <= i < leaves.len() && (#[trigger] leaves[i].spec_bounds()).spec_contains(p)
}

/// The leaves partition the root: each lies in the root, no two share an
/// interior point, every point of the root lies in one of them, and together
/// they have the area of the root.
pub open spec fn is_partition<D>(root: Rect, leaves: Seq<Cell<D>>) -> bool {
    &&& covers(root, leaves)
    &&& forall|i: int| 0 <= i < leaves.len() ==> root.contains_rect(#[trigger] leaves[i].spec_bounds())
    &&& forall|i: int, j: int|
        0 <= i < leaves.len() && 0 <= j < leaves.len() && i != j
            ==> (#[trigger] leaves[i].spec_bounds()).interiors_disjoint(#[trigger] leaves[j].spec_bounds())
    &&& sum_area(leaves) == root.spec_area()
}

/// The cells `cs` are the four children of `parent`: its quadrants, in
/// order, one level deeper.
pub open spec fn are_children_of<D>(parent: Cell<D>, cs: Seq<Cell<D>>) -> bool {
    &&& parent.spec_bounds().spec_quadrants() is Ok
    &&& cs.len() == 4
    &&& forall|k: int|
        0 <= k < 4 ==> {
            &&& (#[trigger] cs[k]).spec_bounds() == parent.spec_bounds().quadrant_rects()[k]
            &&& cs[k].spec_depth() == parent.spec_depth() + 1
        }
}

/// The leaves after splitting leaf `index` of `old` into `cs`: the other
/// leaves keep their order and the children follow them.
pub open spec fn split_leaves<D>(old: Seq<Cell<D>>, index: int, cs: Seq<Cell<D>>) -> Seq<Cell<D>> {
    old.remove(index) + cs
}

/// An adaptive quadtree storing the active partition of a rectangular domain.
///
/// The tree owns only leaf cells; internal nodes are not retained.
#[derive(Debug, Clone)]
pub struct QuadTree<D> {
    root: Rect,
    leaves: Vec<Cell<D>>,
    max_depth: usize,
    max_leaves: usize,
}

impl<D> QuadTree<D> {
    pub closed spec fn spec_root(&self) -> Rect {
        self.root
    }

    pub closed spec fn spec_leaves(&self) -> Seq<Cell<D>> {
        self.leaves@
    }

    pub closed spec fn spec_max_depth(&self) -> usize {
        self.max_depth
    }

    pub closed spec fn spec_max_leaves(&self) -> usize {
        self.max_leaves
    }

    /// The invariants of a tree:
    ///
    /// - the root lies within `COORD_LIMIT` of the origin, and the leaves
    ///   partition it;
    /// - there is at least one leaf, and every leaf is a valid rectangle
    ///   unless the root is the only leaf;
    /// - a lone leaf is the root itself;
    /// - every leaf depth is at most `max_depth`;
    /// - the number of leaves is at most `max_leaves` (or 1, the root alone)
    ///   and is one more than a multiple of three.
    pub open spec fn wf(&self) -> bool {
        let leaves = self.spec_leaves();
        &&& leaves.len() >= 1
        &&& self.spec_root().bounded()
        &&& is_partition(self.spec_root(), leaves)
        &&& leaves.len() == 1 ==> leaves[0].spec_bounds() == self.spec_root()
        &&& leaves.len() == 1 || forall|i: int| 0 <= i < leaves.len() ==> (#[trigger] leaves[i]).spec_bounds().valid()
        &&& forall|i: int| 0 <= i < leaves.len() ==> (#[trigger] leaves[i]).spec_depth() <= self.spec_max_depth()
        &&& leaves.len() <= self.spec_max_leaves() || leaves.len() == 1
        &&& leaves.len() % 3 == 1
    }

    /// What `split_leaf` decides for leaf `index`: the quadrants of the leaf,
    /// or the first limit that the split would break.
    pub open spec fn split_outcome(&self, index: usize) -> Result<Seq<Rect>, TreeError> {
        let leaves = self.spec_leaves();
        if index >= leaves.len() {
            Err(TreeError::LeafIndexOutOfBounds { index, len: leaves.len() as usize })
        } else if leaves[index as int].spec_depth() >= self.spec_max_depth() {
            Err(
                TreeError::MaxDepthExceeded {
                    depth: leaves[index as int].spec_depth(),
                    max_depth: self.spec_max_depth(),
                },
            )
        } else if leaves.len() + 3 > self.spec_max_leaves() {
            Err(TreeError::MaxLeavesExceeded { max_leaves: self.spec_max_leaves() })
        } else {
            match leaves[index as int].spec_bounds().spec_quadrants() {
                Err(e) => Err(TreeError::Rect(e)),
                Ok(q) => Ok(q),
            }
        }
    }

    /// A tree whose only leaf is `root`, at depth 0, carrying `root_data`.
    pub fn new(root: Rect, root_data: D, max_depth: usize, max_leaves: usize) -> (r: Self)
        requires
            root.bounded(),
        ensures
            r.spec_root() == root,
            r.spec_leaves().len() == 1,
            r.spec_leaves()[0].spec_bounds() == root,
            r.spec_leaves()[0].spec_depth() == 0,
            r.spec_leaves()[0].spec_data() == root_data,
            r.spec_max_depth() == max_depth,
            r.spec_max_leaves() == max_leaves,
            r.wf(),
    {
        let mut leaves = Vec::new();
        leaves.push(Cell::new(root, 0, root_data));
        let r = Self { root, leaves, max_depth, max_leaves };
        proof {
            let s = r.spec_leaves();
            assert(s =~= seq![s[0]]);
            lemma_sum_area_single(s[0]);
            assert forall|p: Point| #[trigger] root.spec_contains(p) implies exists|i: int|
                0 <= i < s.len() && (#[trigger] s[i].spec_bounds()).spec_contains(p) by {
                assert(s[0].spec_bounds().spec_contains(p));
            }
        }
        r
    }

    pub fn root(&self) -> (r: Rect)
        ensures
            r == self.spec_root(),
    {
        self.root
    }

    pub fn leaf_count(&self) -> (r: usize)
        ensures
            r == self.spec_leaves().len(),
    {
        self.leaves.len()
    }

    pub fn max_depth(&self) -> (r: usize)
        ensures
            r == self.spec_max_depth(),
    {
        self.max_depth
    }

    pub fn max_leaves(&self) -> (r: usize)
        ensures
            r == self.spec_max_leaves(),
    {
        self.max_leaves
    }

    /// Iterates over the leaves, in order.
    pub fn iter(&self) -> (r: std::slice::Iter<'_, Cell<D>>)
        ensures
            vstd::std_specs::iter::IteratorSpec::remaining(&r) == self.spec_leaves().as_ref(),
    {
        self.leaves.as_slice().iter()
    }

    /// A copy of the tree: the same root, limits and leaf geometry, with each
    /// leaf's data cloned.
    pub(crate) fn duplicate(&self) -> (r: Self)
        where
            D: Clone,
        ensures
            r.spec_root() == self.spec_root(),
            r.spec_max_depth() == self.spec_max_depth(),
            r.spec_max_leaves() == self.spec_max_leaves(),
            r.spec_leaves().len() == self.spec_leaves().len(),
            forall|i: int|
                0 <= i < self.spec_leaves().len() ==> {
                    &&& (#[trigger] r.spec_leaves()[i]).spec_bounds() == self.spec_leaves()[i].spec_bounds()
                    &&& r.spec_leaves()[i].spec_depth() == self.spec_leaves()[i].spec_depth()
                    &&& cloned(self.spec_leaves()[i].spec_data(), r.spec_leaves()[i].spec_data())
                },
            self.wf() ==> r.wf(),
    {
        let len = self.leaves.len();
        let mut leaves: Vec<Cell<D>> = Vec::new();
        let mut i: usize = 0;
        while i < len
            invariant
                len == self.leaves@.len(),
                i <= len,
                leaves@.len() == i,
                forall|j: int|
                    0 <= j < i ==> {
                        &&& (#[trigger] leaves@[j]).spec_bounds() == self.leaves@[j].spec_bounds()
                        &&& leaves@[j].spec_depth() == self.leaves@[j].spec_depth()
                        &&& cloned(self.leaves@[j].spec_data(), leaves@[j].spec_data())
                    },
            decreases len - i,
        {
            let c = &self.leaves[i];
            let d = c.data().clone();
            leaves.push(Cell::new(c.bounds(), c.depth(), d));
            i = i + 1;
        }
        let r = QuadTree { root: self.root, leaves, max_depth: self.max_depth, max_leaves: self.max_leaves };
        proof {
            lemma_same_geometry_keeps_wf(*self, r);
        }
        r
    }

    /// The leaf at `index`, if there is one.
    pub fn leaf(&self, index: usize) -> (r: Option<&Cell<D>>)
        ensures
            r is Some <==> index < self.spec_leaves().len(),
            r matches Some(c) ==> *c == self.spec_leaves()[index as int],
    {
        if index < self.leaves.len() {
            Some(&self.leaves[index])
        } else {
            None
        }
    }

    /// The data of the leaf at `index`, for updating in place; the geometry
    /// of the tree cannot change through it.
    pub fn leaf_mut(&mut self, index: usize) -> (r: Option<&mut D>)
        ensures
            r is Some <==> index < old(self).spec_leaves().len(),
            r is None ==> *final(self) == *old(self),
            r matches Some(d) ==> {
                &&& *d == old(self).spec_leaves()[index as int].spec_data()
                &&& final(self).spec_root() == old(self).spec_root()
                &&& final(self).spec_max_depth() == old(self).spec_max_depth()
                &&& final(self).spec_max_leaves() == old(self).spec_max_leaves()
                &&& final(self).spec_leaves().len() == old(self).spec_leaves().len()
                &&& forall|j: int|
                    0 <= j < old(self).spec_leaves().len() && j != index ==> #[trigger] final(self).spec_leaves()[j]
                        == old(self).spec_leaves()[j]
                &&& final(self).spec_leaves()[index as int].spec_bounds() == old(self).spec_leaves()[index as int].spec_bounds()
                &&& final(self).spec_leaves()[index as int].spec_depth() == old(self).spec_leaves()[index as int].spec_depth()
                &&& final(self).spec_leaves()[index as int].spec_data() == *final(d)
            },
    {
        if index < self.leaves.len() {
            let cell = &mut self.leaves[index];
            let d = cell.data_mut();
            Some(d)
        } else {
            None
        }
    }

    /// Splits leaf `index` into its four quadrant children, whose data
    /// `make_data` computes from their bounds.
    ///
    /// Refused, with the tree left as it was, when `index` is not a leaf, the
    /// leaf is at `max_depth`, the split would take the tree past
    /// `max_leaves`, or the leaf is too small to be split.
    pub fn split_leaf<F: FnMut(Rect) -> D>(&mut self, index: usize, make_data: F) -> (r: Result<(), TreeError>)
        requires
            forall|b: Rect| call_requires(make_data, (b,)),
        ensures
            old(self).split_outcome(index) matches Err(e) ==> r == Err::<(), TreeError>(e) && *final(self) == *old(self),
            old(self).split_outcome(index) is Ok ==> {
                &&& r is Ok
                &&& final(self).spec_leaves().len() == old(self).spec_leaves().len() + 3
                &&& final(self).spec_root() == old(self).spec_root()
                &&& final(self).spec_max_depth() == old(self).spec_max_depth()
                &&& final(self).spec_max_leaves() == old(self).spec_max_leaves()
                &&& exists|cs: Seq<Cell<D>>| {
                    &&& are_children_of(old(self).spec_leaves()[index as int], cs)
                    &&& final(self).spec_leaves() == split_leaves(old(self).spec_leaves(), index as int, cs)
                    &&& forall|k: int| 0 <= k < 4 ==> call_ensures(make_data, ((#[trigger] cs[k]).spec_bounds(),), cs[k].spec_data())
                }
            },
            old(self).wf() ==> final(self).wf(),
    {
        let (qs, child_depth) = match self.check_split(index) {
            Ok(v) => v,
            Err(e) => {
                return Err(e);
            },
        };
        let mut make_data = make_data;
        let d0 = make_data(qs[0]);
        let d1 = make_data(qs[1]);
        let d2 = make_data(qs[2]);
        let d3 = make_data(qs[3]);
        let cs = self.install_children(index, qs, child_depth, d0, d1, d2, d3);
        proof {
            assert(forall|k: int| 0 <= k < 4 ==> call_ensures(make_data, ((#[trigger] cs@[k]).spec_bounds(),), cs@[k].spec_data()));
        }
        Ok(())
    }

    /// Splits leaf `index` as `split_leaf` does, with the data of each child
    /// computed by `oracle` from the child's bounds.
    /// The oracle is not called when the split is refused; otherwise it is
    /// called once per child, in quadrant order, on the child's bounds, and
    /// each child holds what its call returned.
    pub(crate) fn split_leaf_with<O: QuadOracle<Data = D>>(&mut self, index: usize, oracle: &mut O) -> (r: Result<(), TreeError>)
        ensures
            old(self).split_outcome(index) matches Err(e) ==> {
                &&& r == Err::<(), TreeError>(e)
                &&& *final(self) == *old(self)
                &&& *final(oracle) == *old(oracle)
            },
            old(self).split_outcome(index) is Ok ==> {
                &&& r is Ok
                &&& final(self).spec_leaves().len() == old(self).spec_leaves().len() + 3
                &&& final(self).spec_root() == old(self).spec_root()
                &&& final(self).spec_max_depth() == old(self).spec_max_depth()
                &&& final(self).spec_max_leaves() == old(self).spec_max_leaves()
                &&& exists|cs: Seq<Cell<D>>| {
                    &&& are_children_of(old(self).spec_leaves()[index as int], cs)
                    &&& #[trigger] final(self).spec_leaves() == split_leaves(old(self).spec_leaves(), index as int, cs)
                    &&& evaluated_in_order(*old(oracle), *final(oracle), cs)
                }
            },
            old(self).wf() ==> final(self).wf(),
    {
        let (qs, child_depth) = match self.check_split(index) {
            Ok(v) => v,
            Err(e) => {
                return Err(e);
            },
        };
        let ghost s0 = *oracle;
        let d0 = oracle.evaluate(qs[0]);
        let ghost s1 = *oracle;
        let d1 = oracle.evaluate(qs[1]);
        let ghost s2 = *oracle;
        let d2 = oracle.evaluate(qs[2]);
        let ghost s3 = *oracle;
        let d3 = oracle.evaluate(qs[3]);
        let ghost s4 = *oracle;
        let cs = self.install_children(index, qs, child_depth, d0, d1, d2, d3);
        proof {
            let states = seq![s0, s1, s2, s3, s4];
            assert(evaluation_step(states, cs@, 0));
            assert(evaluation_step(states, cs@, 1));
            assert(evaluation_step(states, cs@, 2));
            assert(evaluation_step(states, cs@, 3));
            assert(forall|k: int| 0 <= k < cs@.len() ==> #[trigger] evaluation_step(states, cs@, k));
            assert(states[0] == s0 && states[4] == s4);
            assert(evaluated_in_order(s0, s4, cs@));
        }
        Ok(())
    }

    /// Puts the children with bounds `qs`, depth `child_depth` and data
    /// `d0`..`d3` in place of leaf `index`, and returns them.
    fn install_children(
        &mut self,
        index: usize,
        qs: [Rect; 4],
        child_depth: usize,
        d0: D,
        d1: D,
        d2: D,
        d3: D,
    ) -> (cs: Ghost<Seq<Cell<D>>>)
        requires
            old(self).split_outcome(index) == Ok::<Seq<Rect>, TreeError>(qs@),
            child_depth == old(self).spec_leaves()[index as int].spec_depth() + 1,
        ensures
            are_children_of(old(self).spec_leaves()[index as int], cs@),
            forall|k: int| 0 <= k < 4 ==> (#[trigger] cs@[k]).spec_bounds() == qs@[k],
            cs@[0].spec_data() == d0,
            cs@[1].spec_data() == d1,
            cs@[2].spec_data() == d2,
            cs@[3].spec_data() == d3,
            final(self).spec_leaves() == split_leaves(old(self).spec_leaves(), index as int, cs@),
            final(self).spec_root() == old(self).spec_root(),
            final(self).spec_max_depth() == old(self).spec_max_depth(),
            final(self).spec_max_leaves() == old(self).spec_max_leaves(),
            old(self).wf() ==> final(self).wf(),
    {
        let c0 = Cell::new(qs[0], child_depth, d0);
        let c1 = Cell::new(qs[1], child_depth, d1);
        let c2 = Cell::new(qs[2], child_depth, d2);
        let c3 = Cell::new(qs[3], child_depth, d3);
        let ghost cs = seq![c0, c1, c2, c3];
        proof {
            assert(are_children_of(self.spec_leaves()[index as int], cs));
        }
        self.replace_leaf(index, c0, c1, c2, c3);
        Ghost(cs)
    }

    /// The checks of a split, in order, and the quadrants and depth of the
    /// children when they pass.
    fn check_split(&self, index: usize) -> (r: Result<([Rect; 4], usize), TreeError>)
        ensures
            r matches Err(e) ==> self.split_outcome(index) == Err::<Seq<Rect>, TreeError>(e),
            r matches Ok(v) ==> {
                &&& self.split_outcome(index) == Ok::<Seq<Rect>, TreeError>(v.0@)
                &&& v.1 == self.spec_leaves()[index as int].spec_depth() + 1
                &&& index < self.spec_leaves().len()
                &&& self.spec_leaves()[index as int].spec_depth() < self.spec_max_depth()
                &&& self.spec_leaves().len() + 3 <= self.spec_max_leaves()
            },
    {
        let len = self.leaves.len();
        if index >= len {
            return Err(TreeError::LeafIndexOutOfBounds { index, len });
        }
        let depth = self.leaves[index].depth();
        if depth >= self.max_depth {
            return Err(TreeError::MaxDepthExceeded { depth, max_depth: self.max_depth });
        }
        // Splitting one leaf removes one and adds four: net +3.
        if self.max_leaves < 3 || len > self.max_leaves - 3 {
            return Err(TreeError::MaxLeavesExceeded { max_leaves: self.max_leaves });
        }
        let leaf_bounds = self.leaves[index].bounds();
        match leaf_bounds.quadrants() {
            Ok(qs) => Ok((qs, depth + 1)),
            Err(e) => Err(TreeError::Rect(e)),
        }
    }

    /// The last leaf of largest area, if there is a leaf.
    pub fn largest_leaf_index(&self) -> (r: Option<usize>)
        requires
            self.wf(),
        ensures
            r is None <==> self.spec_leaves().len() == 0,
            r matches Some(i) ==> is_last_max(area_keys(self.spec_leaves()), i as int),
            r matches Some(i) ==> forall|j: int|
                0 <= j < self.spec_leaves().len() ==> (#[trigger] self.spec_leaves()[j]).spec_bounds().spec_width()
                    * self.spec_leaves()[j].spec_bounds().spec_height() <= self.spec_leaves()[i as int].spec_bounds().spec_width()
                    * self.spec_leaves()[i as int].spec_bounds().spec_height(),
            r matches Some(i) ==> forall|j: int|
                i < j < self.spec_leaves().len() ==> (#[trigger] self.spec_leaves()[j]).spec_bounds().spec_width()
                    * self.spec_leaves()[j].spec_bounds().spec_height() < self.spec_leaves()[i as int].spec_bounds().spec_width()
                    * self.spec_leaves()[i as int].spec_bounds().spec_height(),
    {
        let r = last_argmax(&leaf_key_vec(self, LeafKey::Area));
        proof {
            if let Some(m) = r {
                let l = self.spec_leaves();
                let k = area_keys(l);
                assert forall|j: int| 0 <= j < l.len() implies (#[trigger] l[j]).spec_bounds().spec_width()
                    * l[j].spec_bounds().spec_height() <= l[m as int].spec_bounds().spec_width()
                    * l[m as int].spec_bounds().spec_height() by {
                    assert(k[j] <= k[m as int]);
                }
                assert forall|j: int| m < j < l.len() implies (#[trigger] l[j]).spec_bounds().spec_width()
                    * l[j].spec_bounds().spec_height() < l[m as int].spec_bounds().spec_width()
                    * l[m as int].spec_bounds().spec_height() by {
                    assert(k[j] < k[m as int]);
                }
            }
        }
        r
    }

    /// The greatest depth of a leaf, or 0 when there is no leaf.
    pub fn max_leaf_depth(&self) -> (r: usize)
        ensures
            forall|j: int| 0 <= j < self.spec_leaves().len() ==> (#[trigger] self.spec_leaves()[j]).spec_depth() <= r,
            self.spec_leaves().len() == 0 ==> r == 0,
            self.spec_leaves().len() > 0 ==> exists|j: int| 0 <= j < self.spec_leaves().len() && (#[trigger] self.spec_leaves()[j]).spec_depth() == r,
    {
        let len = self.leaves.len();
        let mut best: usize = 0;
        let mut i: usize = 0;
        while i < len
            invariant
                len == self.leaves@.len(),
                i <= len,
                forall|j: int| 0 <= j < i ==> (#[trigger] self.leaves@[j]).spec_depth() <= best,
                i == 0 ==> best == 0,
                i > 0 ==> exists|j: int| 0 <= j < i && (#[trigger] self.leaves@[j]).spec_depth() == best,
            decreases len - i,
        {
            let d = self.leaves[i].depth();
            if d >= best {
                best = d;
            }
            i = i + 1;
        }
        best
    }

    /// The sum of the areas of the leaves, which is the area of the root.
    pub fn total_leaf_area(&self) -> (r: i128)
        requires
            self.wf(),
        ensures
            r == sum_area(self.spec_leaves()),
            r == self.spec_root().spec_area(),
    {
        let len = self.leaves.len();
        let ghost s = self.leaves@;
        let mut total: i128 = 0;
        let mut i: usize = 0;
        proof {
            lemma_area_bounds(self.root);
            assert(s.take(0) =~= Seq::<Cell<D>>::empty());
        }
        while i < len
            invariant
                len == s.len(),
                s == self.leaves@,
                self.wf(),
                i <= len,
                total == sum_area(s.take(i as int)),
                -0x4000_0000_0000_0000_0000_0000 <= sum_area(s) <= 0x4000_0000_0000_0000_0000_0000,
            decreases len - i,
        {
            proof {
                lemma_leaves_bounded(*self);
            }
            let a = self.leaves[i].area();
            proof {
                assert(s.take(i + 1).drop_last() =~= s.take(i as int));
                lemma_area_bounds(s[i as int].spec_bounds());
                if len > 1 {
                    lemma_sum_area_prefix_bounded(s, i + 1);
                } else {
                    assert(s.take(1) =~= s);
                }
            }
            total = total + a;
            i = i + 1;
        }
        proof {
            assert(s.take(len as int) =~= s);
        }
        total
    }

    /// Replaces leaf `index` by its four children, which go to the end.
    fn replace_leaf(&mut self, index: usize, c0: Cell<D>, c1: Cell<D>, c2: Cell<D>, c3: Cell<D>)
        requires
            index < old(self).spec_leaves().len(),
            are_children_of(old(self).spec_leaves()[index as int], seq![c0, c1, c2, c3]),
            old(self).spec_leaves()[index as int].spec_depth() < old(self).spec_max_depth(),
            old(self).spec_leaves().len() + 3 <= old(self).spec_max_leaves(),
        ensures
            final(self).spec_root() == old(self).spec_root(),
            final(self).spec_max_depth() == old(self).spec_max_depth(),
            final(self).spec_max_leaves() == old(self).spec_max_leaves(),
            final(self).spec_leaves() == split_leaves(old(self).spec_leaves(), index as int, seq![c0, c1, c2, c3]),
            old(self).wf() ==> final(self).wf(),
    {
        let ghost old_leaves = self.leaves@;
        self.leaves.remove(index);
        self.leaves.push(c0);
        self.leaves.push(c1);
        self.leaves.push(c2);
        self.leaves.push(c3);
        proof {
            assert(self.leaves@ =~= split_leaves(old_leaves, index as int, seq![c0, c1, c2, c3]));
            if old(self).wf() {
                lemma_split_keeps_wf(
                    self.root,
                    old_leaves,
                    index as int,
                    seq![c0, c1, c2, c3],
                    self.max_depth,
                    self.max_leaves,
                );
            }
        }
    }
}

/// The area of a one-cell sequence is the area of the cell.
proof fn lemma_sum_area_single<D>(c: Cell<D>)
    ensures
        sum_area(seq![c]) == c.spec_bounds().spec_area(),
{
    assert(seq![c].drop_last() =~= Seq::<Cell<D>>::empty());
    assert(sum_area(Seq::<Cell<D>>::empty()) == 0);
}

/// Every leaf of a tree lies within `COORD_LIMIT` of the origin, as its
/// root does.
pub proof fn lemma_leaves_bounded<D>(t: QuadTree<D>)
    requires
        t.wf(),
    ensures
        forall|i: int| 0 <= i < t.spec_leaves().len() ==> (#[trigger] t.spec_leaves()[i]).spec_bounds().bounded(),
{
    assert forall|i: int| 0 <= i < t.spec_leaves().len() implies (#[trigger] t.spec_leaves()[i]).spec_bounds().bounded() by {
        assert(t.spec_root().contains_rect(t.spec_leaves()[i].spec_bounds()));
        if t.spec_leaves().len() == 1 {
            assert(i == 0);
        }
    }
}

/// Whether a leaf can be split depends on that leaf and the limits alone:
/// a leaf that exists, lies above `max_depth`, leaves room for three more
/// leaves and has sides of at least two steps splits into its quadrants;
/// and a split refused for depth names a leaf at or below `max_depth`.
pub proof fn lemma_split_depends_on_the_leaf<D>(t: QuadTree<D>, index: usize)
    ensures
        ({
            let leaves = t.spec_leaves();
            index < leaves.len() && leaves[index as int].spec_depth() < t.spec_max_depth()
                && leaves.len() + 3 <= t.spec_max_leaves() && leaves[index as int].spec_bounds().spec_width() >= 2
                && leaves[index as int].spec_bounds().spec_height() >= 2 ==> t.split_outcome(index) == Ok::<
                Seq<Rect>,
                TreeError,
            >(leaves[index as int].spec_bounds().quadrant_rects())
        }),
        t.split_outcome(index) matches Err(TreeError::MaxDepthExceeded { depth, max_depth }) ==> {
            &&& index < t.spec_leaves().len()
            &&& depth == t.spec_leaves()[index as int].spec_depth()
            &&& max_depth == t.spec_max_depth()
            &&& depth >= max_depth
        },
{
    if index < t.spec_leaves().len() {
        lemma_quadrants_ok_iff_two_steps(t.spec_leaves()[index as int].spec_bounds());
    }
}

/// A tree never holds more leaves than `max_leaves`, as long as the limit
/// allows the root itself (`max_leaves >= 1`): a new tree always has its
/// root leaf, whatever the limit.
pub proof fn lemma_leaf_limit<D>(t: QuadTree<D>)
    requires
        t.wf(),
        t.spec_max_leaves() >= 1,
    ensures
        t.spec_leaves().len() <= t.spec_max_leaves(),
{
}

/// Changing only the data of leaves keeps a tree well formed.
pub proof fn lemma_same_geometry_keeps_wf<D>(a: QuadTree<D>, b: QuadTree<D>)
    requires
        a.spec_root() == b.spec_root(),
        a.spec_max_depth() == b.spec_max_depth(),
        a.spec_max_leaves() == b.spec_max_leaves(),
        a.spec_leaves().len() == b.spec_leaves().len(),
        forall|i: int|
            0 <= i < a.spec_leaves().len() ==> (#[trigger] a.spec_leaves()[i]).spec_bounds()
                == b.spec_leaves()[i].spec_bounds() && a.spec_leaves()[i].spec_depth()
                == b.spec_leaves()[i].spec_depth(),
    ensures
        a.wf() ==> b.wf(),
{
    if a.wf() {
        lemma_sum_area_same_bounds(a.spec_leaves(), b.spec_leaves());
        let la = a.spec_leaves();
        let lb = b.spec_leaves();
        assert forall|i: int, j: int|
            0 <= i < lb.len() && 0 <= j < lb.len() && i != j implies (#[trigger] lb[i].spec_bounds()).interiors_disjoint(
            #[trigger] lb[j].spec_bounds(),
        ) by {
            assert(la[i].spec_bounds() == lb[i].spec_bounds());
            assert(la[j].spec_bounds() == lb[j].spec_bounds());
        }
        assert forall|pt: Point| #[trigger] b.spec_root().spec_contains(pt) implies exists|i: int|
            0 <= i < lb.len() && (#[trigger] lb[i].spec_bounds()).spec_contains(pt) by {
            let w = choose|i: int| 0 <= i < la.len() && (#[trigger] la[i].spec_bounds()).spec_contains(pt);
            assert(la[w].spec_bounds() == lb[w].spec_bounds());
        }
        assert forall|i: int| 0 <= i < lb.len() implies b.spec_root().contains_rect(#[trigger] lb[i].spec_bounds()) by {
            assert(la[i].spec_bounds() == lb[i].spec_bounds());
        }
        if lb.len() != 1 {
            assert forall|i: int| 0 <= i < lb.len() implies (#[trigger] lb[i]).spec_bounds().valid() by {
                assert(la[i].spec_bounds() == lb[i].spec_bounds());
            }
        }
        assert forall|i: int| 0 <= i < lb.len() implies (#[trigger] lb[i]).spec_depth() <= b.spec_max_depth() by {
            assert(la[i].spec_depth() == lb[i].spec_depth());
        }
    }
}

/// Sequences of cells with the same bounds have the same area.
pub proof fn lemma_sum_area_same_bounds<D>(a: Seq<Cell<D>>, b: Seq<Cell<D>>)
    requires
        a.len() == b.len(),
        forall|i: int| 0 <= i < a.len() ==> (#[trigger] a[i]).spec_bounds() == b[i].spec_bounds(),
    ensures
        sum_area(a) == sum_area(b),
    decreases a.len(),
{
    if a.len() > 0 {
        lemma_sum_area_same_bounds(a.drop_last(), b.drop_last());
    }
}

/// Cells that are all valid rectangles have a non-negative total area.
pub proof fn lemma_sum_area_nonneg<D>(s: Seq<Cell<D>>)
    requires
        forall|i: int| 0 <= i < s.len() ==> (#[trigger] s[i]).spec_bounds().valid(),
    ensures
        sum_area(s) >= 0,
    decreases s.len(),
{
    if s.len() > 0 {
        let r = s.last().spec_bounds();
        assert(s[s.len() - 1].spec_bounds().valid());
        assert(r.spec_width() * r.spec_height() > 0) by (nonlinear_arith)
            requires
                r.spec_width() > 0,
                r.spec_height() > 0,
        ;
        lemma_sum_area_nonneg(s.drop_last());
    }
}

/// When every cell is valid, a prefix has no more area than the whole.
proof fn lemma_sum_area_prefix_bounded<D>(s: Seq<Cell<D>>, n: int)
    requires
        0 <= n <= s.len(),
        forall|i: int| 0 <= i < s.len() ==> (#[trigger] s[i]).spec_bounds().valid(),
    ensures
        0 <= sum_area(s.take(n)) <= sum_area(s),
{
    assert(s =~= s.take(n) + s.skip(n));
    lemma_sum_area_append(s.take(n), s.skip(n));
    lemma_sum_area_nonneg(s.take(n));
    assert forall|i: int| 0 <= i < s.skip(n).len() implies (#[trigger] s.skip(n)[i]).spec_bounds().valid() by {
        assert(s.skip(n)[i] == s[n + i]);
    }
    lemma_sum_area_nonneg(s.skip(n));
}

/// Area is additive over concatenation.
pub proof fn lemma_sum_area_append<D>(a: Seq<Cell<D>>, b: Seq<Cell<D>>)
    ensures
        sum_area(a + b) == sum_area(a) + sum_area(b),
    decreases b.len(),
{
    if b.len() == 0 {
        assert(a + b =~= a);
    } else {
        lemma_sum_area_append(a, b.drop_last());
        assert((a + b).drop_last() =~= a + b.drop_last());
        assert((a + b).last() == b.last());
    }
}

/// Removing a cell removes its area.
pub proof fn lemma_sum_area_remove<D>(s: Seq<Cell<D>>, i: int)
    requires
        0 <= i < s.len(),
    ensures
        sum_area(s) == sum_area(s.remove(i)) + s[i].spec_bounds().spec_area(),
{
    let pre = s.take(i);
    let post = s.skip(i + 1);
    assert(s =~= pre + seq![s[i]] + post);
    assert(s.remove(i) =~= pre + post);
    lemma_sum_area_append(pre + seq![s[i]], post);
    lemma_sum_area_append(pre, seq![s[i]]);
    lemma_sum_area_append(pre, post);
    lemma_sum_area_single(s[i]);
}

/// Splitting a leaf of a well-formed tree into its children, within the
/// depth and leaf limits, gives a well-formed tree.
proof fn lemma_split_keeps_wf<D>(
    root: Rect,
    old: Seq<Cell<D>>,
    index: int,
    cs: Seq<Cell<D>>,
    max_depth: usize,
    max_leaves: usize,
)
    requires
        0 <= index < old.len(),
        old.len() >= 1,
        is_partition(root, old),
        old.len() == 1 || forall|i: int| 0 <= i < old.len() ==> (#[trigger] old[i]).spec_bounds().valid(),
        forall|i: int| 0 <= i < old.len() ==> (#[trigger] old[i]).spec_depth() <= max_depth,
        old.len() % 3 == 1,
        are_children_of(old[index], cs),
        old[index].spec_depth() < max_depth,
        old.len() + 3 <= max_leaves,
    ensures
        ({
            let new = split_leaves(old, index, cs);
            &&& new.len() >= 1
            &&& is_partition(root, new)
            &&& forall|i: int| 0 <= i < new.len() ==> (#[trigger] new[i]).spec_bounds().valid()
            &&& forall|i: int| 0 <= i < new.len() ==> (#[trigger] new[i]).spec_depth() <= max_depth
            &&& new.len() <= max_leaves
            &&& new.len() % 3 == 1
        }),
{
    let new = split_leaves(old, index, cs);
    let rest = old.remove(index);
    let parent = old[index];
    let p = parent.spec_bounds();
    let n = rest.len();
    lemma_quadrants_partition(p);
    assert(p.valid());
    // Where each leaf of the new tree came from.
    assert forall|j: int| 0 <= j < n implies #[trigger] new[j] == old[if j < index { j } else { j + 1 }] by {}
    assert forall|k: int| 0 <= k < 4 implies #[trigger] new[n + k] == cs[k] by {}
    // Containment.
    assert forall|i: int| 0 <= i < new.len() implies root.contains_rect(#[trigger] new[i].spec_bounds()) by {
        if i < n {
            let o = if i < index { i } else { i + 1 };
            assert(new[i] == old[o]);
        } else {
            let k = i - n;
            assert(new[n + k] == cs[k]);
            assert(cs[k].spec_bounds() == p.quadrant_rects()[k]);
            assert(root.contains_rect(old[index].spec_bounds()));
        }
    }
    // Validity.
    assert forall|i: int| 0 <= i < new.len() implies (#[trigger] new[i]).spec_bounds().valid() by {
        if i < n {
            let o = if i < index { i } else { i + 1 };
            assert(new[i] == old[o]);
            assert(old.len() > 1);
        } else {
            let k = i - n;
            assert(new[n + k] == cs[k]);
            assert(cs[k].spec_bounds() == p.quadrant_rects()[k]);
        }
    }
    // Depth.
    assert forall|i: int| 0 <= i < new.len() implies (#[trigger] new[i]).spec_depth() <= max_depth by {
        if i < n {
            let o = if i < index { i } else { i + 1 };
            assert(new[i] == old[o]);
        } else {
            let k = i - n;
            assert(new[n + k] == cs[k]);
        }
    }
    // Disjointness.
    assert forall|i: int, j: int|
        0 <= i < new.len() && 0 <= j < new.len() && i != j implies (#[trigger] new[i].spec_bounds()).interiors_disjoint(
        #[trigger] new[j].spec_bounds(),
    ) by {
        if i < n && j < n {
            let oi = if i < index { i } else { i + 1 };
            let oj = if j < index { j } else { j + 1 };
            assert(new[i] == old[oi]);
            assert(new[j] == old[oj]);
        } else if i < n {
            let oi = if i < index { i } else { i + 1 };
            let k = j - n;
            assert(new[i] == old[oi]);
            assert(new[n + k] == cs[k]);
            assert(cs[k].spec_bounds() == p.quadrant_rects()[k]);
            assert(old[oi].spec_bounds().interiors_disjoint(old[index].spec_bounds()));
            assert(p.contains_rect(p.quadrant_rects()[k]));
        } else if j < n {
            let oj = if j < index { j } else { j + 1 };
            let k = i - n;
            assert(new[j] == old[oj]);
            assert(new[n + k] == cs[k]);
            assert(cs[k].spec_bounds() == p.quadrant_rects()[k]);
            assert(old[oj].spec_bounds().interiors_disjoint(old[index].spec_bounds()));
            assert(p.contains_rect(p.quadrant_rects()[k]));
        } else {
            let k = i - n;
            let l = j - n;
            assert(new[n + k] == cs[k]);
            assert(new[n + l] == cs[l]);
            assert(cs[k].spec_bounds() == p.quadrant_rects()[k]);
            assert(cs[l].spec_bounds() == p.quadrant_rects()[l]);
        }
    }
    // Coverage.
    assert forall|pt: Point| #[trigger] root.spec_contains(pt) implies exists|i: int|
        0 <= i < new.len() && (#[trigger] new[i].spec_bounds()).spec_contains(pt) by {
        let w = choose|i: int| 0 <= i < old.len() && (#[trigger] old[i].spec_bounds()).spec_contains(pt);
        if w == index {
            lemma_quadrants_cover(p, pt);
            let k = choose|k: int| 0 <= k < 4 && (#[trigger] p.quadrant_rects()[k]).spec_contains(pt);
            assert(new[n + k] == cs[k]);
            assert(new[n + k].spec_bounds().spec_contains(pt));
        } else {
            let j = if w < index { w } else { w - 1 };
            assert(new[j] == old[w]);
            assert(new[j].spec_bounds().spec_contains(pt));
        }
    }
    // Area.
    lemma_sum_area_remove(old, index);
    lemma_sum_area_append(rest, cs);
    reveal_with_fuel(sum_area, 5);
    assert(cs.drop_last().drop_last().drop_last().drop_last() =~= Seq::<Cell<D>>::empty());
    assert(cs[0].spec_bounds() == p.quadrant_rects()[0]);
    assert(cs[1].spec_bounds() == p.quadrant_rects()[1]);
    assert(cs[2].spec_bounds() == p.quadrant_rects()[2]);
    assert(cs[3].spec_bounds() == p.quadrant_rects()[3]);
    assert(sum_area(cs) == p.spec_area());
}

} // verus!
