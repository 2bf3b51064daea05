use quadtree::geometry::{Point, Rect, UNIT};
use quadtree::scaling::ScalerError;
use quadtree::tree::{QuadTree, TreeError};

/// `v` whole units, in fixed point.
fn u(v: i64) -> i64 {
    v * UNIT
}

/// One square unit, in square steps.
const SQUARE_UNIT: i128 = (UNIT as i128) * (UNIT as i128);

fn root() -> Rect {
    Rect::new(u(0), u(4), u(0), u(4)).unwrap()
}

#[test]
fn new_tree_contains_single_root_leaf() {
    let tree = QuadTree::new(root(), 42usize, 4, 100);

    assert_eq!(tree.leaf_count(), 1);
    assert_eq!(tree.root(), root());
    assert_eq!(tree.max_depth(), 4);
    assert_eq!(tree.max_leaves(), 100);

    let leaves: Vec<_> = tree.iter().collect();

    assert_eq!(leaves.len(), 1);
    assert_eq!(leaves[0].bounds(), root());
    assert_eq!(leaves[0].depth(), 0);
    assert_eq!(*leaves[0].data(), 42);
}

#[test]
fn iter_mut_allows_leaf_data_update() {
    let mut tree = QuadTree::new(root(), 1usize, 4, 100);

    for i in 0..tree.leaf_count() {
        *tree.leaf_mut(i).unwrap() += 10;
    }

    let values: Vec<_> = tree.iter().map(|leaf| *leaf.data()).collect();

    assert_eq!(values, vec![11]);
}

#[test]
fn split_increases_leaf_count_by_three() {
    let mut tree = QuadTree::new(root(), 0usize, 4, 100);

    assert_eq!(tree.leaf_count(), 1);

    tree.split_leaf(0, |_| 1usize).unwrap();
    assert_eq!(tree.leaf_count(), 4);

    tree.split_leaf(0, |_| 2usize).unwrap();
    assert_eq!(tree.leaf_count(), 7);

    tree.split_leaf(0, |_| 3usize).unwrap();
    assert_eq!(tree.leaf_count(), 10);
}

#[test]
fn split_replaces_parent_with_four_children() {
    let mut tree = QuadTree::new(root(), 0usize, 4, 100);

    tree.split_leaf(0, |_| 1usize).unwrap();

    let leaves: Vec<_> = tree.iter().collect();

    assert_eq!(leaves.len(), 4);

    for leaf in leaves {
        assert_eq!(leaf.depth(), 1);
        assert_eq!(*leaf.data(), 1);
    }
}

#[test]
fn split_moves_children_to_the_end() {
    let mut tree = QuadTree::new(root(), 0usize, 4, 100);

    tree.split_leaf(0, |r| (r.x_min / UNIT) as usize * 10 + (r.y_min / UNIT) as usize).unwrap();
    tree.split_leaf(1, |_| 7usize).unwrap();

    let data: Vec<_> = tree.iter().map(|leaf| *leaf.data()).collect();

    assert_eq!(data, vec![0, 2, 22, 7, 7, 7, 7]);
    assert_eq!(tree.leaf(3).unwrap().bounds(), Rect::new(u(2), u(3), u(0), u(1)).unwrap());
}

#[test]
fn total_leaf_area_equals_root_after_one_split() {
    let mut tree = QuadTree::new(root(), (), 4, 100);

    tree.split_leaf(0, |_| ()).unwrap();

    assert_eq!(tree.total_leaf_area(), root().area());
}

#[test]
fn repeated_splits_preserve_total_area() {
    let mut tree = QuadTree::new(root(), (), 6, 100);

    tree.split_leaf(0, |_| ()).unwrap();
    tree.split_leaf(0, |_| ()).unwrap();
    tree.split_leaf(2, |_| ()).unwrap();
    tree.split_leaf(4, |_| ()).unwrap();

    assert_eq!(tree.total_leaf_area(), root().area());
}

#[test]
fn cannot_split_invalid_leaf_index() {
    let mut tree = QuadTree::new(root(), (), 4, 100);

    let err = tree.split_leaf(5, |_| ()).unwrap_err();

    assert!(matches!(err, TreeError::LeafIndexOutOfBounds { index: 5, len: 1 }));
}

#[test]
fn cannot_split_leaf_at_max_depth() {
    let mut tree = QuadTree::new(root(), (), 0, 100);

    let err = tree.split_leaf(0, |_| ()).unwrap_err();

    assert!(matches!(err, TreeError::MaxDepthExceeded { depth: 0, max_depth: 0 }));
}

#[test]
fn cannot_exceed_max_leaf_count() {
    let mut tree = QuadTree::new(root(), (), 4, 3);

    let err = tree.split_leaf(0, |_| ()).unwrap_err();

    assert!(matches!(err, TreeError::MaxLeavesExceeded { max_leaves: 3 }));
}

#[test]
fn splitting_when_leaf_count_would_exactly_equal_max_is_allowed() {
    let mut tree = QuadTree::new(root(), (), 4, 4);

    tree.split_leaf(0, |_| ()).unwrap();

    assert_eq!(tree.leaf_count(), 4);
}

#[test]
fn splitting_a_one_step_leaf_is_refused_and_keeps_the_tree() {
    let mut tree = QuadTree::new(Rect::new(0, 2, 0, 2).unwrap(), 0usize, 8, 100);

    tree.split_leaf(0, |_| 1usize).unwrap();
    let err = tree.split_leaf(2, |_| 2usize).unwrap_err();

    assert!(matches!(err, TreeError::Rect(ScalerError::InvalidRect(_))));
    assert_eq!(tree.leaf_count(), 4);
    assert_eq!(tree.total_leaf_area(), 4);
    assert!(tree.iter().all(|leaf| *leaf.data() == 1));
}

#[test]
fn largest_leaf_index_returns_some_leaf() {
    let tree = QuadTree::new(root(), (), 4, 100);

    assert_eq!(tree.largest_leaf_index(), Some(0));
}

#[test]
fn largest_leaf_index_prefers_unsplit_larger_leaf_after_refinement() {
    let mut tree = QuadTree::new(root(), (), 4, 100);

    tree.split_leaf(0, |_| ()).unwrap();

    // All leaves are equal immediately after splitting the root.
    let first_largest = tree.largest_leaf_index().unwrap();
    let largest_area = tree.leaf(first_largest).unwrap().area();

    for leaf in tree.iter() {
        assert_eq!(leaf.area(), largest_area);
    }

    tree.split_leaf(0, |_| ()).unwrap();

    let largest = tree.largest_leaf_index().unwrap();
    let largest_area = tree.leaf(largest).unwrap().area();

    // After splitting one quadrant, the remaining depth-1 leaves are larger
    // than the new depth-2 children.
    assert_eq!(largest_area, 4 * SQUARE_UNIT);
}

#[test]
fn largest_leaf_index_takes_the_last_of_equal_leaves() {
    let mut tree = QuadTree::new(root(), (), 4, 100);

    tree.split_leaf(0, |_| ()).unwrap();

    assert_eq!(tree.largest_leaf_index(), Some(3));
}

#[test]
fn max_leaf_depth_tracks_refinement() {
    let mut tree = QuadTree::new(root(), (), 8, 100);

    assert_eq!(tree.max_leaf_depth(), 0);

    for expected_depth in 1..=3 {
        let deepest = tree
            .iter()
            .enumerate()
            .max_by_key(|(_, leaf)| leaf.depth())
            .map(|(i, _)| i)
            .unwrap();

        tree.split_leaf(deepest, |_| ()).unwrap();

        assert_eq!(tree.max_leaf_depth(), expected_depth);
    }
}

#[test]
fn splits_stop_at_one_step() {
    // A square four steps wide: two halvings leave leaves one step wide.
    let mut tree = QuadTree::new(Rect::new(0, 4, 0, 4).unwrap(), (), 8, 100);

    tree.split_leaf(0, |_| ()).unwrap();
    tree.split_leaf(0, |_| ()).unwrap();

    // The leaf at index 3 is one step wide and cannot be cut in half.
    assert_eq!(tree.leaf(3).unwrap().width(), 1);
    assert!(matches!(tree.split_leaf(3, |_| ()), Err(TreeError::Rect(_))));
    assert_eq!(tree.leaf_count(), 7);
}

#[test]
fn every_leaf_is_contained_in_root_after_repeated_splits() {
    let mut tree = QuadTree::new(root(), (), 8, 100);

    tree.split_leaf(0, |_| ()).unwrap();
    tree.split_leaf(0, |_| ()).unwrap();
    tree.split_leaf(2, |_| ()).unwrap();
    tree.split_leaf(4, |_| ()).unwrap();

    let root = tree.root();

    for leaf in tree.iter() {
        let bounds = leaf.bounds();

        assert!(root.contains(Point { x: bounds.x_min, y: bounds.y_min }));
        assert!(root.contains(Point { x: bounds.x_max, y: bounds.y_max }));
    }
}

#[test]
fn split_child_data_is_generated_from_child_bounds() {
    let mut tree = QuadTree::new(root(), 0i128, 4, 100);

    tree.split_leaf(0, |rect| rect.area() / SQUARE_UNIT).unwrap();

    for leaf in tree.iter() {
        assert_eq!(*leaf.data(), 4);
    }
}

#[test]
fn iter_reports_all_leaves_after_splits() {
    let mut tree = QuadTree::new(root(), (), 6, 100);

    tree.split_leaf(0, |_| ()).unwrap();
    tree.split_leaf(0, |_| ()).unwrap();

    let count = tree.iter().count();

    assert_eq!(count, tree.leaf_count());
    assert_eq!(count, 7);
}

#[test]
fn iter_mut_reports_all_leaves_after_splits() {
    let mut tree = QuadTree::new(root(), 0usize, 6, 100);

    tree.split_leaf(0, |_| 0usize).unwrap();
    tree.split_leaf(0, |_| 0usize).unwrap();

    for i in 0..tree.leaf_count() {
        *tree.leaf_mut(i).unwrap() += 1;
    }

    for leaf in tree.iter() {
        assert_eq!(*leaf.data(), 1);
    }
}

#[test]
fn leaf_and_leaf_mut_refuse_missing_index() {
    let mut tree = QuadTree::new(root(), 0usize, 6, 100);

    assert!(tree.leaf(1).is_none());
    assert!(tree.leaf_mut(1).is_none());
    assert_eq!(tree.leaf(0).unwrap().bounds(), root());
}

#[test]
fn max_leaves_below_one_still_holds_the_root() {
    let mut tree = QuadTree::new(root(), (), 4, 0);

    assert_eq!(tree.leaf_count(), 1);
    assert!(matches!(tree.split_leaf(0, |_| ()), Err(TreeError::MaxLeavesExceeded { max_leaves: 0 })));
}

fn interiors_disjoint(a: Rect, b: Rect) -> bool {
    a.x_max <= b.x_min || b.x_max <= a.x_min || a.y_max <= b.y_min || b.y_max <= a.y_min
}

#[test]
fn leaves_partition_the_root_after_many_splits() {
    // A small root, counted in steps, so that every point can be checked.
    let root = Rect::new(-8, 9, 3, 20).unwrap();
    let mut tree = QuadTree::new(root, (), 8, 1_000);

    for index in [0, 2, 0, 5, 3, 1, 7, 4] {
        tree.split_leaf(index, |_| ()).unwrap();
    }

    let leaves: Vec<Rect> = tree.iter().map(|l| l.bounds()).collect();
    assert_eq!(leaves.len(), 25);
    assert_eq!(tree.total_leaf_area(), root.area());

    for (i, a) in leaves.iter().enumerate() {
        for (j, b) in leaves.iter().enumerate() {
            if i != j {
                assert!(interiors_disjoint(*a, *b), "{a:?} overlaps {b:?}");
            }
        }
    }

    for x in root.x_min..=root.x_max {
        for y in root.y_min..=root.y_max {
            let p = Point { x, y };
            assert!(leaves.iter().any(|l| l.contains(p)), "{p:?} is not covered");
        }
    }
}

#[test]
fn depth_and_leaf_limits_hold_after_refusals() {
    let mut tree = QuadTree::new(Rect::new(0, 64, 0, 64).unwrap(), (), 2, 10);

    let mut refused = 0;
    for _ in 0..10 {
        if tree.split_leaf(tree.leaf_count() - 1, |_| ()).is_err() {
            refused += 1;
        }
    }

    assert!(refused > 0);
    assert!(tree.leaf_count() <= 10);
    assert_eq!(tree.leaf_count() % 3, 1);
    assert!(tree.iter().all(|l| l.depth() <= 2));
}
