use quadtree::geometry::{Point, Rect};
use quadtree::output::{raw_leaves, total_area, RawLeaf};
use quadtree::scaling::{Scaler2D, ScalerError};
use quadtree::tree::QuadTree;

#[test]
fn raw_leaf_reports_its_parts() {
    let data = 5u8;
    let leaf = RawLeaf::new(Rect::new(10, 20, -4, 4).unwrap(), 3, &data);

    assert_eq!(leaf.bounds(), Rect::new(10, 20, -4, 4).unwrap());
    assert_eq!(leaf.depth(), 3);
    assert_eq!(*leaf.data(), 5);
    assert_eq!(leaf.area(), 80);
    assert_eq!(leaf.centre(), Point { x: 15, y: 0 });
}

#[test]
fn raw_leaves_map_each_leaf_and_total_their_area() {
    let scaled = Rect::new(0, 4, 0, 4).unwrap();
    let raw = Rect::new(0, 40, 100, 120).unwrap();
    let mut tree = QuadTree::new(scaled, (), 4, 100);
    tree.split_leaf(0, |_| ()).unwrap();
    let scaler = Scaler2D::new(raw, scaled);

    let rects = raw_leaves(&tree, &scaler).unwrap();

    assert_eq!(rects.len(), 4);
    assert_eq!(rects[0], Rect::new(0, 20, 100, 110).unwrap());
    assert_eq!(rects[3], Rect::new(20, 40, 110, 120).unwrap());
    assert_eq!(total_area(&rects), Some(800));
}

#[test]
fn raw_leaves_report_the_first_leaf_that_collapses() {
    let scaled = Rect::new(0, 4, 0, 4).unwrap();
    let raw = Rect::new(0, 2, 0, 2).unwrap();
    let mut tree = QuadTree::new(scaled, (), 4, 100);
    tree.split_leaf(0, |_| ()).unwrap();
    tree.split_leaf(0, |_| ()).unwrap();
    let scaler = Scaler2D::new(raw, scaled);

    // The first three leaves have side 2 and map to side 1. Of the children,
    // the first spans 0..1, which maps to 0..1 (a half rounds up); the second
    // spans 1..2, both of whose ends map to 1, so its width collapses.
    assert_eq!(
        raw_leaves(&tree, &scaler).unwrap_err(),
        ScalerError::InvalidRect(Rect { x_min: 1, x_max: 1, y_min: 0, y_max: 1 })
    );
}
