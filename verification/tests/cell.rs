use quadtree::cell::Cell;
use quadtree::geometry::{Point, Rect, UNIT};
use quadtree::scaling::ScalerError;

/// `v` whole units, in fixed point.
fn u(v: i64) -> i64 {
    v * UNIT
}

#[test]
fn cell_stores_bounds_depth_and_data() {
    let bounds = Rect::new(u(0), u(2), u(0), u(4)).unwrap();
    let cell = Cell::new(bounds, 3, "payload");

    assert_eq!(cell.bounds(), bounds);
    assert_eq!(cell.depth(), 3);
    assert_eq!(*cell.data(), "payload");
}

#[test]
fn data_mut_allows_payload_update() {
    let bounds = Rect::new(u(0), u(1), u(0), u(1)).unwrap();
    let mut cell = Cell::new(bounds, 0, 1usize);

    *cell.data_mut() = 42;

    assert_eq!(*cell.data(), 42);
}

#[test]
fn into_parts_returns_all_components() {
    let bounds = Rect::new(u(-1), u(1), u(-2), u(2)).unwrap();
    let cell = Cell::new(bounds, 5, 99);

    let (b, depth, data) = cell.into_parts();

    assert_eq!(b, bounds);
    assert_eq!(depth, 5);
    assert_eq!(data, 99);
}

#[test]
fn geometric_methods_delegate_to_bounds() {
    let bounds = Rect::new(u(0), u(3), u(0), u(4)).unwrap();
    let cell = Cell::new(bounds, 0, ());

    assert_eq!(cell.width(), u(3) as i128);
    assert_eq!(cell.height(), u(4) as i128);
    assert_eq!(cell.area(), 12 * (UNIT as i128) * (UNIT as i128));
    assert_eq!(cell.longest_side(), u(4) as i128);
    assert_eq!(cell.diameter(), u(5));

    assert_eq!(cell.centre(), Point { x: 3 * (UNIT / 2), y: u(2) });
}

#[test]
fn children_have_depth_incremented_by_one() {
    let bounds = Rect::new(u(0), u(2), u(0), u(2)).unwrap();
    let cell = Cell::new(bounds, 7, ());

    let children = cell.children(|_| ()).unwrap();

    for child in children {
        assert_eq!(child.depth(), 8);
    }
}

#[test]
fn children_cover_parent_quadrants() {
    let bounds = Rect::new(u(0), u(2), u(0), u(2)).unwrap();
    let cell = Cell::new(bounds, 0, 0i128);

    let children = cell.children(|rect| rect.area() / ((UNIT as i128) * (UNIT as i128))).unwrap();

    assert_eq!(children[0].bounds(), Rect::new(u(0), u(1), u(0), u(1)).unwrap());
    assert_eq!(children[1].bounds(), Rect::new(u(1), u(2), u(0), u(1)).unwrap());
    assert_eq!(children[2].bounds(), Rect::new(u(0), u(1), u(1), u(2)).unwrap());
    assert_eq!(children[3].bounds(), Rect::new(u(1), u(2), u(1), u(2)).unwrap());

    for child in children {
        assert_eq!(*child.data(), 1);
    }
}

#[test]
fn children_total_area_equals_parent_area() {
    let bounds = Rect::new(u(-4), u(4), u(-2), u(6)).unwrap();
    let cell = Cell::new(bounds, 0, ());

    let children = cell.children(|_| ()).unwrap();

    let total_area: i128 = children.iter().map(|child| child.area()).sum();

    assert_eq!(total_area, cell.area());
}

#[test]
fn children_are_contained_in_parent() {
    let bounds = Rect::new(u(-4), u(4), u(-2), u(6)).unwrap();
    let cell = Cell::new(bounds, 0, ());

    let children = cell.children(|_| ()).unwrap();

    for child in children {
        let child_bounds = child.bounds();

        assert!(bounds.contains(Point { x: child_bounds.x_min, y: child_bounds.y_min }));
        assert!(bounds.contains(Point { x: child_bounds.x_max, y: child_bounds.y_max }));
    }
}

#[test]
fn child_data_closure_receives_child_bounds() {
    let bounds = Rect::new(u(0), u(4), u(0), u(4)).unwrap();
    let cell = Cell::new(bounds, 0, Point { x: 0, y: 0 });

    let children = cell.children(|rect| rect.centre()).unwrap();

    assert_eq!(*children[0].data(), Point { x: u(1), y: u(1) });
    assert_eq!(*children[1].data(), Point { x: u(3), y: u(1) });
    assert_eq!(*children[2].data(), Point { x: u(1), y: u(3) });
    assert_eq!(*children[3].data(), Point { x: u(3), y: u(3) });
}

#[test]
fn children_of_a_one_step_cell_are_refused() {
    let bounds = Rect::new(0, 1, 0, 1).unwrap();
    let cell = Cell::new(bounds, 0, ());
    let mut calls = 0;

    let err = cell.children(|_| calls += 1).unwrap_err();

    assert!(matches!(err, ScalerError::InvalidRect(_)));
    assert_eq!(calls, 0);
}
