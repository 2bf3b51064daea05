use quadtree::geometry::{Point, Rect, UNIT};
use quadtree::scaling::{Scaler2D, ScalerError};

/// `v` whole units, in fixed point.
fn u(v: i64) -> i64 {
    v * UNIT
}

#[test]
fn scaler_maps_unit_square_corners_to_raw_corners() {
    let raw = Rect::new(u(10), u(20), u(-5), u(5)).unwrap();
    let scaler = Scaler2D::unit_square(raw).unwrap();

    assert_eq!(scaler.to_raw(Point { x: 0, y: 0 }).unwrap(), Point { x: u(10), y: u(-5) });

    assert_eq!(scaler.to_raw(Point { x: UNIT, y: UNIT }).unwrap(), Point { x: u(20), y: u(5) });
}

#[test]
fn scaler_maps_unit_square_centre_to_raw_centre() {
    let raw = Rect::new(u(10), u(20), u(-5), u(5)).unwrap();
    let scaler = Scaler2D::unit_square(raw).unwrap();

    let p = scaler.to_raw(Point { x: UNIT / 2, y: UNIT / 2 }).unwrap();

    assert_eq!(p.x, u(15));
    assert_eq!(p.y, u(0));
}

#[test]
fn scaler_to_scaled_maps_raw_centre_to_unit_centre() {
    let raw = Rect::new(u(10), u(20), u(-5), u(5)).unwrap();
    let scaler = Scaler2D::unit_square(raw).unwrap();

    let p = scaler.to_scaled(Point { x: u(15), y: u(0) }).unwrap();

    assert_eq!(p.x, UNIT / 2);
    assert_eq!(p.y, UNIT / 2);
}

#[test]
fn scaler_supports_non_unit_scaled_domain() {
    let raw = Rect::new(u(0), u(10), u(0), u(20)).unwrap();
    let scaled = Rect::new(u(-1), u(1), u(-2), u(2)).unwrap();
    let scaler = Scaler2D::new(raw, scaled);

    let raw_mid = scaler.to_raw(Point { x: 0, y: 0 }).unwrap();

    assert_eq!(raw_mid.x, u(5));
    assert_eq!(raw_mid.y, u(10));

    let scaled_mid = scaler.to_scaled(Point { x: u(5), y: u(10) }).unwrap();

    assert_eq!(scaled_mid.x, 0);
    assert_eq!(scaled_mid.y, 0);
}

#[test]
fn scaler_rejects_scaled_point_outside_domain() {
    let raw = Rect::new(u(0), u(10), u(0), u(10)).unwrap();
    let scaler = Scaler2D::unit_square(raw).unwrap();

    assert!(matches!(
        scaler.to_raw(Point { x: -(UNIT / 10), y: UNIT / 2 }),
        Err(ScalerError::PointOutsideRect { .. })
    ));
}

#[test]
fn scaler_rejects_raw_point_outside_domain() {
    let raw = Rect::new(u(0), u(10), u(0), u(10)).unwrap();
    let scaler = Scaler2D::unit_square(raw).unwrap();

    assert!(matches!(
        scaler.to_scaled(Point { x: u(11), y: u(5) }),
        Err(ScalerError::PointOutsideRect { .. })
    ));
}

#[test]
fn scaler_roundtrip_scaled_to_raw_to_scaled() {
    let raw = Rect::new(u(-10), u(30), u(100), u(200)).unwrap();
    let scaler = Scaler2D::unit_square(raw).unwrap();

    let points = [
        Point { x: 0, y: 0 },
        Point { x: UNIT / 4, y: 3 * (UNIT / 4) },
        Point { x: UNIT / 2, y: UNIT / 2 },
        Point { x: UNIT, y: UNIT },
    ];

    for p in points {
        let raw = scaler.to_raw(p).unwrap();
        let back = scaler.to_scaled(raw).unwrap();

        assert_eq!(back, p);
    }
}

#[test]
fn scaler_roundtrip_raw_to_scaled_to_raw() {
    let raw = Rect::new(u(-10), u(30), u(100), u(200)).unwrap();
    let scaler = Scaler2D::unit_square(raw).unwrap();

    let points = [
        Point { x: u(-10), y: u(100) },
        Point { x: u(0), y: u(125) },
        Point { x: u(10), y: u(150) },
        Point { x: u(30), y: u(200) },
    ];

    for p in points {
        let scaled = scaler.to_scaled(p).unwrap();
        let back = scaler.to_raw(scaled).unwrap();

        assert_eq!(back, p);
    }
}

#[test]
fn scaler_gives_the_exact_affine_image() {
    // Raw 0..3 against scaled 0..2: the scaled point 1 lies at 1.5.
    let scaler = Scaler2D::new(Rect::new(u(0), u(3), u(0), u(3)).unwrap(), Rect::new(u(0), u(2), u(0), u(2)).unwrap());

    let p = scaler.to_raw(Point { x: u(1), y: u(1) }).unwrap();
    assert_eq!(p, Point { x: 3 * (UNIT / 2), y: 3 * (UNIT / 2) });
    assert_eq!(scaler.to_scaled(p).unwrap(), Point { x: u(1), y: u(1) });
}

#[test]
fn scaler_round_trip_from_a_coarser_raw_domain() {
    // Raw 0..1 against scaled 0..2: (1, 1) goes to (0.5, 0.5) and back.
    let scaler = Scaler2D::new(Rect::new(u(0), u(1), u(0), u(1)).unwrap(), Rect::new(u(0), u(2), u(0), u(2)).unwrap());

    let p = scaler.to_raw(Point { x: u(1), y: u(1) }).unwrap();
    assert_eq!(p, Point { x: UNIT / 2, y: UNIT / 2 });
    assert_eq!(scaler.to_scaled(p).unwrap(), Point { x: u(1), y: u(1) });
}

#[test]
fn scaler_rounds_an_image_between_two_steps() {
    let raw = Rect::new(0, 10, 0, 10).unwrap();
    let scaled = Rect::new(0, 3, 0, 3).unwrap();
    let scaler = Scaler2D::new(raw, scaled);

    // 10 / 3 and 20 / 3 round to 3 and 7.
    assert_eq!(scaler.to_raw(Point { x: 1, y: 2 }).unwrap(), Point { x: 3, y: 7 });
    // 0.3 and 0.6 round to 0 and 1; 1.5 is a half and goes up to 2.
    assert_eq!(scaler.to_scaled(Point { x: 1, y: 2 }).unwrap(), Point { x: 0, y: 1 });
    assert_eq!(scaler.to_scaled(Point { x: 5, y: 5 }).unwrap(), Point { x: 2, y: 2 });
}

#[test]
fn unit_square_splits_at_its_exact_centre() {
    let unit = Scaler2D::unit_square(Rect::new(0, 1, 0, 1).unwrap()).unwrap().scaled_domain();

    assert_eq!(unit.centre(), Point { x: UNIT / 2, y: UNIT / 2 });
    let q = unit.quadrants().unwrap();
    assert_eq!(q[0], Rect::new(0, UNIT / 2, 0, UNIT / 2).unwrap());
    assert_eq!(q[3], Rect::new(UNIT / 2, UNIT, UNIT / 2, UNIT).unwrap());
    assert_eq!(q[0].area() * 4, unit.area());
}

#[test]
fn scaler_maps_rectangles_corner_by_corner() {
    let raw = Rect::new(0, 100, 0, 40).unwrap();
    let scaled = Rect::new(0, 10, 0, 4).unwrap();
    let scaler = Scaler2D::new(raw, scaled);

    assert_eq!(
        scaler.to_raw_rect(Rect::new(2, 5, 1, 3).unwrap()).unwrap(),
        Rect::new(20, 50, 10, 30).unwrap()
    );
    assert_eq!(
        scaler.to_scaled_rect(Rect::new(20, 50, 10, 30).unwrap()).unwrap(),
        Rect::new(2, 5, 1, 3).unwrap()
    );
    // A raw rectangle thinner than one scaled unit collapses.
    assert!(matches!(
        scaler.to_scaled_rect(Rect::new(20, 24, 10, 30).unwrap()),
        Err(ScalerError::InvalidRect(_))
    ));
    assert!(matches!(
        scaler.to_raw_rect(Rect::new(2, 11, 1, 3).unwrap()),
        Err(ScalerError::PointOutsideRect { .. })
    ));
}

#[test]
fn scaler_reports_its_domains() {
    let raw = Rect::new(0, 100, 0, 40).unwrap();
    let scaled = Rect::new(0, 10, 0, 4).unwrap();
    let scaler = Scaler2D::new(raw, scaled);

    assert_eq!(scaler.raw_domain(), raw);
    assert_eq!(scaler.scaled_domain(), scaled);
    assert_eq!(
        Scaler2D::unit_square(raw).unwrap().scaled_domain(),
        Rect::new(0, UNIT, 0, UNIT).unwrap()
    );
}

#[test]
fn identity_scaler_leaves_points_in_place() {
    let d = Rect::new(-7, 13, 2, 9).unwrap();
    let scaler = Scaler2D::new(d, d);

    for p in [Point { x: -7, y: 2 }, Point { x: 0, y: 5 }, Point { x: 13, y: 9 }] {
        assert_eq!(scaler.to_raw(p).unwrap(), p);
        assert_eq!(scaler.to_scaled(p).unwrap(), p);
    }
}

#[test]
fn scaler_round_trip_through_a_finer_domain() {
    let raw = Rect::new(0, 300, -50, 50).unwrap();
    let scaled = Rect::new(10, 13, 0, 4).unwrap();
    let scaler = Scaler2D::new(raw, scaled);

    for x in 10..=13 {
        for y in 0..=4 {
            let p = Point { x, y };
            let r = scaler.to_raw(p).unwrap();
            assert!(raw.contains(r));
            assert_eq!(scaler.to_scaled(r).unwrap(), p);
        }
    }

    // Sides 3 against 2: not a multiple, and still one-to-one.
    let scaler = Scaler2D::new(Rect::new(0, 3, 0, 3).unwrap(), Rect::new(0, 2, 0, 2).unwrap());
    assert_eq!(scaler.to_raw(Point { x: 1, y: 1 }).unwrap(), Point { x: 2, y: 2 });
    for x in 0..=2 {
        for y in 0..=2 {
            let p = Point { x, y };
            assert_eq!(scaler.to_scaled(scaler.to_raw(p).unwrap()).unwrap(), p);
        }
    }
}

#[test]
fn reversed_domain_holds_no_point() {
    let reversed = Rect { x_min: 10, x_max: 0, y_min: 0, y_max: 10 };
    let scaler = Scaler2D::new(Rect::new(0, 10, 0, 10).unwrap(), reversed);

    assert!(matches!(
        scaler.to_raw(Point { x: 5, y: 5 }),
        Err(ScalerError::PointOutsideRect { .. })
    ));
}
