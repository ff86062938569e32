use rust_comp_geo::geometry::point::{
    bounding_box_from_points, create_point, point_equals, points_equal, translate_point,
};
use rust_comp_geo::geometry::types::{BoundingBox, XY};
use rust_comp_geo::utils::{close_equal, GRID_PER_UNIT};

/// Grid steps in `v` drawing units, cut off toward zero, computed exactly.
fn grid(v: f64) -> i64 {
    let bits = v.to_bits();
    let negative = (bits >> 63) == 1;
    let exponent = ((bits >> 52) & 0x7ff) as i64;
    let fraction = bits & 0x000f_ffff_ffff_ffff;
    let (mantissa, power) = if exponent == 0 {
        (fraction, -1074i64)
    } else {
        (fraction | (1u64 << 52), exponent - 1075)
    };
    let scaled = (mantissa as u128) * (GRID_PER_UNIT as u128);
    let steps = if power >= 0 {
        scaled << power
    } else if -power >= 128 {
        0
    } else {
        scaled >> (-power)
    };
    let steps = steps as i64;
    if negative {
        -steps
    } else {
        steps
    }
}

#[test]
fn test_create_point() {
    let p: XY = create_point(grid(4.0), grid(3.0));
    assert_eq!(p.x, grid(4.0));
    assert_eq!(p.y, grid(3.0));
}

#[test]
fn translate_point_test() {
    let p: XY = XY { x: grid(5.0), y: grid(10.0) };
    let translation: XY = XY { x: grid(3.0), y: grid(4.0) };
    let translated = translate_point(translation)(p);
    assert!(close_equal(translated.x, grid(8.0), None));
    assert!(close_equal(translated.y, grid(14.0), None));
}

#[test]
fn translate_point_adds_axis_by_axis() {
    let moved = translate_point(XY { x: -7, y: 12 })(XY { x: 3, y: -20 });
    assert_eq!(moved, XY { x: -4, y: -8 });
}

#[test]
fn test_points_equal() {
    let p1: XY = XY { x: grid(0.0), y: grid(10.0) };

    let vect: Vec<(XY, bool)> = vec![
        (XY { x: grid(-0.0000001), y: grid(10.0) }, true),
        (XY { x: grid(0.0), y: grid(10.0000000001) }, true),
        (XY { x: grid(0.0000001), y: grid(10.000001) }, true),
        (XY { x: grid(0.1), y: grid(10.0001) }, false),
    ];

    for (p2, expected) in vect {
        assert_eq!(point_equals(p1)(p2), expected);
        assert_eq!(points_equal(p1, p2, None), expected);
    }
}

#[test]
fn points_equal_needs_both_axes_close() {
    let p = XY { x: 100, y: 100 };
    assert!(points_equal(p, XY { x: 104, y: 96 }, Some(5)));
    assert!(!points_equal(p, XY { x: 105, y: 100 }, Some(5)));
    assert!(!points_equal(p, XY { x: 100, y: 95 }, Some(5)));
    assert_eq!(
        points_equal(p, XY { x: 104, y: 96 }, Some(5)),
        points_equal(XY { x: 104, y: 96 }, p, Some(5))
    );
}

#[test]
fn bounding_box_from_points_test() {
    let points: Vec<XY> = vec![
        XY { x: grid(5.0), y: grid(5.0) },
        XY { x: grid(0.0), y: grid(0.0) },
        XY { x: grid(5.0), y: grid(10.0) },
        XY { x: grid(10.0), y: grid(10.0) },
    ];

    let bb: BoundingBox = bounding_box_from_points(&points);
    assert_eq!(bb.x_min, grid(0.0));
    assert_eq!(bb.y_min, grid(0.0));
    assert_eq!(bb.x_max, grid(10.0));
    assert_eq!(bb.y_max, grid(10.0));
}

#[test]
fn bounding_box_of_no_point_is_inverted() {
    let bb = bounding_box_from_points(&Vec::new());
    assert_eq!(
        bb,
        BoundingBox { x_min: i64::MAX, x_max: i64::MIN, y_min: i64::MAX, y_max: i64::MIN }
    );
}

#[test]
fn bounding_box_of_one_point_is_the_point() {
    let bb = bounding_box_from_points(&vec![XY { x: -3, y: 8 }]);
    assert_eq!(bb, BoundingBox { x_min: -3, x_max: -3, y_min: 8, y_max: 8 });
}
