use rust_comp_geo::geometry::point::points_equal;
use rust_comp_geo::geometry::stroke::{
    reverse_arc, reverse_segment, reverse_stroke, stroke_with_new_data,
};
use rust_comp_geo::geometry::stroke_types::{
    AnnotatedStroke, Arc, ArcBehavior, Segment, SegmentBehavior, Stroke, StrokeBehavior,
    StrokeType,
};
use rust_comp_geo::geometry::types::XY;
use rust_comp_geo::utils::GRID_PER_UNIT;

/// Grid steps in `v` drawing units, cut off toward zero, computed exactly.
fn grid(v: f64) -> i64 {
    let bits = v.to_bits();
    let negative = (bits >> 63) == 1;
    let exponent = ((bits >> 52) & 0x7ff) as i64;
    let fraction = bits & 0x000f_ffff_ffff_ffff;
    let (mantissa, power) = if exponent == 0 {
        (fraction, -1074i64)
    } else {
        (fraction | (1u64 << 52), exponent - 1075)
    };
    let scaled = (mantissa as u128) * (GRID_PER_UNIT as u128);
    let steps = if power >= 0 {
        scaled << power
    } else if -power >= 128 {
        0
    } else {
        scaled >> (-power)
    };
    let steps = steps as i64;
    if negative {
        -steps
    } else {
        steps
    }
}

fn xy(x: f64, y: f64) -> XY {
    XY { x: grid(x), y: grid(y) }
}

#[test]
fn test_reverse_segment_as_stroke() {
    let segment: Stroke = Stroke::Segment(Segment { p1: xy(0.0, 0.0), p2: xy(1.0, 1.0) });

    let reversed: Stroke = reverse_segment(&segment);
    match reversed {
        Stroke::Segment(segment) => {
            assert_eq!(segment.p1.x, grid(1.0));
            assert_eq!(segment.p1.y, grid(1.0));
            assert_eq!(segment.p2.x, grid(0.0));
            assert_eq!(segment.p2.y, grid(0.0));
        }
        _ => panic!("Expected segment"),
    }
}

#[test]
fn test_reverse_segment() {
    let segment = Segment { p1: xy(0.0, 0.0), p2: xy(1.0, 1.0) };

    let reversed = reverse_segment(&segment);
    assert!(points_equal(segment.get_p1(), reversed.get_p2(), None));
    assert!(points_equal(segment.get_p2(), reversed.get_p1(), None));
}

#[test]
fn test_reverse_stroke_as_stroke_segment() {
    let segment: Stroke = Stroke::Segment(Segment { p1: xy(0.0, 0.0), p2: xy(1.0, 1.0) });

    let reversed: Stroke = reverse_stroke(&segment);
    assert!(points_equal(segment.get_p1(), reversed.get_p2(), None));
    assert!(points_equal(segment.get_p2(), reversed.get_p1(), None));
}

#[test]
fn test_reverse_arc() {
    let arc = Arc { p1: xy(0.0, 0.0), p2: xy(1.0, 1.0), center: xy(0.5, 0.5), major: Some(true) };

    let reversed = reverse_arc(&arc);
    assert!(points_equal(arc.get_p1(), reversed.get_p2(), None));
    assert!(points_equal(arc.get_p2(), reversed.get_p1(), None));
    assert!(points_equal(arc.get_center().unwrap(), reversed.get_center().unwrap(), None));
    assert_eq!(arc.get_major(), reversed.get_major());
}

#[test]
fn test_reverse_stroke_as_stroke_arc() {
    let arc: Stroke = Stroke::Arc(Arc {
        p1: xy(0.0, 0.0),
        p2: xy(1.0, 1.0),
        center: xy(0.5, 0.5),
        major: Some(true),
    });

    let reversed: Stroke = reverse_stroke(&arc);
    assert!(points_equal(arc.get_p1(), reversed.get_p2(), None));
    assert!(points_equal(arc.get_p2(), reversed.get_p1(), None));
    assert!(points_equal(arc.get_center().unwrap(), reversed.get_center().unwrap(), None));
    assert_eq!(arc.get_major(), reversed.get_major());
}

#[test]
fn reversing_twice_gives_the_stroke_back() {
    let strokes: Vec<Stroke> = vec![
        Stroke::Segment(Segment { p1: XY { x: 3, y: -4 }, p2: XY { x: 10, y: 11 } }),
        Stroke::Arc(Arc {
            p1: XY { x: 0, y: 0 },
            p2: XY { x: 8, y: 8 },
            center: XY { x: 8, y: 0 },
            major: Some(false),
        }),
        Stroke::Arc(Arc {
            p1: XY { x: 0, y: 0 },
            p2: XY { x: 8, y: 8 },
            center: XY { x: 8, y: 0 },
            major: None,
        }),
    ];
    for stroke in strokes {
        let once = reverse_stroke(&stroke);
        assert_eq!(once.get_p1(), stroke.get_p2());
        assert_eq!(once.get_p2(), stroke.get_p1());
        assert_eq!(once.get_center(), stroke.get_center());
        assert_eq!(once.get_major(), stroke.get_major());
        assert_eq!(reverse_stroke(&once), stroke);
    }
}

#[test]
fn reversing_an_annotated_stroke_keeps_the_payload() {
    let stroke = AnnotatedStroke {
        stroke: Stroke::Segment(Segment { p1: XY { x: 1, y: 2 }, p2: XY { x: 3, y: 4 } }),
        data: "left".to_string(),
    };
    let reversed = reverse_stroke(&stroke);
    assert_eq!(reversed.data, "left");
    assert_eq!(
        reversed.stroke,
        Stroke::Segment(Segment { p1: XY { x: 3, y: 4 }, p2: XY { x: 1, y: 2 } })
    );
    assert_eq!(reverse_stroke(&reversed), stroke);
}

#[test]
fn stroke_with_new_data_keeps_the_geometry() {
    let arc = Stroke::Arc(Arc {
        p1: XY { x: 0, y: 0 },
        p2: XY { x: 8, y: 8 },
        center: XY { x: 8, y: 0 },
        major: Some(true),
    });
    let tagged = stroke_with_new_data(arc, 7u32);
    assert_eq!(tagged.stroke, arc);
    assert_eq!(tagged.data, 7);
    let again = stroke_with_new_data(tagged, "x".to_string());
    assert_eq!(again.stroke, arc);
    assert_eq!(again.data, "x");
}

#[test]
fn setters_change_one_thing() {
    let mut stroke = Stroke::Arc(Arc {
        p1: XY { x: 0, y: 0 },
        p2: XY { x: 8, y: 8 },
        center: XY { x: 8, y: 0 },
        major: None,
    });
    stroke.set_p1(XY { x: 1, y: 1 });
    stroke.set_major(true);
    stroke.set_center(XY { x: 9, y: 1 });
    stroke.set_p2(XY { x: 7, y: 7 });
    assert_eq!(
        stroke,
        Stroke::Arc(Arc {
            p1: XY { x: 1, y: 1 },
            p2: XY { x: 7, y: 7 },
            center: XY { x: 9, y: 1 },
            major: Some(true),
        })
    );
    assert!(matches!(stroke.get_type(), StrokeType::Arc));
    assert_eq!(stroke.get_stroke(), stroke);
}

#[test]
fn a_segment_has_no_centre_to_set() {
    let mut stroke = Stroke::Segment(Segment { p1: XY { x: 0, y: 0 }, p2: XY { x: 8, y: 8 } });
    stroke.set_center(XY { x: 4, y: 4 });
    stroke.set_major(true);
    assert_eq!(stroke.get_center(), None);
    assert_eq!(stroke.get_major(), None);
    assert_eq!(stroke, Stroke::Segment(Segment { p1: XY { x: 0, y: 0 }, p2: XY { x: 8, y: 8 } }));
    assert!(matches!(stroke.get_type(), StrokeType::Segment));
}
