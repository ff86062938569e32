use rust_comp_geo::geometry::path::{
    unscramble_path, unscramble_plan, UnscramblePathOpts, PATH_TOLERANCE,
};
use rust_comp_geo::geometry::plan::PathStep;
use rust_comp_geo::geometry::point::points_equal;
use rust_comp_geo::geometry::stroke::{reverse_stroke, stroke_with_new_data};
use rust_comp_geo::geometry::stroke_types::{AnnotatedStroke, Arc, Segment, SegmentBehavior, Stroke};
use rust_comp_geo::geometry::types::XY;
use rust_comp_geo::utils::GRID_PER_UNIT;

/// Grid steps in `v` drawing units, cut off toward zero, computed exactly.
fn grid(v: f64) -> i64 {
    let bits = v.to_bits();
    let negative = (bits >> 63) == 1;
    let exponent = ((bits >> 52) & 0x7ff) as i64;
    let fraction = bits & 0x000f_ffff_ffff_ffff;
    let (mantissa, power) = if exponent == 0 {
        (fraction, -1074i64)
    } else {
        (fraction | (1u64 << 52), exponent - 1075)
    };
    let scaled = (mantissa as u128) * (GRID_PER_UNIT as u128);
    let steps = if power >= 0 {
        scaled << power
    } else if -power >= 128 {
        0
    } else {
        scaled >> (-power)
    };
    let steps = steps as i64;
    if negative {
        -steps
    } else {
        steps
    }
}

fn xy(x: f64, y: f64) -> XY {
    XY { x: grid(x), y: grid(y) }
}

fn segment(x1: f64, y1: f64, x2: f64, y2: f64) -> Stroke {
    Stroke::Segment(Segment { p1: xy(x1, y1), p2: xy(x2, y2) })
}

fn no_opts() -> Option<UnscramblePathOpts<fn(&Stroke) -> Stroke>> {
    None
}

fn updated_reverse(stroke: &AnnotatedStroke<String>) -> AnnotatedStroke<String> {
    let updated_data =
        if stroke.data.eq("left") { "right".to_string() } else { "left".to_string() };
    stroke_with_new_data(reverse_stroke(stroke), updated_data)
}

#[test]
fn test_unscramble_path_correctly_extracts_contiguous() {
    let path: Vec<Stroke> = vec![
        segment(7.0, 5.0, 0.0, 5.0),
        segment(10.0, 0.0, 10.0, 2.0),
        segment(0.0, 0.0, 10.0, 0.0),
        segment(0.0, 5.0, 0.0, 1.0),
        Stroke::Arc(Arc {
            center: xy(7.0, 2.0),
            p1: xy(10.0, 2.0),
            p2: xy(7.0, 5.0),
            major: None,
        }),
    ];

    let unscrambled = unscramble_path(path, no_opts());
    assert_eq!(unscrambled.len(), 1);

    let first_path = &unscrambled[0];
    assert_eq!(first_path.len(), 5);
    let first = &first_path[0].get_p1();
    let second = &first_path[1].get_p1();
    let third = &first_path[2].get_p1();
    let fourth = &first_path[3].get_p1();
    let fifth = &first_path[4].get_p1();
    assert!(points_equal(*first, xy(0.0, 0.0), None));
    assert!(points_equal(*second, xy(10.0, 0.0), None));
    assert!(points_equal(*third, xy(10.0, 2.0), None));
    assert!(points_equal(*fourth, xy(7.0, 5.0), None));
    assert!(points_equal(*fifth, xy(0.0, 5.0), None));
}

#[test]
fn test_unscramble_path_correctly_extracts_contiguous_with_reversal() {
    let path: Vec<Stroke> = vec![
        segment(7.0, 5.0, 0.0, 5.0),
        segment(10.0, 2.0, 10.0, 0.0),
        segment(0.0, 0.0, 10.0, 0.0),
        segment(0.0, 1.0, 0.0, 5.0),
        Stroke::Arc(Arc {
            center: xy(7.0, 2.0),
            p1: xy(7.0, 5.0),
            p2: xy(10.0, 2.0),
            major: None,
        }),
    ];

    let unscrambled = unscramble_path(path, no_opts());
    assert_eq!(unscrambled.len(), 1);

    let first_path = &unscrambled[0];
    assert_eq!(first_path.len(), 5);
    let first = &first_path[0].get_p1();
    let second = &first_path[1].get_p1();
    let third = &first_path[2].get_p1();
    let fourth = &first_path[3].get_p1();
    let fifth = &first_path[4].get_p1();
    assert!(points_equal(*first, xy(0.0, 0.0), None));
    assert!(points_equal(*second, xy(10.0, 0.0), None));
    assert!(points_equal(*third, xy(10.0, 2.0), None));
    assert!(points_equal(*fourth, xy(7.0, 5.0), None));
    assert!(points_equal(*fifth, xy(0.0, 5.0), None));
}

#[test]
fn test_unscramble_path_correctly_with_updated_reverse_func() {
    let path: Vec<AnnotatedStroke<String>> = vec![
        AnnotatedStroke { stroke: segment(7.0, 5.0, 0.0, 5.0), data: "left".to_string() },
        AnnotatedStroke { stroke: segment(10.0, 0.0, 10.0, 2.0), data: "left".to_string() },
        AnnotatedStroke { stroke: segment(0.0, 0.0, 10.0, 0.0), data: "left".to_string() },
        AnnotatedStroke { stroke: segment(0.0, 5.0, 0.0, 1.0), data: "right".to_string() },
        AnnotatedStroke {
            stroke: Stroke::Arc(Arc {
                center: xy(7.0, 2.0),
                p1: xy(10.0, 2.0),
                p2: xy(7.0, 5.0),
                major: None,
            }),
            data: "right".to_string(),
        },
    ];

    let unscrambled = unscramble_path(
        path,
        Some(UnscramblePathOpts { tolerance: None, reverse: Some(updated_reverse) }),
    );
    assert_eq!(unscrambled.len(), 1);

    let first_path = &unscrambled[0];
    assert_eq!(first_path.len(), 5);
    let first = &first_path[0].get_p1();
    let first_data = &first_path[0].data;
    let second = &first_path[1].get_p1();
    let second_data = &first_path[1].data;
    let third = &first_path[2].get_p1();
    let third_data = &first_path[2].data;
    let fourth = &first_path[3].get_p1();
    let fourth_data = &first_path[3].data;
    let fifth = &first_path[4].get_p1();
    let fifth_data = &first_path[4].data;
    assert!(points_equal(*first, xy(0.0, 0.0), None));
    assert_eq!(first_data, "left");
    assert!(points_equal(*second, xy(10.0, 0.0), None));
    assert_eq!(second_data, "left");
    assert!(points_equal(*third, xy(10.0, 2.0), None));
    assert_eq!(third_data, "right");
    assert!(points_equal(*fourth, xy(7.0, 5.0), None));
    assert_eq!(fourth_data, "left");
    assert!(points_equal(*fifth, xy(0.0, 5.0), None));
    assert_eq!(fifth_data, "right");
}

#[test]
fn test_unscramble_path_multiple_path_output() {
    let path: Vec<Stroke> = vec![
        segment(7.0, 5.0, 0.0, 5.0),
        segment(0.0, 0.0, 10.0, 0.0),
        segment(0.0, 1.0, 0.0, 5.0),
        Stroke::Arc(Arc {
            center: xy(7.0, 2.0),
            p1: xy(7.0, 5.0),
            p2: xy(10.0, 2.0),
            major: Some(false),
        }),
    ];

    let unscrambled = unscramble_path(path, no_opts());
    assert_eq!(unscrambled.len(), 2);
}

#[test]
fn no_stroke_gives_no_path() {
    let unscrambled = unscramble_path(Vec::new(), no_opts());
    assert!(unscrambled.is_empty());
    assert!(unscramble_plan(&Vec::new(), PATH_TOLERANCE).is_empty());
}

#[test]
fn one_stroke_gives_one_path_of_one() {
    let stroke = segment(1.0, 2.0, 3.0, 4.0);
    let unscrambled = unscramble_path(vec![stroke], no_opts());
    assert_eq!(unscrambled, vec![vec![stroke]]);
}

#[test]
fn two_closed_loops_give_two_paths() {
    let path: Vec<Stroke> = vec![
        segment(0.0, 0.0, 1.0, 0.0),
        segment(50.0, 50.0, 51.0, 50.0),
        segment(1.0, 1.0, 0.0, 0.0),
        segment(51.0, 50.0, 51.0, 51.0),
        segment(1.0, 0.0, 1.0, 1.0),
        segment(51.0, 51.0, 50.0, 50.0),
    ];
    let unscrambled = unscramble_path(path.clone(), no_opts());
    assert_eq!(unscrambled.len(), 2);
    assert_eq!(unscrambled[0].len(), 3);
    assert_eq!(unscrambled[1].len(), 3);
    for found in &unscrambled {
        assert!(points_equal(found[2].get_p2(), found[0].get_p1(), None));
    }
    assert!(unscrambled[0].contains(&path[0]));
    assert!(unscrambled[1].contains(&path[1]));
}

#[test]
fn the_plan_of_a_scrambled_outline() {
    let ends: Vec<(XY, XY)> = vec![
        (xy(7.0, 5.0), xy(0.0, 5.0)),
        (xy(10.0, 2.0), xy(10.0, 0.0)),
        (xy(0.0, 0.0), xy(10.0, 0.0)),
        (xy(0.0, 1.0), xy(0.0, 5.0)),
        (xy(7.0, 5.0), xy(10.0, 2.0)),
    ];
    let plan = unscramble_plan(&ends, PATH_TOLERANCE);
    assert_eq!(
        plan,
        vec![vec![
            PathStep { stroke: 2, reversed: false },
            PathStep { stroke: 1, reversed: true },
            PathStep { stroke: 4, reversed: true },
            PathStep { stroke: 0, reversed: false },
            PathStep { stroke: 3, reversed: true },
        ]]
    );
}

#[test]
fn every_stroke_is_in_exactly_one_path_and_the_paths_hang_together() {
    let mut ends: Vec<(XY, XY)> = Vec::new();
    for chain in 0..7i64 {
        for link in 0..9i64 {
            let from = XY { x: chain * 1_000_000_000 + link * 10_000, y: chain * 7 };
            let to = XY { x: chain * 1_000_000_000 + (link + 1) * 10_000, y: chain * 7 };
            if (chain + link) % 2 == 0 {
                ends.push((from, to));
            } else {
                ends.push((to, from));
            }
        }
    }
    ends.reverse();
    ends.swap(3, 40);
    ends.swap(11, 27);
    let tolerance = 5;
    let plan = unscramble_plan(&ends, tolerance);
    assert_eq!(plan.len(), 7);
    let mut seen = vec![0usize; ends.len()];
    for path in &plan {
        assert_eq!(path.len(), 9);
        for step in path {
            seen[step.stroke] += 1;
        }
        for pair in path.windows(2) {
            let end = if pair[0].reversed { ends[pair[0].stroke].0 } else { ends[pair[0].stroke].1 };
            let start =
                if pair[1].reversed { ends[pair[1].stroke].1 } else { ends[pair[1].stroke].0 };
            assert!(points_equal(end, start, Some(tolerance)));
        }
    }
    assert!(seen.iter().all(|count| *count == 1));
}

#[test]
fn end_points_within_the_tolerance_connect() {
    let ends: Vec<(XY, XY)> = vec![
        (XY { x: 0, y: 0 }, XY { x: 100, y: 0 }),
        (XY { x: 103, y: -3 }, XY { x: 200, y: 0 }),
    ];
    assert_eq!(unscramble_plan(&ends, 4).len(), 1);
    assert_eq!(unscramble_plan(&ends, 3).len(), 2);
    assert_eq!(
        unscramble_plan(&ends, 4),
        vec![vec![PathStep { stroke: 0, reversed: false }, PathStep { stroke: 1, reversed: false }]]
    );
}

#[test]
fn a_walk_goes_backward_from_the_first_stroke_too() {
    let ends: Vec<(XY, XY)> = vec![
        (XY { x: 100, y: 0 }, XY { x: 200, y: 0 }),
        (XY { x: 0, y: 0 }, XY { x: 100, y: 0 }),
        (XY { x: 0, y: 0 }, XY { x: -100, y: 0 }),
    ];
    assert_eq!(
        unscramble_plan(&ends, 1),
        vec![vec![
            PathStep { stroke: 2, reversed: true },
            PathStep { stroke: 1, reversed: false },
            PathStep { stroke: 0, reversed: false },
        ]]
    );
}
