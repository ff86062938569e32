use rust_comp_geo::geometry::stroke_types::Segment;
use rust_comp_geo::geometry::types::{BoundingBox, Circle, XY};
use rust_comp_geo::quadtree::quadtree::{Quadtree, QuadtreeProps};
use rust_comp_geo::quadtree::quadtree_circle::{circle_in_node, QuadtreeCircle};
use rust_comp_geo::quadtree::quadtree_point::{point_in_node, QuadtreePoint};
use rust_comp_geo::quadtree::types::{QuadTreeObject, Quadrant};
use rust_comp_geo::quadtree::utils::{get_node_edges, get_node_points, offset_node_bounds};

type Tree = Quadtree<QuadtreePoint<u32>, u32>;

fn tree(x_min: i64, x_max: i64, y_min: i64, y_max: i64, max_objects: usize, max_levels: usize) -> Tree {
    Quadtree::new(
        QuadtreeProps { bounds: BoundingBox { x_min, x_max, y_min, y_max }, max_objects, max_levels },
        0,
    )
}

fn point(x: i64, y: i64, data: u32) -> QuadtreePoint<u32> {
    QuadtreePoint::new(XY { x, y }, data)
}

fn scattered(count: u32) -> Vec<QuadtreePoint<u32>> {
    let mut state: i64 = 12345;
    let mut points = Vec::new();
    for data in 0..count {
        state = (state * 1103515245 + 12345) % 2147483648;
        let x = state % 1000;
        state = (state * 1103515245 + 12345) % 2147483648;
        let y = state % 1000;
        points.push(point(x, y, data % 40));
    }
    points
}

fn leaves_within_threshold(node: &Tree) -> bool {
    if node.nodes.is_empty() {
        node.level >= node.max_levels || node.objects.len() <= node.max_objects
    } else {
        node.objects.is_empty()
            && node.nodes.len() == 4
            && node.nodes.iter().all(|child| {
                child.level == node.level + 1 && leaves_within_threshold(child)
            })
    }
}

#[test]
fn a_new_tree_is_an_empty_leaf() {
    let quadtree: Tree = Quadtree::new(
        QuadtreeProps { bounds: BoundingBox { x_min: 1, x_max: 2, y_min: 3, y_max: 4 }, max_objects: 5, max_levels: 6 },
        7,
    );
    assert_eq!(quadtree.bounds, BoundingBox { x_min: 1, x_max: 2, y_min: 3, y_max: 4 });
    assert_eq!(quadtree.max_objects, 5);
    assert_eq!(quadtree.max_levels, 6);
    assert_eq!(quadtree.level, 7);
    assert!(quadtree.objects.is_empty());
    assert!(quadtree.nodes.is_empty());
}

#[test]
fn the_default_parameters() {
    let props = QuadtreeProps::default();
    assert_eq!(props.bounds, BoundingBox { x_min: 0, x_max: 0, y_min: 0, y_max: 0 });
    assert_eq!(props.max_objects, 10);
    assert_eq!(props.max_levels, 4);
    assert_eq!(BoundingBox::default(), BoundingBox { x_min: 0, x_max: 0, y_min: 0, y_max: 0 });
}

#[test]
fn split_cuts_at_the_midpoints_rounded_down() {
    let mut quadtree = tree(-5, 4, 0, 7, 3, 4);
    quadtree.split();
    assert_eq!(quadtree.nodes.len(), 4);
    assert_eq!(
        quadtree.nodes[Quadrant::BottomLeft.index()].bounds,
        BoundingBox { x_min: -5, x_max: -1, y_min: 0, y_max: 3 }
    );
    assert_eq!(
        quadtree.nodes[Quadrant::TopLeft.index()].bounds,
        BoundingBox { x_min: -5, x_max: -1, y_min: 3, y_max: 7 }
    );
    assert_eq!(
        quadtree.nodes[Quadrant::TopRight.index()].bounds,
        BoundingBox { x_min: -1, x_max: 4, y_min: 3, y_max: 7 }
    );
    assert_eq!(
        quadtree.nodes[Quadrant::BottomRight.index()].bounds,
        BoundingBox { x_min: -1, x_max: 4, y_min: 0, y_max: 3 }
    );
    for child in &quadtree.nodes {
        assert_eq!(child.level, 1);
        assert_eq!(child.max_objects, 3);
        assert_eq!(child.max_levels, 4);
        assert!(child.objects.is_empty());
        assert!(child.nodes.is_empty());
    }
}

#[test]
fn split_at_the_ends_of_the_coordinate_range() {
    let mut quadtree = tree(i64::MIN, i64::MAX, i64::MAX - 1, i64::MAX, 3, 4);
    quadtree.split();
    assert_eq!(
        quadtree.nodes[0].bounds,
        BoundingBox { x_min: i64::MIN, x_max: -1, y_min: i64::MAX - 1, y_max: i64::MAX - 1 }
    );
    assert_eq!(
        quadtree.nodes[2].bounds,
        BoundingBox { x_min: -1, x_max: i64::MAX, y_min: i64::MAX - 1, y_max: i64::MAX }
    );
}

#[test]
fn the_quadrants_are_numbered_from_the_bottom_left_clockwise() {
    assert_eq!(Quadrant::BottomLeft.index(), 0);
    assert_eq!(Quadrant::TopLeft.index(), 1);
    assert_eq!(Quadrant::TopRight.index(), 2);
    assert_eq!(Quadrant::BottomRight.index(), 3);
}

#[test]
fn a_leaf_splits_when_it_holds_more_than_the_threshold() {
    let mut quadtree = tree(0, 100, 0, 100, 2, 4);
    quadtree.insert(&point(10, 10, 1));
    quadtree.insert(&point(90, 90, 2));
    assert!(quadtree.nodes.is_empty());
    assert_eq!(quadtree.objects, vec![point(10, 10, 1), point(90, 90, 2)]);
    quadtree.insert(&point(10, 90, 3));
    assert_eq!(quadtree.nodes.len(), 4);
    assert!(quadtree.objects.is_empty());
    assert_eq!(quadtree.nodes[0].objects, vec![point(10, 10, 1)]);
    assert_eq!(quadtree.nodes[1].objects, vec![point(10, 90, 3)]);
    assert_eq!(quadtree.nodes[2].objects, vec![point(90, 90, 2)]);
    assert!(quadtree.nodes[3].objects.is_empty());
}

#[test]
fn an_object_on_the_cut_goes_to_every_child_that_it_touches() {
    let mut quadtree = tree(0, 100, 0, 100, 2, 4);
    quadtree.insert(&point(50, 50, 1));
    quadtree.insert(&point(50, 20, 2));
    quadtree.insert(&point(90, 90, 3));
    assert_eq!(quadtree.nodes.len(), 4);
    for child in &quadtree.nodes {
        assert!(child.objects.contains(&point(50, 50, 1)));
    }
    assert!(quadtree.nodes[0].objects.contains(&point(50, 20, 2)));
    assert!(quadtree.nodes[3].objects.contains(&point(50, 20, 2)));
    assert!(!quadtree.nodes[1].objects.contains(&point(50, 20, 2)));
    assert!(!quadtree.nodes[2].objects.contains(&point(50, 20, 2)));
}

#[test]
fn a_search_at_the_root_gives_each_object_once() {
    let mut quadtree = tree(0, 100, 0, 100, 1, 4);
    quadtree.insert(&point(50, 50, 1));
    quadtree.insert(&point(50, 20, 2));
    quadtree.insert(&point(50, 20, 2));
    let everything = QuadtreeCircle::new(XY { x: 50, y: 50 }, 1000, 0u32);
    let result = quadtree.search(&everything, 0);
    assert_eq!(result, vec![&point(50, 50, 1), &point(50, 20, 2)]);

    let mut leaf = tree(0, 100, 0, 100, 10, 4);
    leaf.insert(&point(5, 5, 9));
    leaf.insert(&point(5, 5, 9));
    assert_eq!(leaf.objects.len(), 2);
    assert_eq!(leaf.search(&everything, 0), vec![&point(5, 5, 9)]);
}

#[test]
fn a_search_below_the_root_gives_what_it_walks_over() {
    let mut below: Tree = Quadtree::new(
        QuadtreeProps { bounds: BoundingBox { x_min: 0, x_max: 100, y_min: 0, y_max: 100 }, max_objects: 10, max_levels: 4 },
        1,
    );
    below.insert(&point(5, 5, 9));
    below.insert(&point(5, 5, 9));
    let everything = QuadtreeCircle::new(XY { x: 50, y: 50 }, 1000, 0u32);
    assert_eq!(below.search(&everything, 0), vec![&point(5, 5, 9), &point(5, 5, 9)]);
}

#[test]
fn a_leaf_at_the_greatest_depth_takes_any_number_of_objects() {
    let mut quadtree = tree(0, 100, 0, 100, 2, 1);
    for data in 0..20u32 {
        quadtree.insert(&point(10, 10, data));
    }
    assert_eq!(quadtree.nodes.len(), 4);
    assert_eq!(quadtree.nodes[0].objects.len(), 20);
    assert!(quadtree.nodes[0].nodes.is_empty());
    assert_eq!(quadtree.nodes[0].level, 1);

    let mut flat = tree(0, 100, 0, 100, 2, 0);
    for data in 0..5u32 {
        flat.insert(&point(10, 10, data));
    }
    assert!(flat.nodes.is_empty());
    assert_eq!(flat.objects.len(), 5);
}

#[test]
fn no_leaf_that_may_split_holds_more_than_the_threshold() {
    let mut quadtree = tree(0, 999, 0, 999, 3, 5);
    for object in scattered(400) {
        quadtree.insert(&object);
        assert!(leaves_within_threshold(&quadtree));
    }
    assert_eq!(quadtree.nodes.len(), 4);
}

#[test]
fn a_search_gives_every_object_that_the_query_contains() {
    let mut quadtree = tree(0, 999, 0, 999, 3, 5);
    let objects = scattered(300);
    for object in &objects {
        quadtree.insert(object);
    }
    for object in &objects {
        let same_place = point(object.point.x, object.point.y, 0);
        assert!(quadtree.search(&same_place, 0).contains(&object));
        let around = QuadtreeCircle::new(XY { x: object.point.x + 3, y: object.point.y - 4 }, 5, 0u32);
        assert!(quadtree.search(&around, 0).contains(&object));
        let near = point(object.point.x + 6, object.point.y - 6, 0);
        assert!(quadtree.search(&near, 7).contains(&object));
    }
}

#[test]
fn a_search_gives_only_objects_of_the_tree_and_none_twice() {
    let mut quadtree = tree(0, 999, 0, 999, 3, 5);
    let objects = scattered(300);
    for object in &objects {
        quadtree.insert(object);
    }
    let query = QuadtreeCircle::new(XY { x: 500, y: 500 }, 200, 0u32);
    let result = quadtree.search(&query, 10);
    assert!(!result.is_empty());
    for (i, found) in result.iter().enumerate() {
        assert!(objects.contains(found));
        assert!(!result[..i].contains(found));
    }
}

#[test]
fn a_search_may_give_objects_that_are_far_from_the_query() {
    let mut quadtree = tree(0, 100, 0, 100, 4, 4);
    quadtree.insert(&point(1, 1, 1));
    quadtree.insert(&point(99, 99, 2));
    let query = QuadtreeCircle::new(XY { x: 1, y: 1 }, 1, 0u32);
    assert_eq!(quadtree.search(&query, 0), vec![&point(1, 1, 1), &point(99, 99, 2)]);
}

#[test]
fn an_object_outside_the_tree_is_lost_when_the_root_splits() {
    let mut quadtree = tree(0, 100, 0, 100, 1, 4);
    quadtree.insert(&point(500, 500, 1));
    assert_eq!(quadtree.objects, vec![point(500, 500, 1)]);
    quadtree.insert(&point(10, 10, 2));
    let everything = QuadtreeCircle::new(XY { x: 50, y: 50 }, 10_000, 0u32);
    assert_eq!(quadtree.search(&everything, 0), vec![&point(10, 10, 2)]);
}

#[test]
fn clear_leaves_one_empty_leaf() {
    let mut quadtree = tree(0, 999, 0, 999, 3, 5);
    for object in scattered(50) {
        quadtree.insert(&object);
    }
    assert!(!quadtree.nodes.is_empty());
    quadtree.clear();
    assert!(quadtree.nodes.is_empty());
    assert!(quadtree.objects.is_empty());
    assert_eq!(quadtree.bounds, BoundingBox { x_min: 0, x_max: 999, y_min: 0, y_max: 999 });
    assert_eq!(quadtree.max_objects, 3);
    assert_eq!(quadtree.max_levels, 5);
    assert_eq!(quadtree.level, 0);
}

#[test]
fn insert_and_clear_hand_the_tree_back() {
    let mut quadtree = tree(0, 100, 0, 100, 4, 4);
    quadtree.insert(&point(1, 1, 1)).insert(&point(2, 2, 2));
    assert_eq!(quadtree.objects.len(), 2);
    quadtree.clear().insert(&point(3, 3, 3));
    assert_eq!(quadtree.objects, vec![point(3, 3, 3)]);
}

#[test]
fn offset_grows_the_rectangle_on_all_sides() {
    let node = BoundingBox { x_min: -10, x_max: 20, y_min: 5, y_max: 6 };
    assert_eq!(
        offset_node_bounds(&node, 7),
        BoundingBox { x_min: -17, x_max: 27, y_min: -2, y_max: 13 }
    );
    assert_eq!(offset_node_bounds(&node, 0), node);
    assert_eq!(
        offset_node_bounds(&node, -1),
        BoundingBox { x_min: -9, x_max: 19, y_min: 6, y_max: 5 }
    );
}

#[test]
fn offset_stops_at_the_ends_of_the_coordinate_range() {
    let node = BoundingBox { x_min: i64::MIN + 3, x_max: i64::MAX - 3, y_min: 0, y_max: 0 };
    assert_eq!(
        offset_node_bounds(&node, 10),
        BoundingBox { x_min: i64::MIN, x_max: i64::MAX, y_min: -10, y_max: 10 }
    );
    assert_eq!(
        offset_node_bounds(&node, i64::MIN),
        BoundingBox { x_min: 3, x_max: -4, y_min: i64::MAX, y_max: i64::MIN }
    );
}

#[test]
fn a_point_is_in_a_rectangle_with_its_borders() {
    let node = BoundingBox { x_min: 0, x_max: 10, y_min: -5, y_max: 5 };
    assert!(point_in_node(&XY { x: 0, y: -5 }, &node));
    assert!(point_in_node(&XY { x: 10, y: 5 }, &node));
    assert!(point_in_node(&XY { x: 3, y: 0 }, &node));
    assert!(!point_in_node(&XY { x: -1, y: 0 }, &node));
    assert!(!point_in_node(&XY { x: 11, y: 0 }, &node));
    assert!(!point_in_node(&XY { x: 3, y: -6 }, &node));
    assert!(!point_in_node(&XY { x: 3, y: 6 }, &node));
    assert!(point(3, 0, 1).in_node(&node));
    assert_eq!(*point(3, 0, 17).get_data(), 17);
}

#[test]
fn a_circle_meets_a_rectangle_that_it_reaches() {
    let node = BoundingBox { x_min: 0, x_max: 10, y_min: 0, y_max: 10 };
    let at = |x: i64, y: i64, radius: i64| Circle { center: XY { x, y }, radius };
    assert!(circle_in_node(&at(5, 5, 0), &node));
    assert!(circle_in_node(&at(13, 14, 5), &node));
    assert!(!circle_in_node(&at(13, 14, 4), &node));
    assert!(circle_in_node(&at(-3, 5, 3), &node));
    assert!(!circle_in_node(&at(-3, 5, 2), &node));
    assert!(circle_in_node(&at(-3, 5, -3), &node));
    assert!(circle_in_node(&at(5, 20, 10), &node));
    assert!(!circle_in_node(&at(5, 20, 9), &node));
    let circle = QuadtreeCircle::new(XY { x: 13, y: 14 }, 5, "c".to_string());
    assert!(circle.in_node(&node));
    assert_eq!(circle.get_data(), "c");
}

#[test]
fn a_circle_and_a_rectangle_at_the_ends_of_the_coordinate_range() {
    let node = BoundingBox { x_min: i64::MAX, x_max: i64::MAX, y_min: i64::MAX, y_max: i64::MAX };
    let far = Circle { center: XY { x: i64::MIN, y: i64::MIN }, radius: i64::MAX };
    assert!(!circle_in_node(&far, &node));
    let wide = Circle { center: XY { x: i64::MAX, y: 0 }, radius: i64::MIN };
    assert!(circle_in_node(&wide, &node));
}

#[test]
fn the_corners_and_edges_of_a_rectangle() {
    let node = BoundingBox { x_min: 1, x_max: 2, y_min: 3, y_max: 4 };
    let corners = get_node_points(&node);
    assert_eq!(
        corners,
        vec![XY { x: 1, y: 3 }, XY { x: 1, y: 4 }, XY { x: 2, y: 4 }, XY { x: 2, y: 3 }]
    );
    let edges = get_node_edges(&corners);
    assert_eq!(
        edges,
        vec![
            Segment { p1: XY { x: 1, y: 3 }, p2: XY { x: 1, y: 4 } },
            Segment { p1: XY { x: 1, y: 4 }, p2: XY { x: 2, y: 4 } },
            Segment { p1: XY { x: 2, y: 4 }, p2: XY { x: 2, y: 3 } },
            Segment { p1: XY { x: 2, y: 3 }, p2: XY { x: 1, y: 3 } },
        ]
    );
    assert!(get_node_edges(&Vec::new()).is_empty());
    assert_eq!(
        get_node_edges(&vec![XY { x: 1, y: 3 }]),
        vec![Segment { p1: XY { x: 1, y: 3 }, p2: XY { x: 1, y: 3 } }]
    );
}
