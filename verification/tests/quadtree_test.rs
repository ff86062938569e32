use rust_comp_geo::geometry::types::XY;
use rust_comp_geo::quadtree::quadtree::{Quadtree, QuadtreeProps};
use rust_comp_geo::quadtree::quadtree_circle::QuadtreeCircle;
use rust_comp_geo::quadtree::quadtree_point::QuadtreePoint;
use rust_comp_geo::quadtree::types::{NodeGeometry, Quadrant};
use rust_comp_geo::utils::GRID_PER_UNIT;

/// Grid steps in `v` drawing units, cut off toward zero, computed exactly.
fn grid(v: f64) -> i64 {
    let bits = v.to_bits();
    let negative = (bits >> 63) == 1;
    let exponent = ((bits >> 52) & 0x7ff) as i64;
    let fraction = bits & 0x000f_ffff_ffff_ffff;
    let (mantissa, power) = if exponent == 0 {
        (fraction, -1074i64)
    } else {
        (fraction | (1u64 << 52), exponent - 1075)
    };
    let scaled = (mantissa as u128) * (GRID_PER_UNIT as u128);
    let steps = if power >= 0 {
        scaled << power
    } else if -power >= 128 {
        0
    } else {
        scaled >> (-power)
    };
    let steps = steps as i64;
    if negative {
        -steps
    } else {
        steps
    }
}

fn xy(x: f64, y: f64) -> XY {
    XY { x: grid(x), y: grid(y) }
}

fn setup() -> Quadtree<QuadtreePoint<String>, String> {
    let props: QuadtreeProps = QuadtreeProps {
        bounds: NodeGeometry { x_min: grid(0.0), x_max: grid(100.0), y_min: grid(0.0), y_max: grid(100.0) },
        max_objects: 2,
        max_levels: 4,
    };

    let quadtree: Quadtree<QuadtreePoint<String>, String> = Quadtree::new(props, 0);
    quadtree
}

#[test]
fn test_insert_object_to_quadtree() {
    let mut quadtree = setup();

    let object: QuadtreePoint<String> = QuadtreePoint::new(xy(50.0, 50.0), "test".to_string());
    quadtree.insert(&object);

    assert_eq!(quadtree.objects.len(), 1);
    assert_eq!(quadtree.objects[0], object);

    quadtree.clear();
}

#[test]
fn test_split_node_when_max_object() {
    let mut quadtree = setup();

    let object1: QuadtreePoint<String> = QuadtreePoint::new(xy(25.0, 25.0), "object1".to_string());
    let object2: QuadtreePoint<String> = QuadtreePoint::new(xy(25.0, 75.0), "object2".to_string());
    let object3: QuadtreePoint<String> = QuadtreePoint::new(xy(75.0, 25.0), "object3".to_string());
    let object4: QuadtreePoint<String> = QuadtreePoint::new(xy(75.0, 75.0), "object4".to_string());

    quadtree.insert(&object1);
    quadtree.insert(&object2);
    quadtree.insert(&object3);
    quadtree.insert(&object4);

    assert_eq!(quadtree.nodes.len(), 4);
    assert_eq!(quadtree.objects.len(), 0);
    assert!(quadtree.nodes[Quadrant::TopRight as usize].objects.contains(&object4));
    assert!(quadtree.nodes[Quadrant::TopLeft as usize].objects.contains(&object2));
    assert!(quadtree.nodes[Quadrant::BottomLeft as usize].objects.contains(&object1));
    assert!(quadtree.nodes[Quadrant::BottomRight as usize].objects.contains(&object3));
}

#[test]
fn test_retrieve_objects_that_could_collide_with_geometry() {
    let mut quadtree = setup();

    let circle1: QuadtreeCircle<String> =
        QuadtreeCircle::new(xy(45.0, 45.0), grid(10.0), "circle1".to_string());
    let circle2: QuadtreeCircle<String> =
        QuadtreeCircle::new(xy(45.0, 45.0), grid(1.0), "circle2".to_string());

    let object1: QuadtreePoint<String> = QuadtreePoint::new(xy(25.0, 25.0), "object1".to_string());
    let object2: QuadtreePoint<String> = QuadtreePoint::new(xy(25.0, 75.0), "object2".to_string());
    let object3: QuadtreePoint<String> = QuadtreePoint::new(xy(75.0, 25.0), "object3".to_string());
    let object4: QuadtreePoint<String> = QuadtreePoint::new(xy(75.0, 75.0), "object4".to_string());

    quadtree.insert(&object1);
    quadtree.insert(&object2);
    quadtree.insert(&object3);
    quadtree.insert(&object4);

    let result1 = quadtree.search(&circle1, grid(0.0));
    assert_eq!(result1.len(), 4);
    assert!(result1.contains(&&object1));
    assert!(result1.contains(&&object2));
    assert!(result1.contains(&&object3));
    assert!(result1.contains(&&object4));

    let result2 = quadtree.search(&circle2, grid(0.0));
    assert_eq!(result2.len(), 1);
    assert!(result2.contains(&&object1));
}
