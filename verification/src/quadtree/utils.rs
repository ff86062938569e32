use vstd::prelude::*;
use crate::geometry::stroke_types::Segment;
use crate::geometry::types::{BoundingBox, XY};

verus! {

/// `v` brought into the range of a coordinate.
pub open spec fn clamp_coord(v: int) -> i64 {
    if v < i64::MIN {
        i64::MIN
    } else if v > i64::MAX {
        i64::MAX
    } else {
        v as i64
    }
}

/// The rectangle grown by `distance` on all four sides, each border stopping
/// at the end of the coordinate range.
pub open spec fn offset_bounds(node: BoundingBox, distance: i64) -> BoundingBox {
    BoundingBox {
        x_min: clamp_coord(node.x_min - distance),
        x_max: clamp_coord(node.x_max + distance),
        y_min: clamp_coord(node.y_min - distance),
        y_max: clamp_coord(node.y_max + distance),
    }
}

fn clamped(v: i128) -> (r: i64)
    ensures
        r == clamp_coord(v as int),
{
    if v < i64::MIN as i128 {
        i64::MIN
    } else if v > i64::MAX as i128 {
        i64::MAX
    } else {
        v as i64
    }
}

/// Grows a rectangle by `distance` on all four sides (shrinks it when
/// `distance` is negative).
pub fn offset_node_bounds(node: &BoundingBox, distance: i64) -> (r: BoundingBox)
    ensures
        r == offset_bounds(*node, distance),
{
    BoundingBox {
        x_min: clamped(node.x_min as i128 - distance as i128),
        x_max: clamped(node.x_max as i128 + distance as i128),
        y_min: clamped(node.y_min as i128 - distance as i128),
        y_max: clamped(node.y_max as i128 + distance as i128),
    }
}

/// Stopping the borders at the end of the coordinate range loses no point: a
/// point is in the grown rectangle exactly when it is within `distance` of the
/// rectangle itself on each axis.
pub proof fn lemma_offset_contains(node: BoundingBox, distance: i64, p: XY)
    ensures
        offset_bounds(node, distance).contains(p) <==> {
            &&& node.x_min - distance <= p.x <= node.x_max + distance
            &&& node.y_min - distance <= p.y <= node.y_max + distance
        },
{
}

/// Growing by nothing changes nothing.
pub proof fn lemma_offset_zero(node: BoundingBox)
    ensures
        offset_bounds(node, 0) == node,
{
}

/// The four corners of a rectangle: bottom left, top left, top right, bottom
/// right.
pub fn get_node_points(node: &BoundingBox) -> (points: Vec<XY>)
    ensures
        points@ == seq![
            XY { x: node.x_min, y: node.y_min },
            XY { x: node.x_min, y: node.y_max },
            XY { x: node.x_max, y: node.y_max },
            XY { x: node.x_max, y: node.y_min },
        ],
{
    let mut points: Vec<XY> = Vec::new();
    points.push(XY { x: node.x_min, y: node.y_min });
    points.push(XY { x: node.x_min, y: node.y_max });
    points.push(XY { x: node.x_max, y: node.y_max });
    points.push(XY { x: node.x_max, y: node.y_min });
    points
}

/// The edges of a closed outline: from each point to the next, and from the
/// last back to the first.
pub fn get_node_edges(points: &Vec<XY>) -> (edges: Vec<Segment>)
    ensures
        edges@.len() == points@.len(),
        forall|i: int|
            0 <= i < points@.len() ==> #[trigger] edges@[i] == (Segment {
                p1: points@[i],
                p2: points@[(i + 1) % (points@.len() as int)],
            }),
{
    let mut edges: Vec<Segment> = Vec::new();
    let mut i: usize = 0;
    while i < points.len()
        invariant
            i <= points@.len(),
            edges@.len() == i,
            forall|j: int|
                0 <= j < i ==> #[trigger] edges@[j] == (Segment {
                    p1: points@[j],
                    p2: points@[(j + 1) % (points@.len() as int)],
                }),
        decreases points@.len() - i,
    {
        let p1: XY = points[i];
        let next: usize = if i + 1 == points.len() {
            0
        } else {
            i + 1
        };
        assert(next == (i + 1) % (points@.len() as int)) by {
            if i + 1 == points@.len() {
                assert((i + 1) % (points@.len() as int) == 0) by (nonlinear_arith)
                    requires
                        i + 1 == points@.len(),
                        points@.len() > 0,
                ;
            } else {
                assert((i + 1) % (points@.len() as int) == i + 1) by (nonlinear_arith)
                    requires
                        0 <= i + 1 < points@.len(),
                ;
            }
        }
        let p2: XY = points[next];
        edges.push(Segment { p1, p2 });
        i += 1;
    }
    edges
}

} // verus!
