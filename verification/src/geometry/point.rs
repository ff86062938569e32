use vstd::prelude::*;
use crate::geometry::types::{BoundingBox, XY};
use crate::utils::{close, close_equal, tolerance_or, CLOSE_TOLERANCE};

verus! {

/// The point with the given coordinates.
pub fn create_point(x: i64, y: i64) -> (p: XY)
    ensures
        p == (XY { x, y }),
{
    XY { x, y }
}

/// The two points are closer than `tolerance` on each axis.
pub open spec fn points_close(p1: XY, p2: XY, tolerance: int) -> bool {
    close(p1.x as int, p2.x as int, tolerance) && close(p1.y as int, p2.y as int, tolerance)
}

/// Whether two points are the same within the tolerance (within
/// `CLOSE_TOLERANCE` when none is given).
pub fn points_equal(p1: XY, p2: XY, tolerance: Option<i64>) -> (r: bool)
    ensures
        r == points_close(p1, p2, tolerance_or(tolerance, CLOSE_TOLERANCE) as int),
{
    close_equal(p1.x, p2.x, tolerance) && close_equal(p1.y, p2.y, tolerance)
}

/// Being the same within a tolerance does not depend on the order of the two
/// points.
pub proof fn lemma_points_close_symmetric(p1: XY, p2: XY, tolerance: int)
    ensures
        points_close(p1, p2, tolerance) == points_close(p2, p1, tolerance),
{
}

/// The test "is the same as `p1` within `CLOSE_TOLERANCE`".
pub fn point_equals(p1: XY) -> (f: impl Fn(XY) -> bool)
    ensures
        forall|p2: XY| #[trigger] f.requires((p2,)),
        forall|p2: XY, r: bool|
            f.ensures((p2,), r) ==> r == points_close(p1, p2, CLOSE_TOLERANCE as int),
{
    move |p2: XY| -> (r: bool)
        ensures
            r == points_close(p1, p2, CLOSE_TOLERANCE as int),
        { points_equal(p1, p2, None) }
}

/// The sum of the two points, axis by axis, fits a point.
pub open spec fn can_translate(translation: XY, p: XY) -> bool {
    &&& i64::MIN <= translation.x + p.x <= i64::MAX
    &&& i64::MIN <= translation.y + p.y <= i64::MAX
}

/// The move by `translation`: it takes a point to the point that lies
/// `translation.x` to the right of it and `translation.y` above.
pub fn translate_point(translation: XY) -> (f: impl Fn(XY) -> XY)
    ensures
        forall|p: XY| can_translate(translation, p) ==> #[trigger] f.requires((p,)),
        forall|p: XY, r: XY|
            f.ensures((p,), r) ==> r.x == translation.x + p.x && r.y == translation.y + p.y,
{
    move |p: XY| -> (r: XY)
        requires
            can_translate(translation, p),
        ensures
            r.x == translation.x + p.x,
            r.y == translation.y + p.y,
        { XY { x: translation.x + p.x, y: translation.y + p.y } }
}

/// The least rectangle around the first `count` of `points`; around no
/// point, the rectangle that is inverted from end to end of the coordinate
/// range.
pub open spec fn bounding_box_of(points: Seq<XY>, count: int) -> BoundingBox
    decreases count,
{
    if count <= 0 || count > points.len() {
        BoundingBox { x_min: i64::MAX, x_max: i64::MIN, y_min: i64::MAX, y_max: i64::MIN }
    } else {
        let rest = bounding_box_of(points, count - 1);
        let p = points[count - 1];
        BoundingBox {
            x_min: if p.x < rest.x_min {
                p.x
            } else {
                rest.x_min
            },
            x_max: if p.x > rest.x_max {
                p.x
            } else {
                rest.x_max
            },
            y_min: if p.y < rest.y_min {
                p.y
            } else {
                rest.y_min
            },
            y_max: if p.y > rest.y_max {
                p.y
            } else {
                rest.y_max
            },
        }
    }
}

/// The least rectangle that contains every one of `points`.
pub fn bounding_box_from_points(points: &Vec<XY>) -> (b: BoundingBox)
    ensures
        b == bounding_box_of(points@, points@.len() as int),
{
    let mut x_min: i64 = i64::MAX;
    let mut y_min: i64 = i64::MAX;
    let mut x_max: i64 = i64::MIN;
    let mut y_max: i64 = i64::MIN;
    let mut i: usize = 0;
    while i < points.len()
        invariant
            i <= points@.len(),
            (BoundingBox { x_min, x_max, y_min, y_max }) == bounding_box_of(points@, i as int),
        decreases points@.len() - i,
    {
        let p: XY = points[i];
        if p.x < x_min {
            x_min = p.x;
        }
        if p.y < y_min {
            y_min = p.y;
        }
        if p.x > x_max {
            x_max = p.x;
        }
        if p.y > y_max {
            y_max = p.y;
        }
        i += 1;
    }
    BoundingBox { x_min, x_max, y_min, y_max }
}

/// The rectangle around some points contains each of them, is proper, and
/// each of its borders passes through one of them.
pub proof fn lemma_bounding_box(points: Seq<XY>, count: int)
    requires
        0 <= count <= points.len(),
    ensures
        forall|i: int| 0 <= i < count ==> bounding_box_of(points, count).contains(#[trigger] points[i]),
        count > 0 ==> bounding_box_of(points, count).proper(),
        count > 0 ==> exists|i: int|
            0 <= i < count && (#[trigger] points[i]).x == bounding_box_of(points, count).x_min,
        count > 0 ==> exists|i: int|
            0 <= i < count && (#[trigger] points[i]).x == bounding_box_of(points, count).x_max,
        count > 0 ==> exists|i: int|
            0 <= i < count && (#[trigger] points[i]).y == bounding_box_of(points, count).y_min,
        count > 0 ==> exists|i: int|
            0 <= i < count && (#[trigger] points[i]).y == bounding_box_of(points, count).y_max,
    decreases count,
{
    if count > 0 {
        lemma_bounding_box(points, count - 1);
        let b = bounding_box_of(points, count);
        let rest = bounding_box_of(points, count - 1);
        let p = points[count - 1];
        if count == 1 {
            assert(points[0] == p);
        } else {
            let ix_min = choose|i: int| 0 <= i < count - 1 && (#[trigger] points[i]).x == rest.x_min;
            let ix_max = choose|i: int| 0 <= i < count - 1 && (#[trigger] points[i]).x == rest.x_max;
            let iy_min = choose|i: int| 0 <= i < count - 1 && (#[trigger] points[i]).y == rest.y_min;
            let iy_max = choose|i: int| 0 <= i < count - 1 && (#[trigger] points[i]).y == rest.y_max;
            assert(points[if p.x < rest.x_min { count - 1 } else { ix_min }].x == b.x_min);
            assert(points[if p.x > rest.x_max { count - 1 } else { ix_max }].x == b.x_max);
            assert(points[if p.y < rest.y_min { count - 1 } else { iy_min }].y == b.y_min);
            assert(points[if p.y > rest.y_max { count - 1 } else { iy_max }].y == b.y_max);
        }
    }
}

} // verus!
