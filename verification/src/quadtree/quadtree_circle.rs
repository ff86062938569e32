use vstd::prelude::*;
use vstd::std_specs::cmp::{PartialEqSpec, PartialEqSpecImpl};
use crate::geometry::types::{BoundingBox, Circle, XY};
use crate::quadtree::containment::{reaches, splits_well};
use crate::quadtree::quadtree::{clones_exactly, midpoint, quadrant};
use crate::quadtree::quadtree_point::QuadtreePoint;
use crate::quadtree::types::{NodeGeometry, QuadTreeObject};
use crate::quadtree::utils::{lemma_offset_zero, offset_bounds};

verus! {

/// The number of the range from `low` to `high` that is nearest to `v`.
pub open spec fn nearest(v: int, low: int, high: int) -> int {
    let capped = if v <= high {
        v
    } else {
        high
    };
    if low >= capped {
        low
    } else {
        capped
    }
}

/// The disc and the rectangle have a point in common: the point of the
/// rectangle nearest to the centre is no farther from it than the radius.
pub open spec fn circle_meets(circle: Circle, node: BoundingBox) -> bool {
    let delta_x = circle.center.x - nearest(
        circle.center.x as int,
        node.x_min as int,
        node.x_max as int,
    );
    let delta_y = circle.center.y - nearest(
        circle.center.y as int,
        node.y_min as int,
        node.y_max as int,
    );
    delta_x * delta_x + delta_y * delta_y <= circle.radius * circle.radius
}

fn nearest_in(v: i64, low: i64, high: i64) -> (r: i64)
    ensures
        r == nearest(v as int, low as int, high as int),
{
    let capped: i64 = if v <= high {
        v
    } else {
        high
    };
    if low >= capped {
        low
    } else {
        capped
    }
}

fn magnitude(v: i128) -> (r: u128)
    requires
        -0x1_0000_0000_0000_0000 < v < 0x1_0000_0000_0000_0000,
    ensures
        v < 0 ==> r == -v,
        v >= 0 ==> r == v,
{
    if v < 0 {
        (-v) as u128
    } else {
        v as u128
    }
}

/// Whether a disc and a rectangle have a point in common.
pub fn circle_in_node(circle: &Circle, node: &NodeGeometry) -> (r: bool)
    ensures
        r == circle_meets(*circle, *node),
{
    let NodeGeometry { x_min, x_max, y_min, y_max } = *node;
    let clamped_x: i64 = nearest_in(circle.center.x, x_min, x_max);
    let delta_x: i128 = circle.center.x as i128 - clamped_x as i128;
    let clamped_y: i64 = nearest_in(circle.center.y, y_min, y_max);
    let delta_y: i128 = circle.center.y as i128 - clamped_y as i128;
    let reach: u128 = magnitude(circle.radius as i128);
    let far_x: u128 = magnitude(delta_x);
    let far_y: u128 = magnitude(delta_y);
    assert(reach * reach == circle.radius * circle.radius) by (nonlinear_arith)
        requires
            reach == circle.radius || reach == -circle.radius,
    ;
    assert(far_x * far_x == delta_x * delta_x) by (nonlinear_arith)
        requires
            far_x == delta_x || far_x == -delta_x,
    ;
    assert(far_y * far_y == delta_y * delta_y) by (nonlinear_arith)
        requires
            far_y == delta_y || far_y == -delta_y,
    ;
    assert(reach * reach <= 0x4000_0000_0000_0000_0000_0000_0000_0000) by (nonlinear_arith)
        requires
            0 <= reach <= 0x8000_0000_0000_0000,
    ;
    if far_x > reach {
        assert(far_x * far_x > reach * reach) by (nonlinear_arith)
            requires
                far_x > reach >= 0,
        ;
        assert(far_y * far_y >= 0) by (nonlinear_arith);
        return false;
    }
    if far_y > reach {
        assert(far_y * far_y > reach * reach) by (nonlinear_arith)
            requires
                far_y > reach >= 0,
        ;
        assert(far_x * far_x >= 0) by (nonlinear_arith);
        return false;
    }
    assert(far_x * far_x <= reach * reach) by (nonlinear_arith)
        requires
            0 <= far_x <= reach,
    ;
    assert(far_y * far_y <= reach * reach) by (nonlinear_arith)
        requires
            0 <= far_y <= reach,
    ;
    far_x * far_x + far_y * far_y <= reach * reach
}

/// A disc with a payload, as an object of a quadtree.
#[derive(Debug, Hash)]
pub struct QuadtreeCircle<U> {
    pub center: XY,
    pub radius: i64,
    pub data: U,
}

impl<U: Clone> Clone for QuadtreeCircle<U> {
    fn clone(&self) -> (r: Self)
        ensures
            r.center == self.center,
            r.radius == self.radius,
            cloned(self.data, r.data),
    {
        QuadtreeCircle { center: self.center, radius: self.radius, data: self.data.clone() }
    }
}

impl<U: PartialEq> PartialEq for QuadtreeCircle<U> {
    fn eq(&self, other: &Self) -> (r: bool) {
        self.center == other.center && self.data == other.data && self.radius == other.radius
    }
}

impl<U: PartialEq> PartialEqSpecImpl for QuadtreeCircle<U> {
    open spec fn obeys_eq_spec() -> bool {
        U::obeys_eq_spec()
    }

    open spec fn eq_spec(&self, other: &Self) -> bool {
        self.center == other.center && self.data.eq_spec(&other.data) && self.radius
            == other.radius
    }
}

impl<U: Eq> Eq for QuadtreeCircle<U> {

}

impl<U> QuadtreeCircle<U> {
    pub fn new(center: XY, radius: i64, data: U) -> (r: Self)
        ensures
            r.center == center,
            r.radius == radius,
            r.data == data,
    {
        QuadtreeCircle { center, radius, data }
    }
}

impl<U> QuadTreeObject<U> for QuadtreeCircle<U> {
    open spec fn inside(&self, node: BoundingBox) -> bool {
        circle_meets(Circle { center: self.center, radius: self.radius }, node)
    }

    open spec fn data(&self) -> U {
        self.data
    }

    fn get_data(&self) -> (d: &U) {
        &self.data
    }

    fn in_node(&self, node: &NodeGeometry) -> (b: bool) {
        circle_in_node(&Circle { center: self.center, radius: self.radius }, node)
    }
}

/// Where a clone of a payload is the same payload, a clone of a disc with
/// such a payload is the same disc with the same payload.
pub proof fn lemma_circle_clones_exactly<U: Clone>()
    requires
        clones_exactly::<U>(),
    ensures
        clones_exactly::<QuadtreeCircle<U>>(),
{
    assert forall|a: QuadtreeCircle<U>, c: QuadtreeCircle<U>| #[trigger] cloned(a, c) implies c
        == a by {
        assert(cloned(a.data, c.data));
    }
}

/// Of two numbers the one nearer to zero has the smaller square.
pub proof fn lemma_square_grows(near: int, far: int)
    requires
        -far <= near <= far || far <= near <= -far,
    ensures
        near * near <= far * far,
{
    assert(near * near <= far * far) by (nonlinear_arith)
        requires
            -far <= near <= far || far <= near <= -far,
    ;
}

/// A disc that has a point in common with a rectangle has that point in
/// common with it.
pub proof fn lemma_circle_meets_around(circle: Circle, node: BoundingBox, p: XY)
    requires
        node.contains(p),
        (circle.center.x - p.x) * (circle.center.x - p.x) + (circle.center.y - p.y) * (
        circle.center.y - p.y) <= circle.radius * circle.radius,
    ensures
        circle_meets(circle, node),
{
    let near_x = nearest(circle.center.x as int, node.x_min as int, node.x_max as int);
    let near_y = nearest(circle.center.y as int, node.y_min as int, node.y_max as int);
    lemma_square_grows(circle.center.x - near_x, circle.center.x - p.x);
    lemma_square_grows(circle.center.y - near_y, circle.center.y - p.y);
}

/// A disc that has a point in common with a proper rectangle has a point in
/// common with one of its quarters.
pub proof fn lemma_circle_splits_well<U>(obj: QuadtreeCircle<U>)
    ensures
        splits_well::<QuadtreeCircle<U>, U>(obj),
{
    reveal(splits_well);
    assert forall|b: BoundingBox| b.proper() && obj.inside(b) implies exists|i: int|
        0 <= i < 4 && #[trigger] obj.inside(quadrant(b, i)) by {
        let circle = Circle { center: obj.center, radius: obj.radius };
        let near_x = nearest(obj.center.x as int, b.x_min as int, b.x_max as int);
        let near_y = nearest(obj.center.y as int, b.y_min as int, b.y_max as int);
        let p = XY { x: near_x as i64, y: near_y as i64 };
        let x_mid = midpoint(b.x_min, b.x_max);
        let y_mid = midpoint(b.y_min, b.y_max);
        let i: int = if p.x <= x_mid {
            if p.y <= y_mid {
                0
            } else {
                1
            }
        } else {
            if p.y <= y_mid {
                3
            } else {
                2
            }
        };
        assert(quadrant(b, i).contains(p));
        lemma_circle_meets_around(circle, quadrant(b, i), p);
        assert(obj.inside(quadrant(b, i)));
    }
}

/// A disc reaches every point that lies in it.
pub proof fn lemma_circle_reaches_point<U>(query: QuadtreeCircle<U>, obj: QuadtreePoint<U>)
    requires
        (query.center.x - obj.point.x) * (query.center.x - obj.point.x) + (query.center.y
            - obj.point.y) * (query.center.y - obj.point.y) <= query.radius * query.radius,
    ensures
        reaches::<QuadtreePoint<U>, QuadtreeCircle<U>, U>(query, 0, obj),
{
    assert forall|b: BoundingBox| #[trigger] obj.inside(b) implies query.inside(
        offset_bounds(b, 0),
    ) by {
        lemma_offset_zero(b);
        lemma_circle_meets_around(
            Circle { center: query.center, radius: query.radius },
            b,
            obj.point,
        );
    }
}

} // verus!
