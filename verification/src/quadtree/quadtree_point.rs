use vstd::prelude::*;
use vstd::std_specs::cmp::{PartialEqSpec, PartialEqSpecImpl};
use crate::geometry::point::points_close;
use crate::geometry::types::{BoundingBox, XY};
use crate::quadtree::containment::{reaches, splits_well};
use crate::quadtree::quadtree::{clones_exactly, midpoint, quadrant};
use crate::quadtree::types::QuadTreeObject;
use crate::quadtree::utils::{lemma_offset_contains, offset_bounds};

verus! {

/// Whether the point lies in the rectangle, borders included.
pub fn point_in_node(point: &XY, node: &BoundingBox) -> (r: bool)
    ensures
        r == node.contains(*point),
{
    point.x >= node.x_min && point.x <= node.x_max && point.y >= node.y_min && point.y
        <= node.y_max
}

/// A point with a payload, as an object of a quadtree.
#[derive(Debug, Hash)]
pub struct QuadtreePoint<U> {
    pub point: XY,
    pub data: U,
}

impl<U: Clone> Clone for QuadtreePoint<U> {
    fn clone(&self) -> (r: Self)
        ensures
            r.point == self.point,
            cloned(self.data, r.data),
    {
        QuadtreePoint { point: self.point, data: self.data.clone() }
    }
}

impl<U: PartialEq> PartialEq for QuadtreePoint<U> {
    fn eq(&self, other: &Self) -> (r: bool) {
        self.point == other.point && self.data == other.data
    }
}

impl<U: PartialEq> PartialEqSpecImpl for QuadtreePoint<U> {
    open spec fn obeys_eq_spec() -> bool {
        U::obeys_eq_spec()
    }

    open spec fn eq_spec(&self, other: &Self) -> bool {
        self.point == other.point && self.data.eq_spec(&other.data)
    }
}

impl<U: Eq> Eq for QuadtreePoint<U> {

}

impl<U> QuadtreePoint<U> {
    pub fn new(point: XY, data: U) -> (r: Self)
        ensures
            r.point == point,
            r.data == data,
    {
        QuadtreePoint { point, data }
    }
}

impl<U> QuadTreeObject<U> for QuadtreePoint<U> {
    open spec fn inside(&self, node: BoundingBox) -> bool {
        node.contains(self.point)
    }

    open spec fn data(&self) -> U {
        self.data
    }

    fn get_data(&self) -> (d: &U) {
        &self.data
    }

    fn in_node(&self, node: &BoundingBox) -> (b: bool) {
        point_in_node(&self.point, node)
    }
}

/// Where a clone of a payload is the same payload, a clone of a point with
/// such a payload is the same point with the same payload.
pub proof fn lemma_point_clones_exactly<U: Clone>()
    requires
        clones_exactly::<U>(),
    ensures
        clones_exactly::<QuadtreePoint<U>>(),
{
    assert forall|a: QuadtreePoint<U>, c: QuadtreePoint<U>| #[trigger] cloned(a, c) implies c
        == a by {
        assert(cloned(a.data, c.data));
    }
}

/// A point that lies in a proper rectangle lies in one of its quarters.
pub proof fn lemma_point_splits_well<U>(obj: QuadtreePoint<U>)
    ensures
        splits_well::<QuadtreePoint<U>, U>(obj),
{
    reveal(splits_well);
    assert forall|b: BoundingBox| b.proper() && obj.inside(b) implies exists|i: int|
        0 <= i < 4 && #[trigger] obj.inside(quadrant(b, i)) by {
        let p = obj.point;
        let x_mid = midpoint(b.x_min, b.x_max);
        let y_mid = midpoint(b.y_min, b.y_max);
        let i: int = if p.x <= x_mid {
            if p.y <= y_mid {
                0
            } else {
                1
            }
        } else {
            if p.y <= y_mid {
                3
            } else {
                2
            }
        };
        assert(obj.inside(quadrant(b, i)));
    }
}

/// A point reaches every point that is the same within `distance`: the
/// other lies in no rectangle that, grown by `distance`, leaves the point out.
pub proof fn lemma_point_reaches<U>(
    query: QuadtreePoint<U>,
    distance: i64,
    obj: QuadtreePoint<U>,
)
    requires
        points_close(query.point, obj.point, distance as int),
    ensures
        reaches::<QuadtreePoint<U>, QuadtreePoint<U>, U>(query, distance, obj),
{
    assert forall|b: BoundingBox| #[trigger] obj.inside(b) implies query.inside(
        offset_bounds(b, distance),
    ) by {
        lemma_offset_contains(b, distance, query.point);
    }
}

} // verus!
