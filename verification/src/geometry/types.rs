use vstd::prelude::*;

verus! {

/// A point of the plane, in grid steps.
///
/// Two points are equal when both coordinates are the same number; matching
/// within a tolerance is a separate notion, see `points_equal`.
#[derive(Clone, Copy, Debug, PartialEq, Eq, Hash, Structural)]
pub struct XY {
    pub x: i64,
    pub y: i64,
}

/// A point of space, in grid steps.
#[derive(Clone, Copy, Debug, PartialEq, Eq, Hash, Structural)]
pub struct XYZ {
    pub x: i64,
    pub y: i64,
    pub z: i64,
}

/// A direction in the plane, in grid steps per axis.
#[derive(Clone, Copy, Debug, PartialEq, Eq, Hash, Structural)]
pub struct Vector2D {
    pub i: i64,
    pub j: i64,
}

/// A direction in space, in grid steps per axis.
#[derive(Clone, Copy, Debug, PartialEq, Eq, Hash, Structural)]
pub struct Vector3D {
    pub i: i64,
    pub j: i64,
    pub k: i64,
}

/// A disc given by its centre and radius.
#[derive(Clone, Copy, Debug, PartialEq, Eq, Hash, Structural)]
pub struct Circle {
    pub center: XY,
    pub radius: i64,
}

/// An axis-aligned rectangle; both ends of each range belong to it.
#[derive(Clone, Copy, Debug, PartialEq, Eq, Hash, Structural)]
pub struct BoundingBox {
    pub x_min: i64,
    pub x_max: i64,
    pub y_min: i64,
    pub y_max: i64,
}

impl BoundingBox {
    /// Neither range is inverted.
    pub open spec fn proper(self) -> bool {
        self.x_min <= self.x_max && self.y_min <= self.y_max
    }

    /// The point lies in the rectangle, borders included.
    pub open spec fn contains(self, p: XY) -> bool {
        self.x_min <= p.x <= self.x_max && self.y_min <= p.y <= self.y_max
    }
}

impl Default for BoundingBox {
    fn default() -> (b: Self)
        ensures
            b == (BoundingBox { x_min: 0, x_max: 0, y_min: 0, y_max: 0 }),
    {
        BoundingBox { x_min: 0, x_max: 0, y_min: 0, y_max: 0 }
    }
}

} // verus!
