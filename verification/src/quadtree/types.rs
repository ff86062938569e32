use vstd::prelude::*;
use crate::geometry::types::BoundingBox;

verus! {

/// The extent of a node of the tree.
pub type NodeGeometry = BoundingBox;

/// Something that has a place in the plane: it can say of any rectangle
/// whether it falls inside, and it carries a payload.
pub trait QuadTreeObject<U> {
    /// Whether the object falls inside `node`.
    spec fn inside(&self, node: BoundingBox) -> bool;

    /// The payload.
    spec fn data(&self) -> U;

    fn get_data(&self) -> (d: &U)
        ensures
            *d == self.data(),
    ;

    fn in_node(&self, node: &BoundingBox) -> (b: bool)
        ensures
            b == self.inside(*node),
    ;
}

/// The four children of a node, in the order in which the node keeps them.
#[derive(Clone, Copy, Debug, PartialEq, Eq, Hash, Structural)]
pub enum Quadrant {
    BottomLeft,
    TopLeft,
    TopRight,
    BottomRight,
}

impl Quadrant {
    /// The position of this child among the children of its node.
    pub open spec fn position(self) -> int {
        match self {
            Quadrant::BottomLeft => 0,
            Quadrant::TopLeft => 1,
            Quadrant::TopRight => 2,
            Quadrant::BottomRight => 3,
        }
    }

    pub fn index(self) -> (i: usize)
        ensures
            i == self.position(),
    {
        match self {
            Quadrant::BottomLeft => 0,
            Quadrant::TopLeft => 1,
            Quadrant::TopRight => 2,
            Quadrant::BottomRight => 3,
        }
    }
}

} // verus!
