use vstd::prelude::*;
use vstd::std_specs::cmp::PartialEqSpec;
use crate::quadtree::quadtree::equality_is_identity;
use crate::quadtree::quadtree_circle::QuadtreeCircle;
use crate::quadtree::quadtree_point::QuadtreePoint;

verus! {

/// Where `==` on payloads is identity, `==` on points with such payloads is
/// identity.
pub proof fn lemma_point_equality<U: PartialEq>()
    requires
        equality_is_identity::<U>(),
    ensures
        equality_is_identity::<QuadtreePoint<U>>(),
{
    assert forall|a: QuadtreePoint<U>, b: QuadtreePoint<U>| #[trigger]
        a.eq_spec(&b) <==> (a == b) by {
        assert(a.data.eq_spec(&b.data) <==> (a.data == b.data));
    }
}

/// Where `==` on payloads is identity, `==` on discs with such payloads is
/// identity.
pub proof fn lemma_circle_equality<U: PartialEq>()
    requires
        equality_is_identity::<U>(),
    ensures
        equality_is_identity::<QuadtreeCircle<U>>(),
{
    assert forall|a: QuadtreeCircle<U>, b: QuadtreeCircle<U>| #[trigger]
        a.eq_spec(&b) <==> (a == b) by {
        assert(a.data.eq_spec(&b.data) <==> (a.data == b.data));
    }
}

} // verus!
