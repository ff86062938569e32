use vstd::prelude::*;
use crate::geometry::types::BoundingBox;
use crate::quadtree::lemmas::{lemma_insert_fields, lemma_subdivide_fields};
use crate::quadtree::quadtree::{
    found, found_below, insert_into, quadrant, subdivide, well_formed, Node,
};
use crate::quadtree::types::QuadTreeObject;
use crate::quadtree::unique::lemma_push_contains;
use crate::quadtree::utils::offset_bounds;

verus! {

/// `obj` is among the objects of the node or of a node below it.
pub open spec fn holds<T>(node: Node<T>, obj: T) -> bool
    decreases node,
{
    node.objects.contains(obj) || exists|i: int|
        0 <= i < node.nodes.len() && holds(#[trigger] node.nodes[i], obj)
}

/// Below every child lie only objects that fall inside the child's extent.
pub open spec fn placed<T: QuadTreeObject<U>, U>(node: Node<T>) -> bool
    decreases node,
{
    forall|i: int|
        0 <= i < node.nodes.len() ==> {
            &&& placed::<T, U>(#[trigger] node.nodes[i])
            &&& forall|o: T| #[trigger] holds(node.nodes[i], o) ==> o.inside(node.nodes[i].bounds)
        }
}

/// `n` is `node` or a node below it.
pub open spec fn node_of<T>(node: Node<T>, n: Node<T>) -> bool
    decreases node,
{
    n == node || exists|i: int| 0 <= i < node.nodes.len() && node_of(#[trigger] node.nodes[i], n)
}

/// Wherever `obj` falls inside a rectangle, `query` falls inside that
/// rectangle grown by `distance`.
pub open spec fn reaches<T: QuadTreeObject<U>, V: QuadTreeObject<U>, U>(
    query: V,
    distance: i64,
    obj: T,
) -> bool {
    forall|b: BoundingBox| #[trigger] obj.inside(b) ==> query.inside(offset_bounds(b, distance))
}

/// An object that falls inside a proper rectangle falls inside one of its
/// quarters.
#[verifier::opaque]
pub open spec fn splits_well<T: QuadTreeObject<U>, U>(obj: T) -> bool {
    forall|b: BoundingBox|
        b.proper() && obj.inside(b) ==> exists|i: int|
            0 <= i < 4 && #[trigger] obj.inside(quadrant(b, i))
}

/// The quarters of a proper rectangle are proper.
pub proof fn lemma_quadrant_proper(b: BoundingBox, i: int)
    requires
        b.proper(),
    ensures
        quadrant(b, i).proper(),
{
}

/// What a list and another hold together is what either holds.
pub proof fn lemma_concat_contains<T>(a: Seq<T>, b: Seq<T>, x: T)
    ensures
        (a + b).contains(x) <==> a.contains(x) || b.contains(x),
{
    let both = a + b;
    if a.contains(x) {
        let i = choose|i: int| 0 <= i < a.len() && a[i] == x;
        assert(both[i] == x);
    }
    if b.contains(x) {
        let i = choose|i: int| 0 <= i < b.len() && b[i] == x;
        assert(both[a.len() + i] == x);
    }
    if both.contains(x) {
        let i = choose|i: int| 0 <= i < both.len() && both[i] == x;
        if i < a.len() {
            assert(a[i] == x);
        } else {
            assert(b[i - a.len()] == x);
        }
    }
}

/// What a search walks over in the first `count` children is held by one of
/// them.
pub proof fn lemma_found_below_holds<T, V: QuadTreeObject<U>, U>(
    node: Node<T>,
    query: V,
    distance: i64,
    count: int,
    obj: T,
)
    requires
        found_below::<T, V, U>(node, query, distance, count).contains(obj),
    ensures
        exists|i: int| 0 <= i < node.nodes.len() && holds(#[trigger] node.nodes[i], obj),
    decreases node, 0int, count,
{
    if count <= 0 || count > node.nodes.len() {
        assert(found_below::<T, V, U>(node, query, distance, count) =~= Seq::<T>::empty());
    } else {
        let child = node.nodes[count - 1];
        let rest = found_below::<T, V, U>(node, query, distance, count - 1);
        if rest.contains(obj) {
            lemma_found_below_holds::<T, V, U>(node, query, distance, count - 1, obj);
        } else {
            lemma_concat_contains(rest, found::<T, V, U>(child, query, distance), obj);
            lemma_found_holds::<T, V, U>(child, query, distance, obj);
            assert(holds(node.nodes[count - 1], obj));
        }
    }
}

/// A search gives only objects that the tree holds.
pub proof fn lemma_found_holds<T, V: QuadTreeObject<U>, U>(
    node: Node<T>,
    query: V,
    distance: i64,
    obj: T,
)
    requires
        found::<T, V, U>(node, query, distance).contains(obj),
    ensures
        holds(node, obj),
    decreases node, 1int,
{
    let below = found_below::<T, V, U>(node, query, distance, node.nodes.len() as int);
    lemma_concat_contains(node.objects, below, obj);
    if !node.objects.contains(obj) {
        lemma_found_below_holds::<T, V, U>(node, query, distance, node.nodes.len() as int, obj);
    }
}

/// What the search walks over in a child that it enters is part of what it
/// walks over in the children up to `count`.
pub proof fn lemma_found_below_includes<T, V: QuadTreeObject<U>, U>(
    node: Node<T>,
    query: V,
    distance: i64,
    count: int,
    i: int,
    obj: T,
)
    requires
        0 <= i < count <= node.nodes.len(),
        query.inside(offset_bounds(node.nodes[i].bounds, distance)),
        found::<T, V, U>(node.nodes[i], query, distance).contains(obj),
    ensures
        found_below::<T, V, U>(node, query, distance, count).contains(obj),
    decreases count,
{
    let child = node.nodes[count - 1];
    let rest = found_below::<T, V, U>(node, query, distance, count - 1);
    if i < count - 1 {
        lemma_found_below_includes::<T, V, U>(node, query, distance, count - 1, i, obj);
    }
    lemma_concat_contains(rest, found::<T, V, U>(child, query, distance), obj);
}

/// A search gives every object that the tree holds and that the query
/// reaches.
pub proof fn lemma_holds_found<T: QuadTreeObject<U>, V: QuadTreeObject<U>, U>(
    node: Node<T>,
    query: V,
    distance: i64,
    obj: T,
)
    requires
        placed::<T, U>(node),
        holds(node, obj),
        reaches::<T, V, U>(query, distance, obj),
    ensures
        found::<T, V, U>(node, query, distance).contains(obj),
    decreases node,
{
    let below = found_below::<T, V, U>(node, query, distance, node.nodes.len() as int);
    lemma_concat_contains(node.objects, below, obj);
    if !node.objects.contains(obj) {
        let i = choose|i: int| 0 <= i < node.nodes.len() && holds(#[trigger] node.nodes[i], obj);
        assert(placed::<T, U>(node.nodes[i]));
        assert(obj.inside(node.nodes[i].bounds));
        lemma_holds_found::<T, V, U>(node.nodes[i], query, distance, obj);
        lemma_found_below_includes::<T, V, U>(
            node,
            query,
            distance,
            node.nodes.len() as int,
            i,
            obj,
        );
    }
}

/// A subdivided tree holds only objects of the list it was made from.
pub proof fn lemma_subdivide_holds_only<T: QuadTreeObject<U>, U>(
    bounds: BoundingBox,
    max_objects: usize,
    max_levels: usize,
    level: usize,
    objects: Seq<T>,
    obj: T,
)
    requires
        holds(subdivide::<T, U>(bounds, max_objects, max_levels, level, objects), obj),
    ensures
        objects.contains(obj),
    decreases max_levels - level,
{
    let tree = subdivide::<T, U>(bounds, max_objects, max_levels, level, objects);
    if objects.len() > max_objects && level < max_levels {
        assert(!tree.objects.contains(obj));
        let i = choose|i: int| 0 <= i < tree.nodes.len() && holds(#[trigger] tree.nodes[i], obj);
        let pred = |o: T| o.inside(quadrant(bounds, i));
        lemma_subdivide_holds_only::<T, U>(
            quadrant(bounds, i),
            max_objects,
            max_levels,
            (level + 1) as usize,
            objects.filter(pred),
            obj,
        );
        objects.lemma_filter_contains_rev(pred, obj);
    }
}

/// In a subdivided tree every object lies below children only whose extent
/// it falls inside.
pub proof fn lemma_subdivide_placed<T: QuadTreeObject<U>, U>(
    bounds: BoundingBox,
    max_objects: usize,
    max_levels: usize,
    level: usize,
    objects: Seq<T>,
)
    ensures
        placed::<T, U>(subdivide::<T, U>(bounds, max_objects, max_levels, level, objects)),
    decreases max_levels - level,
{
    let tree = subdivide::<T, U>(bounds, max_objects, max_levels, level, objects);
    if objects.len() > max_objects && level < max_levels {
        assert forall|i: int| 0 <= i < tree.nodes.len() implies {
            &&& placed::<T, U>(#[trigger] tree.nodes[i])
            &&& forall|o: T| #[trigger] holds(tree.nodes[i], o) ==> o.inside(tree.nodes[i].bounds)
        } by {
            let q = quadrant(bounds, i);
            let pred = |o: T| o.inside(q);
            let part = objects.filter(pred);
            lemma_subdivide_placed::<T, U>(q, max_objects, max_levels, (level + 1) as usize, part);
            lemma_subdivide_fields::<T, U>(q, max_objects, max_levels, (level + 1) as usize, part);
            assert forall|o: T| #[trigger] holds(tree.nodes[i], o) implies o.inside(
                tree.nodes[i].bounds,
            ) by {
                lemma_subdivide_holds_only::<T, U>(
                    q,
                    max_objects,
                    max_levels,
                    (level + 1) as usize,
                    part,
                    o,
                );
                objects.lemma_filter_contains_rev(pred, o);
            }
        }
    }
}

/// A subdivided tree holds every object of its list that falls inside its
/// extent, if the extent is proper and the object splits well.
pub proof fn lemma_subdivide_holds<T: QuadTreeObject<U>, U>(
    bounds: BoundingBox,
    max_objects: usize,
    max_levels: usize,
    level: usize,
    objects: Seq<T>,
    obj: T,
)
    requires
        objects.contains(obj),
        bounds.proper(),
        obj.inside(bounds),
        splits_well::<T, U>(obj),
    ensures
        holds(subdivide::<T, U>(bounds, max_objects, max_levels, level, objects), obj),
    decreases max_levels - level,
{
    let tree = subdivide::<T, U>(bounds, max_objects, max_levels, level, objects);
    if objects.len() > max_objects && level < max_levels {
        reveal(splits_well);
        let i = choose|i: int| 0 <= i < 4 && #[trigger] obj.inside(quadrant(bounds, i));
        let q = quadrant(bounds, i);
        let pred = |o: T| o.inside(q);
        lemma_quadrant_proper(bounds, i);
        let k = choose|k: int| 0 <= k < objects.len() && objects[k] == obj;
        objects.lemma_filter_contains(pred, k);
        lemma_subdivide_holds::<T, U>(
            q,
            max_objects,
            max_levels,
            (level + 1) as usize,
            objects.filter(pred),
            obj,
        );
        assert(holds(tree.nodes[i], obj));
    }
}

/// After an insertion the tree holds nothing but what it held and the new
/// object.
pub proof fn lemma_insert_holds_only<T: QuadTreeObject<U>, U>(node: Node<T>, obj: T, other: T)
    requires
        holds(insert_into::<T, U>(node, obj), other),
    ensures
        holds(node, other) || other == obj,
    decreases node,
{
    let after = insert_into::<T, U>(node, obj);
    if node.nodes.len() > 0 {
        if !after.objects.contains(other) {
            let i = choose|i: int|
                0 <= i < after.nodes.len() && holds(#[trigger] after.nodes[i], other);
            if obj.inside(node.nodes[i].bounds) {
                lemma_insert_holds_only::<T, U>(node.nodes[i], obj, other);
            }
            if other != obj {
                assert(holds(node.nodes[i], other));
            }
        }
    } else {
        lemma_subdivide_holds_only::<T, U>(
            node.bounds,
            node.max_objects,
            node.max_levels,
            node.level,
            node.objects.push(obj),
            other,
        );
        lemma_push_contains(node.objects, obj, other);
    }
}

/// An insertion leaves every object below children only whose extent it
/// falls inside.
pub proof fn lemma_insert_placed<T: QuadTreeObject<U>, U>(node: Node<T>, obj: T)
    requires
        placed::<T, U>(node),
    ensures
        placed::<T, U>(insert_into::<T, U>(node, obj)),
    decreases node,
{
    let after = insert_into::<T, U>(node, obj);
    if node.nodes.len() > 0 {
        assert forall|i: int| 0 <= i < after.nodes.len() implies {
            &&& placed::<T, U>(#[trigger] after.nodes[i])
            &&& forall|o: T|
                #[trigger] holds(after.nodes[i], o) ==> o.inside(after.nodes[i].bounds)
        } by {
            assert(placed::<T, U>(node.nodes[i]));
            if obj.inside(node.nodes[i].bounds) {
                lemma_insert_placed::<T, U>(node.nodes[i], obj);
                lemma_insert_fields::<T, U>(node.nodes[i], obj);
                assert forall|o: T| #[trigger] holds(after.nodes[i], o) implies o.inside(
                    after.nodes[i].bounds,
                ) by {
                    lemma_insert_holds_only::<T, U>(node.nodes[i], obj, o);
                    if o != obj {
                        assert(holds(node.nodes[i], o));
                    }
                }
            }
        }
    } else {
        lemma_subdivide_placed::<T, U>(
            node.bounds,
            node.max_objects,
            node.max_levels,
            node.level,
            node.objects.push(obj),
        );
    }
}

/// The tree holds what was inserted, if that falls inside the tree's
/// extent.
pub proof fn lemma_insert_holds<T: QuadTreeObject<U>, U>(node: Node<T>, obj: T)
    requires
        well_formed(node),
        node.bounds.proper(),
        obj.inside(node.bounds),
        splits_well::<T, U>(obj),
    ensures
        holds(insert_into::<T, U>(node, obj), obj),
    decreases node,
{
    let after = insert_into::<T, U>(node, obj);
    if node.nodes.len() > 0 {
        reveal(splits_well);
        let i = choose|i: int| 0 <= i < 4 && #[trigger] obj.inside(quadrant(node.bounds, i));
        assert(node.nodes[i].bounds == quadrant(node.bounds, i));
        lemma_quadrant_proper(node.bounds, i);
        lemma_insert_holds::<T, U>(node.nodes[i], obj);
        assert(holds(after.nodes[i], obj));
    } else {
        let longer = node.objects.push(obj);
        assert(longer[node.objects.len() as int] == obj);
        lemma_subdivide_holds::<T, U>(
            node.bounds,
            node.max_objects,
            node.max_levels,
            node.level,
            longer,
            obj,
        );
    }
}

/// The tree goes on holding what it held when something else is inserted.
pub proof fn lemma_insert_keeps<T: QuadTreeObject<U>, U>(node: Node<T>, obj: T, other: T)
    requires
        well_formed(node),
        placed::<T, U>(node),
        node.bounds.proper(),
        holds(node, other),
        other.inside(node.bounds),
        splits_well::<T, U>(other),
    ensures
        holds(insert_into::<T, U>(node, obj), other),
    decreases node,
{
    let after = insert_into::<T, U>(node, obj);
    if node.nodes.len() > 0 {
        assert(!node.objects.contains(other));
        let i = choose|i: int| 0 <= i < node.nodes.len() && holds(#[trigger] node.nodes[i], other);
        assert(node.nodes[i].bounds == quadrant(node.bounds, i));
        lemma_quadrant_proper(node.bounds, i);
        if obj.inside(node.nodes[i].bounds) {
            lemma_insert_keeps::<T, U>(node.nodes[i], obj, other);
        }
        assert(holds(after.nodes[i], other));
    } else {
        lemma_push_contains(node.objects, obj, other);
        lemma_subdivide_holds::<T, U>(
            node.bounds,
            node.max_objects,
            node.max_levels,
            node.level,
            node.objects.push(obj),
            other,
        );
    }
}

/// What is inserted is found: after an object that falls inside the tree's
/// extent is inserted, a search gives it to every query that reaches it. With
/// `distance` 0 a query reaches the object if it falls inside every rectangle
/// that the object falls inside.
pub proof fn lemma_inserted_is_found<T: QuadTreeObject<U>, V: QuadTreeObject<U>, U>(
    node: Node<T>,
    obj: T,
    query: V,
    distance: i64,
)
    requires
        well_formed(node),
        placed::<T, U>(node),
        node.bounds.proper(),
        obj.inside(node.bounds),
        splits_well::<T, U>(obj),
        reaches::<T, V, U>(query, distance, obj),
    ensures
        found::<T, V, U>(insert_into::<T, U>(node, obj), query, distance).contains(obj),
{
    lemma_insert_holds::<T, U>(node, obj);
    lemma_insert_placed::<T, U>(node, obj);
    lemma_holds_found::<T, V, U>(insert_into::<T, U>(node, obj), query, distance, obj);
}

/// What a search found it goes on finding: an object of the tree that falls
/// inside the tree's extent is still given to every query that reaches it
/// after something else is inserted.
pub proof fn lemma_found_after_insert<T: QuadTreeObject<U>, V: QuadTreeObject<U>, U>(
    node: Node<T>,
    obj: T,
    other: T,
    query: V,
    distance: i64,
)
    requires
        well_formed(node),
        placed::<T, U>(node),
        node.bounds.proper(),
        holds(node, other),
        other.inside(node.bounds),
        splits_well::<T, U>(other),
        reaches::<T, V, U>(query, distance, other),
    ensures
        found::<T, V, U>(insert_into::<T, U>(node, obj), query, distance).contains(other),
{
    lemma_insert_keeps::<T, U>(node, obj, other);
    lemma_insert_placed::<T, U>(node, obj);
    lemma_holds_found::<T, V, U>(insert_into::<T, U>(node, obj), query, distance, other);
}

/// No leaf that may still split holds more objects than the threshold.
pub proof fn lemma_leaves_within_threshold<T>(node: Node<T>, leaf: Node<T>)
    requires
        well_formed(node),
        node_of(node, leaf),
        leaf.is_leaf(),
        leaf.level < leaf.max_levels,
    ensures
        leaf.objects.len() <= leaf.max_objects,
    decreases node,
{
    if leaf != node {
        let i = choose|i: int| 0 <= i < node.nodes.len() && node_of(#[trigger] node.nodes[i], leaf);
        lemma_leaves_within_threshold(node.nodes[i], leaf);
    }
}

} // verus!
