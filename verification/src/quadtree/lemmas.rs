use vstd::prelude::*;
use crate::geometry::types::{BoundingBox, XY};
use crate::quadtree::quadtree::{
    insert_into, midpoint, quadrant, subdivide, well_formed, Node,
};
use crate::quadtree::types::QuadTreeObject;

verus! {

/// The four quarters of a proper rectangle make up the rectangle: a point
/// lies in the rectangle exactly when it lies in one of the quarters, and it
/// lies in two of them only on a cut.
pub proof fn lemma_quadrants_partition(b: BoundingBox, p: XY)
    requires
        b.proper(),
    ensures
        b.contains(p) <==> exists|i: int| 0 <= i < 4 && #[trigger] quadrant(b, i).contains(p),
        forall|i: int, j: int|
            0 <= i < j < 4 && quadrant(b, i).contains(p) && quadrant(b, j).contains(p) ==> p.x
                == midpoint(b.x_min, b.x_max) || p.y == midpoint(b.y_min, b.y_max),
{
    let x_mid = midpoint(b.x_min, b.x_max);
    let y_mid = midpoint(b.y_min, b.y_max);
    if b.contains(p) {
        let i: int = if p.x <= x_mid {
            if p.y <= y_mid {
                0
            } else {
                1
            }
        } else {
            if p.y <= y_mid {
                3
            } else {
                2
            }
        };
        assert(quadrant(b, i).contains(p));
    }
}

/// Subdividing keeps the extent, the limits and the depth it was given.
pub proof fn lemma_subdivide_fields<T: QuadTreeObject<U>, U>(
    bounds: BoundingBox,
    max_objects: usize,
    max_levels: usize,
    level: usize,
    objects: Seq<T>,
)
    ensures
        subdivide::<T, U>(bounds, max_objects, max_levels, level, objects).bounds == bounds,
        subdivide::<T, U>(bounds, max_objects, max_levels, level, objects).max_objects
            == max_objects,
        subdivide::<T, U>(bounds, max_objects, max_levels, level, objects).max_levels
            == max_levels,
        subdivide::<T, U>(bounds, max_objects, max_levels, level, objects).level == level,
{
}

/// Inserting keeps the extent, the limits and the depth of the node.
pub proof fn lemma_insert_fields<T: QuadTreeObject<U>, U>(node: Node<T>, obj: T)
    ensures
        insert_into::<T, U>(node, obj).bounds == node.bounds,
        insert_into::<T, U>(node, obj).max_objects == node.max_objects,
        insert_into::<T, U>(node, obj).max_levels == node.max_levels,
        insert_into::<T, U>(node, obj).level == node.level,
{
    lemma_subdivide_fields::<T, U>(
        node.bounds,
        node.max_objects,
        node.max_levels,
        node.level,
        node.objects.push(obj),
    );
}

/// A subdivided tree has the shape every tree keeps.
pub proof fn lemma_subdivide_well_formed<T: QuadTreeObject<U>, U>(
    bounds: BoundingBox,
    max_objects: usize,
    max_levels: usize,
    level: usize,
    objects: Seq<T>,
)
    ensures
        well_formed(subdivide::<T, U>(bounds, max_objects, max_levels, level, objects)),
    decreases max_levels - level,
{
    let tree = subdivide::<T, U>(bounds, max_objects, max_levels, level, objects);
    if objects.len() > max_objects && level < max_levels {
        assert forall|i: int| 0 <= i < 4 implies {
            &&& (#[trigger] tree.nodes[i]).bounds == quadrant(bounds, i)
            &&& tree.nodes[i].max_objects == max_objects
            &&& tree.nodes[i].max_levels == max_levels
            &&& tree.nodes[i].level == level + 1
            &&& well_formed(tree.nodes[i])
        } by {
            let part = objects.filter(|o: T| o.inside(quadrant(bounds, i)));
            lemma_subdivide_fields::<T, U>(
                quadrant(bounds, i),
                max_objects,
                max_levels,
                (level + 1) as usize,
                part,
            );
            lemma_subdivide_well_formed::<T, U>(
                quadrant(bounds, i),
                max_objects,
                max_levels,
                (level + 1) as usize,
                part,
            );
        }
    }
}

/// Inserting into a subdivided tree gives the subdivision of the longer list:
/// a tree built by inserting one object after another depends on the objects
/// and their order alone.
pub proof fn lemma_insert_subdivided<T: QuadTreeObject<U>, U>(
    bounds: BoundingBox,
    max_objects: usize,
    max_levels: usize,
    level: usize,
    objects: Seq<T>,
    obj: T,
)
    ensures
        insert_into::<T, U>(
            subdivide::<T, U>(bounds, max_objects, max_levels, level, objects),
            obj,
        ) == subdivide::<T, U>(bounds, max_objects, max_levels, level, objects.push(obj)),
    decreases max_levels - level,
{
    let before = subdivide::<T, U>(bounds, max_objects, max_levels, level, objects);
    let after = subdivide::<T, U>(bounds, max_objects, max_levels, level, objects.push(obj));
    let got = insert_into::<T, U>(before, obj);
    if objects.len() > max_objects && level < max_levels {
        assert(got.nodes.len() == 4);
        assert(after.nodes.len() == 4);
        assert forall|i: int| 0 <= i < 4 implies got.nodes[i] == after.nodes[i] by {
            let q = quadrant(bounds, i);
            let pred = |o: T| o.inside(q);
            let part = objects.filter(pred);
            lemma_subdivide_fields::<T, U>(q, max_objects, max_levels, (level + 1) as usize, part);
            objects.lemma_filter_push(obj, pred);
            if obj.inside(q) {
                lemma_insert_subdivided::<T, U>(
                    q,
                    max_objects,
                    max_levels,
                    (level + 1) as usize,
                    part,
                    obj,
                );
            }
        }
        assert(got.nodes =~= after.nodes);
    }
}

/// Inserting keeps the shape every tree has.
pub proof fn lemma_insert_well_formed<T: QuadTreeObject<U>, U>(node: Node<T>, obj: T)
    requires
        well_formed(node),
    ensures
        well_formed(insert_into::<T, U>(node, obj)),
    decreases node,
{
    let after = insert_into::<T, U>(node, obj);
    if node.nodes.len() > 0 {
        assert forall|i: int| 0 <= i < 4 implies {
            &&& (#[trigger] after.nodes[i]).bounds == quadrant(after.bounds, i)
            &&& after.nodes[i].max_objects == after.max_objects
            &&& after.nodes[i].max_levels == after.max_levels
            &&& after.nodes[i].level == after.level + 1
            &&& well_formed(after.nodes[i])
        } by {
            lemma_insert_fields::<T, U>(node.nodes[i], obj);
            if obj.inside(node.nodes[i].bounds) {
                lemma_insert_well_formed::<T, U>(node.nodes[i], obj);
            }
        }
    } else {
        lemma_subdivide_well_formed::<T, U>(
            node.bounds,
            node.max_objects,
            node.max_levels,
            node.level,
            node.objects.push(obj),
        );
    }
}

} // verus!
