use std::marker::PhantomData;
use vstd::prelude::*;
use vstd::std_specs::cmp::PartialEqSpec;
use crate::geometry::types::BoundingBox;
use crate::quadtree::types::{NodeGeometry, QuadTreeObject};
use crate::quadtree::containment::{lemma_insert_placed, placed};
use crate::quadtree::lemmas::{
    lemma_insert_subdivided, lemma_insert_well_formed, lemma_subdivide_fields,
    lemma_subdivide_well_formed,
};
use crate::quadtree::unique::{keep_first, lemma_unique, lemma_values_push, unique, values};
use crate::quadtree::utils::{offset_bounds, offset_node_bounds};

verus! {

/// The number halfway between `a` and `b`, rounded down.
pub open spec fn midpoint(a: i64, b: i64) -> i64 {
    ((a + b) / 2) as i64
}

/// The `i`-th quarter of a rectangle cut at the midpoint of each axis:
/// bottom left, top left, top right, bottom right. Neighbouring quarters share
/// the cut.
pub open spec fn quadrant(b: BoundingBox, i: int) -> BoundingBox {
    let x_mid = midpoint(b.x_min, b.x_max);
    let y_mid = midpoint(b.y_min, b.y_max);
    if i == 0 {
        BoundingBox { x_min: b.x_min, x_max: x_mid, y_min: b.y_min, y_max: y_mid }
    } else if i == 1 {
        BoundingBox { x_min: b.x_min, x_max: x_mid, y_min: y_mid, y_max: b.y_max }
    } else if i == 2 {
        BoundingBox { x_min: x_mid, x_max: b.x_max, y_min: y_mid, y_max: b.y_max }
    } else {
        BoundingBox { x_min: x_mid, x_max: b.x_max, y_min: b.y_min, y_max: y_mid }
    }
}

/// A tree as a value: what a `Quadtree` holds, node by node.
#[verifier::ext_equal]
pub struct Node<T> {
    pub bounds: BoundingBox,
    pub max_objects: usize,
    pub max_levels: usize,
    pub level: usize,
    pub objects: Seq<T>,
    pub nodes: Seq<Node<T>>,
}

impl<T> Node<T> {
    pub open spec fn is_leaf(self) -> bool {
        self.nodes.len() == 0
    }

    /// How many more times a leaf at this depth may split.
    pub open spec fn budget(self) -> nat {
        if self.level < self.max_levels {
            (self.max_levels - self.level) as nat
        } else {
            0
        }
    }
}

/// A leaf that holds nothing.
pub open spec fn empty_leaf<T>(
    bounds: BoundingBox,
    max_objects: usize,
    max_levels: usize,
    level: usize,
) -> Node<T> {
    Node { bounds, max_objects, max_levels, level, objects: Seq::empty(), nodes: Seq::empty() }
}

/// The tree that holds `objects` under a node of the given extent and depth:
/// a leaf while the objects are few enough or the depth is used up, else four
/// children, each holding in turn the objects that fall inside its quarter.
pub open spec fn subdivide<T: QuadTreeObject<U>, U>(
    bounds: BoundingBox,
    max_objects: usize,
    max_levels: usize,
    level: usize,
    objects: Seq<T>,
) -> Node<T>
    decreases max_levels - level,
{
    if objects.len() > max_objects && level < max_levels {
        Node {
            bounds,
            max_objects,
            max_levels,
            level,
            objects: Seq::empty(),
            nodes: Seq::new(
                4,
                |i: int|
                    subdivide::<T, U>(
                        quadrant(bounds, i),
                        max_objects,
                        max_levels,
                        (level + 1) as usize,
                        objects.filter(|o: T| o.inside(quadrant(bounds, i))),
                    ),
            ),
        }
    } else {
        Node { bounds, max_objects, max_levels, level, objects, nodes: Seq::empty() }
    }
}

/// The tree after `obj` is inserted at `node`: handed down to every child
/// whose extent it falls inside, or, at a leaf, added to the leaf's objects,
/// which are then subdivided.
pub open spec fn insert_into<T: QuadTreeObject<U>, U>(node: Node<T>, obj: T) -> Node<T>
    decreases node,
{
    if node.nodes.len() > 0 {
        Node {
            nodes: Seq::new(
                node.nodes.len(),
                |i: int|
                    if 0 <= i < node.nodes.len() && obj.inside(node.nodes[i].bounds) {
                        insert_into::<T, U>(node.nodes[i], obj)
                    } else {
                        node.nodes[i]
                    },
            ),
            ..node
        }
    } else {
        subdivide::<T, U>(
            node.bounds,
            node.max_objects,
            node.max_levels,
            node.level,
            node.objects.push(obj),
        )
    }
}

/// What a search at `node` walks over, in the order of the walk: the
/// node's own objects, then for each child whose extent, grown by `distance`,
/// the query falls inside, what the search walks over there.
pub open spec fn found<T, V: QuadTreeObject<U>, U>(node: Node<T>, query: V, distance: i64) -> Seq<T>
    decreases node, 1int,
{
    node.objects + found_below::<T, V, U>(node, query, distance, node.nodes.len() as int)
}

/// The part of the walk that lies in the first `count` children of `node`.
pub open spec fn found_below<T, V: QuadTreeObject<U>, U>(
    node: Node<T>,
    query: V,
    distance: i64,
    count: int,
) -> Seq<T>
    decreases node, 0int, count,
{
    if count <= 0 || count > node.nodes.len() {
        Seq::empty()
    } else {
        let child = node.nodes[count - 1];
        let rest = found_below::<T, V, U>(node, query, distance, count - 1);
        if query.inside(offset_bounds(child.bounds, distance)) {
            rest + found::<T, V, U>(child, query, distance)
        } else {
            rest
        }
    }
}

/// The shape every tree keeps: a node has no children or four; a leaf
/// holds no more objects than the threshold unless it is as deep as the tree
/// may go; a node with children holds no objects itself, and its children are
/// its four quarters, one level down, with the same limits.
pub open spec fn well_formed<T>(node: Node<T>) -> bool
    decreases node,
{
    if node.nodes.len() == 0 {
        node.objects.len() <= node.max_objects || node.level >= node.max_levels
    } else {
        &&& node.nodes.len() == 4
        &&& node.objects.len() == 0
        &&& node.level < usize::MAX
        &&& forall|i: int|
            0 <= i < 4 ==> {
                &&& (#[trigger] node.nodes[i]).bounds == quadrant(node.bounds, i)
                &&& node.nodes[i].max_objects == node.max_objects
                &&& node.nodes[i].max_levels == node.max_levels
                &&& node.nodes[i].level == node.level + 1
                &&& well_formed(node.nodes[i])
            }
    }
}

/// The node after it is split: its own objects stay, and below it are four
/// empty leaves, one for each quarter.
pub open spec fn split_node<T>(node: Node<T>) -> Node<T> {
    Node {
        nodes: Seq::new(
            4,
            |i: int|
                empty_leaf::<T>(
                    quadrant(node.bounds, i),
                    node.max_objects,
                    node.max_levels,
                    (node.level + 1) as usize,
                ),
        ),
        ..node
    }
}

/// A clone of a `T` is the same value as the `T` it was made from.
pub open spec fn clones_exactly<T: Clone>() -> bool {
    forall|a: T, c: T| #[trigger] cloned(a, c) ==> c == a
}

/// `==` on `T` holds of two values exactly when they are the same value.
pub open spec fn equality_is_identity<T: PartialEq>() -> bool {
    &&& T::obeys_eq_spec()
    &&& forall|a: T, b: T| #[trigger] a.eq_spec(&b) <==> a == b
}

/// The parameters of a new tree.
pub struct QuadtreeProps {
    pub bounds: NodeGeometry,
    pub max_objects: usize,
    pub max_levels: usize,
}

impl Default for QuadtreeProps {
    fn default() -> (props: Self)
        ensures
            props.bounds == (BoundingBox { x_min: 0, x_max: 0, y_min: 0, y_max: 0 }),
            props.max_objects == 10,
            props.max_levels == 4,
    {
        QuadtreeProps { bounds: NodeGeometry::default(), max_objects: 10, max_levels: 4 }
    }
}

/// A node of a quadtree, and with its children the tree below it.
pub struct Quadtree<T, U> where T: QuadTreeObject<U> {
    pub bounds: NodeGeometry,
    pub max_objects: usize,
    pub max_levels: usize,
    pub level: usize,
    pub objects: Vec<T>,
    pub nodes: Vec<Quadtree<T, U>>,
    pub _phantom: PhantomData<U>,
}

impl<T: QuadTreeObject<U>, U> Quadtree<T, U> {
    /// The tree as a value.
    pub open spec fn model(self) -> Node<T>
        decreases self,
    {
        Node {
            bounds: self.bounds,
            max_objects: self.max_objects,
            max_levels: self.max_levels,
            level: self.level,
            objects: self.objects@,
            nodes: Seq::new(
                self.nodes@.len(),
                |i: int|
                    if 0 <= i < self.nodes@.len() {
                        self.nodes@[i].model()
                    } else {
                        arbitrary()
                    },
            ),
        }
    }
}

impl<T: QuadTreeObject<U>, U> View for Quadtree<T, U> {
    type V = Node<T>;

    open spec fn view(&self) -> Node<T> {
        self.model()
    }
}

fn midpoint_of(a: i64, b: i64) -> (m: i64)
    ensures
        m == midpoint(a, b),
{
    let sum: i128 = a as i128 + b as i128;
    if sum >= 0 {
        (sum / 2) as i64
    } else {
        let half: i128 = (1 - sum) / 2;
        (-half) as i64
    }
}

impl<T: Clone + PartialEq, U> Quadtree<T, U> where T: QuadTreeObject<U> {
    /// An empty tree: one leaf of the given extent, limits and depth.
    pub fn new(props: QuadtreeProps, level: usize) -> (tree: Self)
        ensures
            tree@ == empty_leaf::<T>(props.bounds, props.max_objects, props.max_levels, level),
    {
        let tree = Quadtree {
            bounds: props.bounds,
            max_objects: props.max_objects,
            max_levels: props.max_levels,
            level,
            objects: Vec::new(),
            nodes: Vec::new(),
            _phantom: PhantomData,
        };
        assert(tree@.nodes =~= Seq::<Node<T>>::empty());
        tree
    }

    /// Gives a leaf its four children, one empty leaf for each quarter.
    pub fn split(&mut self)
        requires
            old(self).nodes@.len() == 0,
            old(self).level < usize::MAX,
        ensures
            final(self)@ == split_node(old(self)@),
    {
        let level: usize = self.level + 1;
        let NodeGeometry { x_min, x_max, y_min, y_max } = self.bounds;
        let x_mid: i64 = midpoint_of(x_min, x_max);
        let y_mid: i64 = midpoint_of(y_min, y_max);
        let bounds: Vec<NodeGeometry> = vec![
            NodeGeometry { x_min, x_max: x_mid, y_min, y_max: y_mid },
            NodeGeometry { x_min, x_max: x_mid, y_min: y_mid, y_max },
            NodeGeometry { x_min: x_mid, x_max, y_min: y_mid, y_max },
            NodeGeometry { x_min: x_mid, x_max, y_min, y_max: y_mid },
        ];
        let mut i: usize = 0;
        while i < 4
            invariant
                i <= 4,
                bounds@.len() == 4,
                forall|j: int| 0 <= j < 4 ==> bounds@[j] == quadrant(self.bounds, j),
                self.bounds == old(self).bounds,
                self.max_objects == old(self).max_objects,
                self.max_levels == old(self).max_levels,
                self.level == old(self).level,
                self.objects == old(self).objects,
                level == self.level + 1,
                self.nodes@.len() == i,
                forall|j: int|
                    0 <= j < i ==> (#[trigger] self.nodes@[j])@ == empty_leaf::<T>(
                        quadrant(self.bounds, j),
                        self.max_objects,
                        self.max_levels,
                        level,
                    ),
            decreases 4 - i,
        {
            let child = Quadtree::new(
                QuadtreeProps {
                    bounds: bounds[i],
                    max_objects: self.max_objects,
                    max_levels: self.max_levels,
                },
                level,
            );
            self.nodes.push(child);
            i += 1;
        }
        assert(self@.nodes =~= split_node(old(self)@).nodes);
    }

    /// Stores a clone of `obj`: in every child whose extent it falls inside,
    /// or, at a leaf, in the leaf, which splits when that makes it hold more
    /// than the threshold and it is not yet as deep as the tree may go.
    pub fn insert(&mut self, obj: &T) -> (tree: &mut Self)
        requires
            well_formed(old(self)@),
            clones_exactly::<T>(),
        ensures
            tree@ == insert_into::<T, U>(old(self)@, *obj),
            well_formed(tree@),
            placed::<T, U>(old(self)@) ==> placed::<T, U>(tree@),
            *final(self) == *final(tree),
        decreases old(self)@.budget(), *old(self),
    {
        proof {
            lemma_insert_well_formed::<T, U>(self@, *obj);
            if placed::<T, U>(self@) {
                lemma_insert_placed::<T, U>(self@, *obj);
            }
        }
        if self.nodes.len() > 0 {
            let mut i: usize = 0;
            while i < self.nodes.len()
                invariant
                    well_formed(old(self)@),
                    clones_exactly::<T>(),
                    i <= self.nodes@.len(),
                    self.nodes@.len() == old(self).nodes@.len(),
                    self.nodes@.len() == 4,
                    self.bounds == old(self).bounds,
                    self.max_objects == old(self).max_objects,
                    self.max_levels == old(self).max_levels,
                    self.level == old(self).level,
                    self.objects == old(self).objects,
                    forall|j: int|
                        i <= j < 4 ==> self.nodes@[j] == old(self).nodes@[j],
                    forall|j: int|
                        0 <= j < i ==> (#[trigger] self.nodes@[j])@ == insert_into::<T, U>(
                            old(self)@,
                            *obj,
                        ).nodes[j],
                decreases self.nodes@.len() - i,
            {
                assert(old(self)@.nodes[i as int] == old(self).nodes@[i as int]@);
                if obj.in_node(&self.nodes[i].bounds) {
                    self.nodes[i].insert(obj);
                }
                i += 1;
            }
            assert(self@.nodes =~= insert_into::<T, U>(old(self)@, *obj).nodes);
            return self;
        }
        let copy = obj.clone();
        assert(cloned(*obj, copy));
        self.objects.push(copy);
        if self.objects.len() > self.max_objects && self.level < self.max_levels {
            self.split();
            let ghost held = self.objects@;
            proof {
                assert(self@.nodes.len() == 4);
                assert forall|j: int| 0 <= j < 4 implies (#[trigger] self.nodes@[j])@
                    == subdivide::<T, U>(
                    quadrant(self.bounds, j),
                    self.max_objects,
                    self.max_levels,
                    (self.level + 1) as usize,
                    held.take(0).filter(|o: T| o.inside(quadrant(self.bounds, j))),
                ) by {
                    assert(self@.nodes[j] == self.nodes@[j]@);
                    assert(held.take(0).filter(|o: T| o.inside(quadrant(self.bounds, j)))
                        =~= Seq::<T>::empty());
                }
            }
            let mut k: usize = 0;
            while k < self.objects.len()
                invariant
                    clones_exactly::<T>(),
                    k <= self.objects@.len(),
                    held == old(self).objects@.push(*obj),
                    self.objects@ == held,
                    self.nodes@.len() == 4,
                    self.bounds == old(self).bounds,
                    self.max_objects == old(self).max_objects,
                    self.max_levels == old(self).max_levels,
                    self.level == old(self).level,
                    self.level < self.max_levels,
                    forall|j: int|
                        0 <= j < 4 ==> (#[trigger] self.nodes@[j])@ == subdivide::<T, U>(
                            quadrant(self.bounds, j),
                            self.max_objects,
                            self.max_levels,
                            (self.level + 1) as usize,
                            held.take(k as int).filter(|o: T| o.inside(quadrant(self.bounds, j))),
                        ),
                decreases self.objects@.len() - k,
            {
                let mut i: usize = 0;
                while i < self.nodes.len()
                    invariant
                        clones_exactly::<T>(),
                        k < self.objects@.len(),
                        i <= 4,
                        self.objects@ == held,
                        self.nodes@.len() == 4,
                        self.bounds == old(self).bounds,
                        self.max_objects == old(self).max_objects,
                        self.max_levels == old(self).max_levels,
                        self.level == old(self).level,
                        self.level < self.max_levels,
                        forall|j: int|
                            i <= j < 4 ==> (#[trigger] self.nodes@[j])@ == subdivide::<T, U>(
                                quadrant(self.bounds, j),
                                self.max_objects,
                                self.max_levels,
                                (self.level + 1) as usize,
                                held.take(k as int).filter(
                                    |o: T| o.inside(quadrant(self.bounds, j)),
                                ),
                            ),
                        forall|j: int|
                            0 <= j < i ==> (#[trigger] self.nodes@[j])@ == subdivide::<T, U>(
                                quadrant(self.bounds, j),
                                self.max_objects,
                                self.max_levels,
                                (self.level + 1) as usize,
                                held.take(k + 1).filter(
                                    |o: T| o.inside(quadrant(self.bounds, j)),
                                ),
                            ),
                    decreases 4 - i,
                {
                    let ghost q = quadrant(self.bounds, i as int);
                    let ghost part = held.take(k as int).filter(|o: T| o.inside(q));
                    proof {
                        assert(held.take(k + 1) =~= held.take(k as int).push(held[k as int]));
                        held.take(k as int).lemma_filter_push(held[k as int], |o: T| o.inside(q));
                        lemma_subdivide_fields::<T, U>(
                            q,
                            self.max_objects,
                            self.max_levels,
                            (self.level + 1) as usize,
                            part,
                        );
                        lemma_subdivide_well_formed::<T, U>(
                            q,
                            self.max_objects,
                            self.max_levels,
                            (self.level + 1) as usize,
                            part,
                        );
                        lemma_insert_subdivided::<T, U>(
                            q,
                            self.max_objects,
                            self.max_levels,
                            (self.level + 1) as usize,
                            part,
                            held[k as int],
                        );
                    }
                    if self.objects[k].in_node(&self.nodes[i].bounds) {
                        self.nodes[i].insert(&self.objects[k]);
                    }
                    i += 1;
                }
                k += 1;
            }
            self.objects.clear();
            proof {
                assert(held.take(held.len() as int) =~= held);
                let after = insert_into::<T, U>(old(self)@, *obj);
                assert(after.nodes.len() == 4);
                assert forall|j: int| 0 <= j < 4 implies self@.nodes[j] == after.nodes[j] by {
                    assert(self@.nodes[j] == self.nodes@[j]@);
                }
                assert(self@.nodes =~= after.nodes);
                assert(self@.objects =~= after.objects);
            }
        } else {
            assert(self@.nodes =~= Seq::<Node<T>>::empty());
        }
        self
    }

    /// The objects that may lie within `distance` of `obj`: those of this node
    /// and of every node below it that is reached through children whose
    /// extent, grown by `distance`, `obj` falls inside. At the root, where
    /// the depth is 0, each is given once however many leaves hold it.
    pub fn search<V>(&self, obj: &V, distance: i64) -> (result: Vec<&T>) where
        V: QuadTreeObject<U>,

        requires
            well_formed(self@),
            equality_is_identity::<T>(),
        ensures
            values(result@) == if self.level == 0 {
                unique(found::<T, V, U>(self@, *obj, distance))
            } else {
                found::<T, V, U>(self@, *obj, distance)
            },
            self.level == 0 ==> values(result@).no_duplicates(),
            forall|o: T|
                values(result@).contains(o) <==> found::<T, V, U>(self@, *obj, distance).contains(
                    o,
                ),
        decreases self,
    {
        proof {
            lemma_unique(found::<T, V, U>(self@, *obj, distance));
        }
        let mut result: Vec<&T> = Vec::new();
        let mut k: usize = 0;
        while k < self.objects.len()
            invariant
                k <= self.objects@.len(),
                values(result@) == self.objects@.take(k as int),
            decreases self.objects@.len() - k,
        {
            proof {
                lemma_values_push(result@, &self.objects@[k as int]);
            }
            result.push(&self.objects[k]);
            assert(values(result@) =~= self.objects@.take(k + 1));
            k += 1;
        }
        assert(self.objects@.take(k as int) =~= self.objects@);
        let mut i: usize = 0;
        while i < self.nodes.len()
            invariant
                well_formed(self@),
                equality_is_identity::<T>(),
                i <= self.nodes@.len(),
                values(result@) == self.objects@ + found_below::<T, V, U>(
                    self@,
                    *obj,
                    distance,
                    i as int,
                ),
            decreases self.nodes@.len() - i,
        {
            let node = &self.nodes[i];
            let offset = offset_node_bounds(&node.bounds, distance);
            assert(self@.nodes[i as int] == node@);
            if obj.in_node(&offset) {
                let below = node.search(obj, distance);
                let ghost before = values(result@);
                let mut j: usize = 0;
                while j < below.len()
                    invariant
                        j <= below@.len(),
                        values(result@) == before + values(below@).take(j as int),
                    decreases below@.len() - j,
                {
                    proof {
                        lemma_values_push(result@, below@[j as int]);
                    }
                    result.push(below[j]);
                    assert(values(result@) =~= before + values(below@).take(j + 1));
                    j += 1;
                }
                assert(values(below@).take(j as int) =~= values(below@));
            }
            i += 1;
        }
        if self.level == 0 {
            result = keep_first(result);
        }
        result
    }

    /// Empties the tree: what is left is one leaf that holds nothing.
    pub fn clear(&mut self) -> (tree: &mut Self)
        ensures
            tree@ == empty_leaf::<T>(
                old(self).bounds,
                old(self).max_objects,
                old(self).max_levels,
                old(self).level,
            ),
            *final(self) == *final(tree),
    {
        self.objects.clear();
        self.nodes.clear();
        assert(self@.nodes =~= Seq::<Node<T>>::empty());
        self
    }
}

} // verus!
