use vstd::prelude::*;
use vstd::std_specs::cmp::PartialEqSpecImpl;
use crate::geometry::plan::{
    advanced, assembled, chained, count_set, end_point, flipped, has_stroke,
    lemma_count_set_bound, lemma_count_set_update, lemma_progress_done, lemma_progress_step,
    loose, progress, step_end, step_start, unscrambled, walk_end, walked, PathStep,
};
use crate::geometry::point::{
    bounding_box_from_points, bounding_box_of, lemma_bounding_box, points_close, points_equal,
};
use crate::geometry::stroke::{reversal_of, reverse_stroke};
use crate::geometry::stroke_types::{SegmentBehavior, StrokeBehavior};
use crate::geometry::types::XY;
use crate::quadtree::containment::{
    holds, lemma_found_holds, lemma_holds_found, lemma_insert_holds, lemma_insert_holds_only,
    lemma_insert_keeps, lemma_insert_placed, placed,
};
use crate::quadtree::lemmas::lemma_insert_fields;
use crate::quadtree::quadtree::{
    clones_exactly, equality_is_identity, found, well_formed, Node, Quadtree, QuadtreeProps,
};
use crate::quadtree::quadtree_point::{
    lemma_point_reaches, lemma_point_splits_well, QuadtreePoint,
};
use crate::quadtree::unique::values;

verus! {

/// Tolerance of `unscramble_path` when the caller gives none: a thousandth of
/// a drawing unit.
pub const PATH_TOLERANCE: i64 = 1_000_000;

/// What the index keeps for one end point: the stroke it belongs to, and
/// whether it is the first of the stroke's two.
#[derive(Clone, Copy, Debug, Hash)]
pub struct EndpointEntry {
    pub stroke: usize,
    pub start: bool,
}

impl PartialEq for EndpointEntry {
    fn eq(&self, other: &Self) -> (r: bool) {
        self.stroke == other.stroke && self.start == other.start
    }
}

impl PartialEqSpecImpl for EndpointEntry {
    open spec fn obeys_eq_spec() -> bool {
        true
    }

    open spec fn eq_spec(&self, other: &Self) -> bool {
        self.stroke == other.stroke && self.start == other.start
    }
}

impl Eq for EndpointEntry {

}

/// The indexed form of one end point of one of the strokes.
pub open spec fn entry_of(ends: Seq<(XY, XY)>, stroke: int, start: bool) -> QuadtreePoint<
    EndpointEntry,
> {
    QuadtreePoint {
        point: end_point(ends, stroke, start),
        data: EndpointEntry { stroke: stroke as usize, start },
    }
}

/// `obj` is the indexed form of an end point of one of the first `count`
/// strokes.
pub open spec fn is_entry(ends: Seq<(XY, XY)>, count: int, obj: QuadtreePoint<EndpointEntry>) -> bool {
    &&& obj.data.stroke < count
    &&& obj.data.stroke < ends.len()
    &&& obj.point == end_point(ends, obj.data.stroke as int, obj.data.start)
}

/// The end points of the first `count` strokes, two for each stroke.
pub open spec fn extremes_of(ends: Seq<(XY, XY)>, count: int) -> Seq<XY> {
    Seq::new(
        (2 * count) as nat,
        |k: int|
            if k % 2 == 0 {
                ends[k / 2].0
            } else {
                ends[k / 2].1
            },
    )
}

/// An index over the end points of the first `count` strokes: a tree from
/// the root down that holds their indexed forms and nothing else.
pub open spec fn indexes(
    tree: Node<QuadtreePoint<EndpointEntry>>,
    ends: Seq<(XY, XY)>,
    count: int,
) -> bool {
    &&& tree.level == 0
    &&& well_formed(tree)
    &&& placed::<QuadtreePoint<EndpointEntry>, EndpointEntry>(tree)
    &&& forall|obj: QuadtreePoint<EndpointEntry>| #[trigger]
        holds(tree, obj) <==> is_entry(ends, count, obj)
}

/// A clone of an indexed end point is the same value, and `==` on indexed
/// end points is identity.
pub proof fn lemma_entries_are_plain()
    ensures
        clones_exactly::<QuadtreePoint<EndpointEntry>>(),
        equality_is_identity::<QuadtreePoint<EndpointEntry>>(),
{
}

fn extremes(ends: &Vec<(XY, XY)>) -> (points: Vec<XY>)
    ensures
        points@ == extremes_of(ends@, ends@.len() as int),
{
    let mut points: Vec<XY> = Vec::new();
    let mut i: usize = 0;
    while i < ends.len()
        invariant
            i <= ends@.len(),
            points@ == extremes_of(ends@, i as int),
        decreases ends@.len() - i,
    {
        points.push(ends[i].0);
        points.push(ends[i].1);
        i += 1;
        assert(points@ =~= extremes_of(ends@, i as int));
    }
    points
}

/// The index over the end points of all the strokes.
fn index_endpoints(ends: &Vec<(XY, XY)>) -> (index: Quadtree<
    QuadtreePoint<EndpointEntry>,
    EndpointEntry,
>)
    ensures
        indexes(index@, ends@, ends@.len() as int),
{
    let points = extremes(ends);
    let bounds = bounding_box_from_points(&points);
    let mut index: Quadtree<QuadtreePoint<EndpointEntry>, EndpointEntry> = Quadtree::new(
        QuadtreeProps { bounds, max_objects: 10, max_levels: 4 },
        0,
    );
    proof {
        lemma_entries_are_plain();
        lemma_bounding_box(points@, points@.len() as int);
        assert forall|obj: QuadtreePoint<EndpointEntry>| #[trigger]
            holds(index@, obj) <==> is_entry(ends@, 0, obj) by {
            assert(index@.objects =~= Seq::empty());
        }
    }
    let mut i: usize = 0;
    while i < ends.len()
        invariant
            i <= ends@.len(),
            indexes(index@, ends@, i as int),
            index@.bounds == bounds,
            points@ == extremes_of(ends@, ends@.len() as int),
            bounds == bounding_box_of(points@, points@.len() as int),
            clones_exactly::<QuadtreePoint<EndpointEntry>>(),
        decreases ends@.len() - i,
    {
        let first = QuadtreePoint::new(ends[i].0, EndpointEntry { stroke: i, start: true });
        let second = QuadtreePoint::new(ends[i].1, EndpointEntry { stroke: i, start: false });
        let ghost before = index@;
        index.insert(&first);
        let ghost between = index@;
        index.insert(&second);
        proof {
            lemma_bounding_box(points@, points@.len() as int);
            assert(points@[2 * i] == first.point);
            assert(points@[2 * i + 1] == second.point);
            assert(bounds.proper());
            lemma_insert_fields::<QuadtreePoint<EndpointEntry>, EndpointEntry>(before, first);
            lemma_insert_fields::<QuadtreePoint<EndpointEntry>, EndpointEntry>(between, second);
            lemma_insert_placed::<QuadtreePoint<EndpointEntry>, EndpointEntry>(before, first);
            lemma_insert_placed::<QuadtreePoint<EndpointEntry>, EndpointEntry>(between, second);
            lemma_point_splits_well(first);
            lemma_point_splits_well(second);
            lemma_insert_holds::<QuadtreePoint<EndpointEntry>, EndpointEntry>(before, first);
            lemma_insert_holds::<QuadtreePoint<EndpointEntry>, EndpointEntry>(between, second);
            lemma_insert_keeps::<QuadtreePoint<EndpointEntry>, EndpointEntry>(
                between,
                second,
                first,
            );
            assert forall|obj: QuadtreePoint<EndpointEntry>| #[trigger]
                holds(index@, obj) <==> is_entry(ends@, i + 1, obj) by {
                if holds(index@, obj) {
                    lemma_insert_holds_only::<QuadtreePoint<EndpointEntry>, EndpointEntry>(
                        between,
                        second,
                        obj,
                    );
                    if obj != second {
                        lemma_insert_holds_only::<QuadtreePoint<EndpointEntry>, EndpointEntry>(
                            before,
                            first,
                            obj,
                        );
                    }
                }
                if is_entry(ends@, i + 1, obj) {
                    if obj.data.stroke < i {
                        assert(holds(before, obj));
                        let k: int = if obj.data.start {
                            2 * obj.data.stroke
                        } else {
                            2 * obj.data.stroke + 1
                        };
                        assert(points@[k] == obj.point);
                        lemma_point_splits_well(obj);
                        lemma_insert_keeps::<QuadtreePoint<EndpointEntry>, EndpointEntry>(
                            before,
                            first,
                            obj,
                        );
                        lemma_insert_keeps::<QuadtreePoint<EndpointEntry>, EndpointEntry>(
                            between,
                            second,
                            obj,
                        );
                    } else {
                        assert(obj == first || obj == second);
                    }
                }
            }
        }
        i += 1;
    }
    index
}

/// The first end point in the index that belongs to a stroke not yet taken
/// and is the same as the point of `query` within the tolerance, in the order
/// in which the index gives its candidates; `None` when no stroke that is left
/// has such an end point.
fn next_match(
    index: &Quadtree<QuadtreePoint<EndpointEntry>, EndpointEntry>,
    ends: &Vec<(XY, XY)>,
    used: &Vec<bool>,
    query: &QuadtreePoint<EndpointEntry>,
    tolerance: i64,
) -> (found_entry: Option<EndpointEntry>)
    requires
        indexes(index@, ends@, ends@.len() as int),
        used@.len() == ends@.len(),
    ensures
        match found_entry {
            Some(entry) => {
                &&& entry.stroke < ends@.len()
                &&& !used@[entry.stroke as int]
                &&& points_close(
                    query.point,
                    end_point(ends@, entry.stroke as int, entry.start),
                    tolerance as int,
                )
            },
            None => forall|j: int|
                0 <= j < ends@.len() && !#[trigger] used@[j] ==> loose(
                    ends@,
                    tolerance as int,
                    query.point,
                    j,
                ),
        },
{
    proof {
        lemma_entries_are_plain();
    }
    let candidates = index.search(query, tolerance);
    proof {
        assert forall|obj: QuadtreePoint<EndpointEntry>|
            values(candidates@).contains(obj) implies is_entry(
            ends@,
            ends@.len() as int,
            obj,
        ) by {
            lemma_found_holds::<QuadtreePoint<EndpointEntry>, QuadtreePoint<EndpointEntry>, EndpointEntry>(
                index@,
                *query,
                tolerance,
                obj,
            );
        }
    }
    let count: usize = ends.len();
    let mut k: usize = 0;
    while k < candidates.len()
        invariant
            k <= candidates@.len(),
            used@.len() == ends@.len(),
            ends@.len() == count,
            forall|obj: QuadtreePoint<EndpointEntry>|
                values(candidates@).contains(obj) ==> is_entry(ends@, ends@.len() as int, obj),
            forall|m: int|
                0 <= m < k ==> {
                    ||| used@[(#[trigger] values(candidates@)[m]).data.stroke as int]
                    ||| !points_close(query.point, values(candidates@)[m].point, tolerance as int)
                },
        decreases candidates@.len() - k,
    {
        let candidate: &QuadtreePoint<EndpointEntry> = candidates[k];
        proof {
            assert(values(candidates@)[k as int] == *candidate);
            assert(values(candidates@).contains(*candidate));
        }
        if !used[candidate.data.stroke] && points_equal(
            query.point,
            candidate.point,
            Some(tolerance),
        ) {
            return Some(candidate.data);
        }
        k += 1;
    }
    proof {
        assert forall|j: int| 0 <= j < ends@.len() && !#[trigger] used@[j] implies loose(
            ends@,
            tolerance as int,
            query.point,
            j,
        ) by {
            lemma_none_left(index@, ends@, used@, *query, tolerance, values(candidates@), j, true);
            lemma_none_left(index@, ends@, used@, *query, tolerance, values(candidates@), j, false);
        }
    }
    None
}

/// If none of the candidates that a search gave is both left and the same as
/// the query point within the tolerance, no end point of a stroke that is
/// left is.
proof fn lemma_none_left(
    tree: Node<QuadtreePoint<EndpointEntry>>,
    ends: Seq<(XY, XY)>,
    used: Seq<bool>,
    query: QuadtreePoint<EndpointEntry>,
    tolerance: i64,
    candidates: Seq<QuadtreePoint<EndpointEntry>>,
    j: int,
    start: bool,
)
    requires
        indexes(tree, ends, ends.len() as int),
        ends.len() <= usize::MAX,
        used.len() == ends.len(),
        0 <= j < ends.len(),
        !used[j],
        forall|obj: QuadtreePoint<EndpointEntry>|
            candidates.contains(obj) <==> found::<
                QuadtreePoint<EndpointEntry>,
                QuadtreePoint<EndpointEntry>,
                EndpointEntry,
            >(tree, query, tolerance).contains(obj),
        forall|m: int|
            0 <= m < candidates.len() ==> {
                ||| used[(#[trigger] candidates[m]).data.stroke as int]
                ||| !points_close(query.point, candidates[m].point, tolerance as int)
            },
    ensures
        !points_close(query.point, end_point(ends, j, start), tolerance as int),
{
    if points_close(query.point, end_point(ends, j, start), tolerance as int) {
        let obj = entry_of(ends, j, start);
        assert(is_entry(ends, ends.len() as int, obj));
        assert(holds(tree, obj));
        lemma_point_reaches(query, tolerance, obj);
        lemma_holds_found::<QuadtreePoint<EndpointEntry>, QuadtreePoint<EndpointEntry>, EndpointEntry>(
            tree,
            query,
            tolerance,
            obj,
        );
        assert(candidates.contains(obj));
        let m = choose|m: int| 0 <= m < candidates.len() && candidates[m] == obj;
        assert(candidates[m].data.stroke == j);
    }
}

/// Walks from the end point `from` of a stroke that is taken: as long as a
/// stroke that is left has an end point that is the same, within the
/// tolerance, as the point where the walk stands, the walk takes the first
/// such stroke and goes on from its other end.
fn walk(
    index: &Quadtree<QuadtreePoint<EndpointEntry>, EndpointEntry>,
    ends: &Vec<(XY, XY)>,
    used: &mut Vec<bool>,
    from: EndpointEntry,
    tolerance: i64,
) -> (steps: Vec<PathStep>)
    requires
        indexes(index@, ends@, ends@.len() as int),
        old(used)@.len() == ends@.len(),
        from.stroke < ends@.len(),
    ensures
        walked(
            ends@,
            tolerance as int,
            end_point(ends@, from.stroke as int, from.start),
            old(used)@,
            final(used)@,
            steps@,
        ),
{
    let ghost origin = end_point(ends@, from.stroke as int, from.start);
    let mut steps: Vec<PathStep> = Vec::new();
    let mut current: EndpointEntry = from;
    let mut done: bool = false;
    proof {
        lemma_count_set_bound(used@, used@.len() as int);
    }
    while !done
        invariant
            indexes(index@, ends@, ends@.len() as int),
            current.stroke < ends@.len(),
            advanced(ends@, tolerance as int, origin, old(used)@, used@, steps@),
            end_point(ends@, current.stroke as int, current.start) == walk_end(
                ends@,
                origin,
                steps@,
            ),
            count_set(used@, used@.len() as int) <= used@.len(),
            done ==> forall|j: int|
                0 <= j < used@.len() && !#[trigger] used@[j] ==> loose(
                    ends@,
                    tolerance as int,
                    walk_end(ends@, origin, steps@),
                    j,
                ),
        decreases
                used@.len() - count_set(used@, used@.len() as int) + if done {
                    0int
                } else {
                    1int
                },
    {
        let point: XY = if current.start {
            ends[current.stroke].0
        } else {
            ends[current.stroke].1
        };
        let query = QuadtreePoint::new(point, current);
        match next_match(index, ends, used, &query, tolerance) {
            None => {
                done = true;
            },
            Some(entry) => {
                let step = PathStep { stroke: entry.stroke, reversed: !entry.start };
                let ghost flags = used@;
                let ghost taken = steps@;
                steps.push(step);
                used[entry.stroke] = true;
                current = EndpointEntry { stroke: entry.stroke, start: !entry.start };
                proof {
                    assert(used@ == flags.update(entry.stroke as int, true));
                    lemma_walk_step(
                        ends@,
                        tolerance as int,
                        origin,
                        old(used)@,
                        flags,
                        taken,
                        step,
                    );
                    lemma_count_set_bound(used@, used@.len() as int);
                }
            },
        }
    }
    steps
}

/// A walk that takes one more stroke, which was left and begins where the
/// walk stands, is still a walk.
proof fn lemma_walk_step(
    ends: Seq<(XY, XY)>,
    tolerance: int,
    origin: XY,
    before: Seq<bool>,
    flags: Seq<bool>,
    taken: Seq<PathStep>,
    step: PathStep,
)
    requires
        advanced(ends, tolerance, origin, before, flags, taken),
        step.stroke < ends.len(),
        !flags[step.stroke as int],
        points_close(walk_end(ends, origin, taken), step_start(ends, step), tolerance),
    ensures
        advanced(
            ends,
            tolerance,
            origin,
            before,
            flags.update(step.stroke as int, true),
            taken.push(step),
        ),
{
    let longer = taken.push(step);
    let after = flags.update(step.stroke as int, true);
    lemma_count_set_update(flags, step.stroke as int, flags.len() as int);
    assert(flags[step.stroke as int] <==> before[step.stroke as int] || has_stroke(
        taken,
        step.stroke as int,
    ));
    assert forall|k: int| 0 <= k < longer.len() implies (#[trigger] longer[k]).stroke < ends.len()
        && !before[longer[k].stroke as int] by {
        if k < taken.len() {
            assert(longer[k] == taken[k]);
        }
    }
    assert forall|k1: int, k2: int| 0 <= k1 < k2 < longer.len() implies (
    #[trigger] longer[k1]).stroke != (#[trigger] longer[k2]).stroke by {
        assert(longer[k1] == taken[k1]);
        if k2 < taken.len() {
            assert(longer[k2] == taken[k2]);
        } else {
            if taken[k1].stroke == step.stroke {
                assert(has_stroke(taken, step.stroke as int));
            }
        }
    }
    assert forall|j: int| 0 <= j < ends.len() implies (#[trigger] after[j] <==> before[j]
        || has_stroke(longer, j)) by {
        assert(flags[j] <==> before[j] || has_stroke(taken, j));
        if has_stroke(taken, j) {
            let k = choose|k: int| 0 <= k < taken.len() && (#[trigger] taken[k]).stroke == j;
            assert(longer[k].stroke == j);
        }
        if j == step.stroke {
            assert(longer[taken.len() as int].stroke == j);
        }
        if has_stroke(longer, j) {
            let k = choose|k: int| 0 <= k < longer.len() && (#[trigger] longer[k]).stroke == j;
            if k < taken.len() {
                assert(taken[k].stroke == j);
            }
        }
    }
    assert forall|k: int| 0 <= k < longer.len() - 1 implies points_close(
        step_end(ends, #[trigger] longer[k]),
        step_start(ends, longer[k + 1]),
        tolerance,
    ) by {
        assert(longer[k] == taken[k]);
        if k + 1 < taken.len() {
            assert(longer[k + 1] == taken[k + 1]);
        } else {
            assert(taken[k] == taken.last());
        }
    }
    if taken.len() > 0 {
        assert(longer[0] == taken[0]);
    }
}

/// The path walked the other way.
fn flip_path(steps: &Vec<PathStep>) -> (other: Vec<PathStep>)
    ensures
        other@ == flipped(steps@),
{
    let mut other: Vec<PathStep> = Vec::new();
    let mut k: usize = steps.len();
    while k > 0
        invariant
            k <= steps@.len(),
            other@.len() == steps@.len() - k,
            forall|m: int|
                0 <= m < other@.len() ==> #[trigger] other@[m] == (PathStep {
                    stroke: steps@[steps@.len() - 1 - m].stroke,
                    reversed: !steps@[steps@.len() - 1 - m].reversed,
                }),
        decreases k,
    {
        k -= 1;
        let step: PathStep = steps[k];
        other.push(PathStep { stroke: step.stroke, reversed: !step.reversed });
    }
    assert(other@ =~= flipped(steps@));
    other
}

/// The paths as lists of steps.
pub open spec fn plan_of(paths: Seq<Vec<PathStep>>) -> Seq<Seq<PathStep>> {
    paths.map_values(|path: Vec<PathStep>| path@)
}

/// Stitches strokes, given by their two end points each, into paths. A path
/// grows from the first stroke that is left, forward from its second end
/// point and backward from its first, through end points that are the same
/// within `tolerance`, and takes at each point the first stroke that the
/// index gives.
pub fn unscramble_plan(ends: &Vec<(XY, XY)>, tolerance: i64) -> (plan: Vec<Vec<PathStep>>)
    ensures
        unscrambled(ends@, tolerance as int, plan_of(plan@)),
{
    let index = index_endpoints(ends);
    let mut used: Vec<bool> = Vec::new();
    let mut j: usize = 0;
    while j < ends.len()
        invariant
            j <= ends@.len(),
            used@.len() == j,
            forall|m: int| 0 <= m < j ==> !used@[m],
        decreases ends@.len() - j,
    {
        used.push(false);
        j += 1;
    }
    let mut result: Vec<Vec<PathStep>> = Vec::new();
    proof {
        lemma_count_none(used@, used@.len() as int);
        assert(plan_of(result@) =~= Seq::<Seq<PathStep>>::empty());
        assert(plan_of(result@).flatten() =~= Seq::<PathStep>::empty());
    }
    let mut i: usize = 0;
    while i < ends.len()
        invariant
            i <= ends@.len(),
            indexes(index@, ends@, ends@.len() as int),
            progress(ends@, tolerance as int, used@, plan_of(result@)),
            forall|m: int| 0 <= m < i ==> used@[m],
        decreases ends@.len() - i,
    {
        if !used[i] {
            let ghost used0 = used@;
            let ghost plan0 = plan_of(result@);
            used[i] = true;
            let ghost used1 = used@;
            let forward = walk(&index, ends, &mut used, EndpointEntry { stroke: i, start: false }, tolerance);
            let ghost used2 = used@;
            let backward = walk(&index, ends, &mut used, EndpointEntry { stroke: i, start: true }, tolerance);
            let mut path = flip_path(&backward);
            path.push(PathStep { stroke: i, reversed: false });
            let mut k: usize = 0;
            while k < forward.len()
                invariant
                    k <= forward@.len(),
                    path@ == flipped(backward@) + seq![PathStep { stroke: i, reversed: false }]
                        + forward@.take(k as int),
                decreases forward@.len() - k,
            {
                path.push(forward[k]);
                k += 1;
                assert(forward@.take(k as int) =~= forward@.take(k - 1).push(forward@[k - 1]));
            }
            proof {
                assert(forward@.take(k as int) =~= forward@);
                assert(path@ == assembled(i as int, forward@, backward@));
                lemma_progress_step(
                    ends@,
                    tolerance as int,
                    plan0,
                    i as int,
                    used0,
                    used1,
                    used2,
                    used@,
                    forward@,
                    backward@,
                );
                assert(plan_of(result@.push(path)) =~= plan0.push(path@));
                assert forall|m: int| 0 <= m < i + 1 implies used@[m] by {
                    assert(used@[m] <==> used2[m] || has_stroke(backward@, m));
                    assert(used2[m] <==> used1[m] || has_stroke(forward@, m));
                }
            }
            result.push(path);
        }
        i += 1;
    }
    proof {
        lemma_progress_done(ends@, tolerance as int, used@, plan_of(result@));
    }
    result
}

/// What a caller may choose: the tolerance within which two end points are
/// the same point, and the reversal of a stroke. Where one is `None`, the
/// tolerance is `PATH_TOLERANCE` and the reversal is `reverse_stroke`.
pub struct UnscramblePathOpts<F> {
    pub tolerance: Option<i64>,
    pub reverse: Option<F>,
}

/// The tolerance in force.
pub open spec fn tolerance_of<F>(opts: Option<UnscramblePathOpts<F>>) -> i64 {
    match opts {
        Some(UnscramblePathOpts { tolerance: Some(t), .. }) => t,
        _ => PATH_TOLERANCE,
    }
}

/// The two end points of each stroke.
pub open spec fn ends_of<T: SegmentBehavior>(strokes: Seq<T>) -> Seq<(XY, XY)> {
    Seq::new(strokes.len(), |i: int| (strokes[i].p1(), strokes[i].p2()))
}

/// `out` may stand in a path for the stroke `stroke` run the other way: it
/// is what the caller's reversal, or else `reverse_stroke`, may give for it.
pub open spec fn turned<T: StrokeBehavior + Clone, F: Fn(&T) -> T>(
    opts: Option<UnscramblePathOpts<F>>,
    stroke: T,
    out: T,
) -> bool {
    match opts {
        Some(UnscramblePathOpts { reverse: Some(f), .. }) => f.ensures((&stroke,), out),
        _ => reversal_of(stroke, out),
    }
}

/// `out` may stand in a path for `step`: it is a clone of the step's stroke,
/// or the stroke reversed where the step runs the other way.
pub open spec fn realizes<T: StrokeBehavior + Clone, F: Fn(&T) -> T>(
    strokes: Seq<T>,
    opts: Option<UnscramblePathOpts<F>>,
    step: PathStep,
    out: T,
) -> bool {
    if step.reversed {
        turned(opts, strokes[step.stroke as int], out)
    } else {
        cloned(strokes[step.stroke as int], out)
    }
}

/// The paths are the plan carried out: path for path and step for step a
/// stroke that may stand for the step.
pub open spec fn follows<T: StrokeBehavior + Clone, F: Fn(&T) -> T>(
    strokes: Seq<T>,
    opts: Option<UnscramblePathOpts<F>>,
    plan: Seq<Seq<PathStep>>,
    paths: Seq<Seq<T>>,
) -> bool {
    &&& paths.len() == plan.len()
    &&& forall|a: int| 0 <= a < plan.len() ==> (#[trigger] paths[a]).len() == plan[a].len()
    &&& forall|a: int, k: int|
        0 <= a < plan.len() && 0 <= k < plan[a].len() ==> realizes(
            strokes,
            opts,
            plan[a][k],
            #[trigger] paths[a][k],
        )
}

/// The paths as lists of strokes.
pub open spec fn paths_of<T>(paths: Seq<Vec<T>>) -> Seq<Seq<T>> {
    paths.map_values(|path: Vec<T>| path@)
}

/// The caller's reversal, if there is one, may be called on each of the
/// strokes.
pub open spec fn can_reverse<T, F: Fn(&T) -> T>(
    strokes: Seq<T>,
    opts: Option<UnscramblePathOpts<F>>,
) -> bool {
    match opts {
        Some(UnscramblePathOpts { reverse: Some(f), .. }) => forall|i: int|
            0 <= i < strokes.len() ==> f.requires((&#[trigger] strokes[i],)),
        _ => true,
    }
}

fn turn<T: StrokeBehavior + Clone, F: Fn(&T) -> T>(
    opts: &Option<UnscramblePathOpts<F>>,
    stroke: &T,
) -> (out: T)
    requires
        match *opts {
            Some(UnscramblePathOpts { reverse: Some(f), .. }) => f.requires((stroke,)),
            _ => true,
        },
    ensures
        turned(*opts, *stroke, out),
{
    match opts {
        Some(chosen) => match &chosen.reverse {
            Some(f) => f(stroke),
            None => reverse_stroke(stroke),
        },
        None => reverse_stroke(stroke),
    }
}

/// Stitches loose strokes into paths. Each stroke comes out once, in one
/// path, as a clone of itself or reversed; in a path each stroke begins,
/// within the tolerance, where the one before it ends; and no path could have
/// gone on into a stroke of a later path.
pub fn unscramble_path<T: StrokeBehavior + Clone, F: Fn(&T) -> T>(
    strokes: Vec<T>,
    opts: Option<UnscramblePathOpts<F>>,
) -> (paths: Vec<Vec<T>>)
    requires
        can_reverse(strokes@, opts),
    ensures
        exists|plan: Seq<Seq<PathStep>>|
            {
                &&& unscrambled(ends_of(strokes@), tolerance_of(opts) as int, plan)
                &&& #[trigger] follows(strokes@, opts, plan, paths_of(paths@))
            },
{
    let tolerance: i64 = match &opts {
        Some(chosen) => match chosen.tolerance {
            Some(t) => t,
            None => PATH_TOLERANCE,
        },
        None => PATH_TOLERANCE,
    };
    let mut ends: Vec<(XY, XY)> = Vec::new();
    let mut i: usize = 0;
    while i < strokes.len()
        invariant
            i <= strokes@.len(),
            ends@ == ends_of(strokes@.take(i as int)),
        decreases strokes@.len() - i,
    {
        ends.push((strokes[i].get_p1(), strokes[i].get_p2()));
        i += 1;
        assert(ends@ =~= ends_of(strokes@.take(i as int)));
    }
    assert(strokes@.take(i as int) =~= strokes@);
    let plan = unscramble_plan(&ends, tolerance);
    let mut result: Vec<Vec<T>> = Vec::new();
    let mut a: usize = 0;
    assert(paths_of(result@) =~= Seq::<Seq<T>>::empty());
    while a < plan.len()
        invariant
            a <= plan@.len(),
            can_reverse(strokes@, opts),
            ends@ == ends_of(strokes@),
            unscrambled(ends@, tolerance as int, plan_of(plan@)),
            follows(strokes@, opts, plan_of(plan@).take(a as int), paths_of(result@)),
        decreases plan@.len() - a,
    {
        let steps: &Vec<PathStep> = &plan[a];
        let mut path: Vec<T> = Vec::new();
        let mut k: usize = 0;
        proof {
            assert(plan_of(plan@)[a as int] == steps@);
            lemma_steps_in_range(ends@, tolerance as int, plan_of(plan@), a as int);
        }
        while k < steps.len()
            invariant
                k <= steps@.len(),
                can_reverse(strokes@, opts),
                ends@.len() == strokes@.len(),
                forall|m: int| 0 <= m < steps@.len() ==> (#[trigger] steps@[m]).stroke < ends@.len(),
                path@.len() == k,
                forall|m: int|
                    0 <= m < k ==> realizes(strokes@, opts, steps@[m], #[trigger] path@[m]),
            decreases steps@.len() - k,
        {
            let step: PathStep = steps[k];
            let stroke: &T = &strokes[step.stroke];
            let out: T = if step.reversed {
                turn(&opts, stroke)
            } else {
                let copy = stroke.clone();
                assert(cloned(*stroke, copy));
                copy
            };
            path.push(out);
            k += 1;
        }
        proof {
            let before = plan_of(plan@).take(a as int);
            let after = plan_of(plan@).take(a + 1);
            let made = paths_of(result@.push(path));
            assert(after =~= before.push(steps@));
            assert(made =~= paths_of(result@).push(path@));
            assert forall|b: int, m: int| 0 <= b < after.len() && 0 <= m < after[b].len() implies realizes(
                strokes@,
                opts,
                after[b][m],
                #[trigger] made[b][m],
            ) by {
                if b < a {
                    assert(made[b] == paths_of(result@)[b]);
                    assert(after[b] == before[b]);
                }
            }
            assert forall|b: int| 0 <= b < after.len() implies (#[trigger] made[b]).len()
                == after[b].len() by {
                if b < a {
                    assert(made[b] == paths_of(result@)[b]);
                    assert(after[b] == before[b]);
                }
            }
        }
        result.push(path);
        a += 1;
    }
    proof {
        assert(plan_of(plan@).take(a as int) =~= plan_of(plan@));
    }
    result
}

/// Every step of an unscrambling is one of the strokes.
pub proof fn lemma_steps_in_range(
    ends: Seq<(XY, XY)>,
    tolerance: int,
    plan: Seq<Seq<PathStep>>,
    a: int,
)
    requires
        unscrambled(ends, tolerance, plan),
        0 <= a < plan.len(),
    ensures
        forall|m: int| 0 <= m < plan[a].len() ==> (#[trigger] plan[a][m]).stroke < ends.len(),
    decreases plan.len(),
{
    assert forall|m: int| 0 <= m < plan[a].len() implies (#[trigger] plan[a][m]).stroke
        < ends.len() by {
        lemma_flatten_index(plan, a, m);
    }
}

/// A step of a path is a step of all the paths put together.
pub proof fn lemma_flatten_index(plan: Seq<Seq<PathStep>>, a: int, m: int)
    requires
        0 <= a < plan.len(),
        0 <= m < plan[a].len(),
    ensures
        exists|k: int| 0 <= k < plan.flatten().len() && #[trigger] plan.flatten()[k] == plan[a][m],
    decreases plan.len(),
{
    let rest = plan.drop_first();
    if a == 0 {
        assert(plan.flatten()[m] == plan[0][m]);
    } else {
        lemma_flatten_index(rest, a - 1, m);
        let k = choose|k: int| 0 <= k < rest.flatten().len() && #[trigger] rest.flatten()[k] == rest[a - 1][m];
        assert(plan.flatten()[plan.first().len() + k] == plan[a][m]);
    }
}

/// In the paths that `unscramble_path` gives, each stroke begins, within the
/// tolerance, where the stroke before it ends, provided that a clone of a
/// stroke has the stroke's end points and that the caller's reversal, where
/// there is one, gives a stroke with the end points in the other order.
pub proof fn lemma_paths_chained<T: StrokeBehavior + Clone, F: Fn(&T) -> T>(
    strokes: Seq<T>,
    opts: Option<UnscramblePathOpts<F>>,
    plan: Seq<Seq<PathStep>>,
    paths: Seq<Seq<T>>,
    a: int,
    k: int,
)
    requires
        unscrambled(ends_of(strokes), tolerance_of(opts) as int, plan),
        follows(strokes, opts, plan, paths),
        forall|s: T, c: T| #[trigger] cloned(s, c) ==> c.p1() == s.p1() && c.p2() == s.p2(),
        forall|s: T, r: T| #[trigger]
            turned(opts, s, r) ==> r.p1() == s.p2() && r.p2() == s.p1(),
        0 <= a < paths.len(),
        0 <= k < paths[a].len() - 1,
    ensures
        points_close(paths[a][k].p2(), paths[a][k + 1].p1(), tolerance_of(opts) as int),
{
    let ends = ends_of(strokes);
    lemma_steps_in_range(ends, tolerance_of(opts) as int, plan, a);
    assert(chained(ends, tolerance_of(opts) as int, plan[a]));
    let first = plan[a][k];
    let second = plan[a][k + 1];
    assert(points_close(step_end(ends, first), step_start(ends, second), tolerance_of(opts) as int));
    assert(realizes(strokes, opts, first, paths[a][k]));
    assert(realizes(strokes, opts, second, paths[a][k + 1]));
}

/// Where no flag is set, none is counted.
proof fn lemma_count_none(flags: Seq<bool>, count: int)
    requires
        0 <= count <= flags.len(),
        forall|m: int| 0 <= m < count ==> !flags[m],
    ensures
        count_set(flags, count) == 0,
    decreases count,
{
    if count > 0 {
        lemma_count_none(flags, count - 1);
    }
}

} // verus!
