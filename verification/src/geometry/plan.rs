use vstd::prelude::*;
use crate::geometry::point::{lemma_points_close_symmetric, points_close};
use crate::geometry::types::XY;

verus! {

/// One stroke of a path: which of the given strokes it is, and whether it
/// runs through the path from its second end point to its first.
#[derive(Clone, Copy, Debug, PartialEq, Eq, Hash, Structural)]
pub struct PathStep {
    pub stroke: usize,
    pub reversed: bool,
}

/// The first end point of a stroke (`start`) or the second.
pub open spec fn end_point(ends: Seq<(XY, XY)>, stroke: int, start: bool) -> XY {
    if start {
        ends[stroke].0
    } else {
        ends[stroke].1
    }
}

/// The point at which the step begins.
pub open spec fn step_start(ends: Seq<(XY, XY)>, step: PathStep) -> XY {
    end_point(ends, step.stroke as int, !step.reversed)
}

/// The point at which the step ends.
pub open spec fn step_end(ends: Seq<(XY, XY)>, step: PathStep) -> XY {
    end_point(ends, step.stroke as int, step.reversed)
}

/// Each step begins, within the tolerance, where the step before it ends.
pub open spec fn chained(ends: Seq<(XY, XY)>, tolerance: int, path: Seq<PathStep>) -> bool {
    forall|k: int|
        0 <= k < path.len() - 1 ==> points_close(
            step_end(ends, #[trigger] path[k]),
            step_start(ends, path[k + 1]),
            tolerance,
        )
}

/// Neither end point of the stroke is the same as `p` within the tolerance.
pub open spec fn loose(ends: Seq<(XY, XY)>, tolerance: int, p: XY, stroke: int) -> bool {
    &&& !points_close(p, ends[stroke].0, tolerance)
    &&& !points_close(p, ends[stroke].1, tolerance)
}

/// One of the steps is the stroke `stroke`.
pub open spec fn has_stroke(steps: Seq<PathStep>, stroke: int) -> bool {
    exists|k: int| 0 <= k < steps.len() && (#[trigger] steps[k]).stroke == stroke
}

/// No two of the steps are the same stroke.
pub open spec fn distinct(steps: Seq<PathStep>) -> bool {
    forall|k1: int, k2: int|
        0 <= k1 < k2 < steps.len() ==> (#[trigger] steps[k1]).stroke != (#[trigger] steps[k2]).stroke
}

/// Each of the `n` strokes is exactly one of the steps.
pub open spec fn each_once(n: int, steps: Seq<PathStep>) -> bool {
    &&& steps.len() == n
    &&& distinct(steps)
    &&& forall|k: int| 0 <= k < steps.len() ==> (#[trigger] steps[k]).stroke < n
    &&& forall|j: int| 0 <= j < n ==> has_stroke(steps, j)
}

/// The point at which a path begins.
pub open spec fn path_start(ends: Seq<(XY, XY)>, path: Seq<PathStep>) -> XY {
    step_start(ends, path.first())
}

/// The point at which a path ends.
pub open spec fn path_end(ends: Seq<(XY, XY)>, path: Seq<PathStep>) -> XY {
    step_end(ends, path.last())
}

/// No path could have gone on into a later one: no stroke of a later path
/// has an end point that is, within the tolerance, where an earlier path
/// begins or ends.
pub open spec fn closed_off(ends: Seq<(XY, XY)>, tolerance: int, plan: Seq<Seq<PathStep>>) -> bool {
    forall|a: int, b: int, k: int|
        0 <= a < b < plan.len() && 0 <= k < plan[b].len() ==> {
            &&& loose(ends, tolerance, path_start(ends, plan[a]), (#[trigger] plan[b][k]).stroke as int)
            &&& loose(ends, tolerance, path_end(ends, #[trigger] plan[a]), plan[b][k].stroke as int)
        }
}

/// Step `m` of path `a` is the stroke that the path grew from: it runs the
/// way it was given, and it comes in the list of strokes before every other
/// stroke of the path and before every stroke of the later paths.
pub open spec fn is_seed(plan: Seq<Seq<PathStep>>, a: int, m: int) -> bool {
    &&& 0 <= m < plan[a].len()
    &&& !plan[a][m].reversed
    &&& forall|k: int|
        0 <= k < plan[a].len() && k != m ==> plan[a][m].stroke < (#[trigger] plan[a][k]).stroke
    &&& forall|b: int, k: int|
        a < b < plan.len() && 0 <= k < plan[b].len() ==> plan[a][m].stroke < (
        #[trigger] plan[b][k]).stroke
}

/// One step of path `a` is the stroke that the path grew from.
pub open spec fn has_seed(plan: Seq<Seq<PathStep>>, a: int) -> bool {
    exists|m: int| #[trigger] is_seed(plan, a, m)
}

/// Each path grew from the first stroke that the paths before it had left.
pub open spec fn seeded(plan: Seq<Seq<PathStep>>) -> bool {
    forall|a: int| 0 <= a < plan.len() ==> #[trigger] has_seed(plan, a)
}

/// `plan` stitches the strokes with the given end points into paths: each
/// stroke is one step of one path; within a path each step begins where the
/// step before it ends; no path could have gone on into a later one; and each
/// path grew from the first stroke that the paths before it had left.
pub open spec fn unscrambled(ends: Seq<(XY, XY)>, tolerance: int, plan: Seq<Seq<PathStep>>) -> bool {
    &&& each_once(ends.len() as int, plan.flatten())
    &&& forall|a: int|
        0 <= a < plan.len() ==> (#[trigger] plan[a]).len() > 0 && chained(ends, tolerance, plan[a])
    &&& closed_off(ends, tolerance, plan)
    &&& seeded(plan)
}

/// The path walked the other way: the steps in the opposite order, each
/// run through the other way.
pub open spec fn flipped(steps: Seq<PathStep>) -> Seq<PathStep> {
    Seq::new(
        steps.len(),
        |k: int|
            PathStep {
                stroke: steps[steps.len() - 1 - k].stroke,
                reversed: !steps[steps.len() - 1 - k].reversed,
            },
    )
}

/// How many of the first `count` flags are set.
pub open spec fn count_set(flags: Seq<bool>, count: int) -> nat
    decreases count,
{
    if count <= 0 || count > flags.len() {
        0
    } else {
        count_set(flags, count - 1) + if flags[count - 1] {
            1nat
        } else {
            0nat
        }
    }
}

/// Where a walk stands after its steps: at the end of the last of them, or
/// where it set out.
pub open spec fn walk_end(ends: Seq<(XY, XY)>, from: XY, steps: Seq<PathStep>) -> XY {
    if steps.len() == 0 {
        from
    } else {
        step_end(ends, steps.last())
    }
}

/// What a walk from `from` does: it takes strokes that were not taken before,
/// each once, marks them as taken, goes from each to the next through end
/// points that are the same within the tolerance, and stops where no stroke
/// that is left has such an end point.
pub open spec fn walked(
    ends: Seq<(XY, XY)>,
    tolerance: int,
    from: XY,
    before: Seq<bool>,
    after: Seq<bool>,
    steps: Seq<PathStep>,
) -> bool {
    &&& advanced(ends, tolerance, from, before, after, steps)
    &&& forall|j: int|
        0 <= j < after.len() && !#[trigger] after[j] ==> loose(
            ends,
            tolerance,
            walk_end(ends, from, steps),
            j,
        )
}

/// What a walk has done at any moment: all that `walked` says but that
/// it has come to its end.
pub open spec fn advanced(
    ends: Seq<(XY, XY)>,
    tolerance: int,
    from: XY,
    before: Seq<bool>,
    after: Seq<bool>,
    steps: Seq<PathStep>,
) -> bool {
    &&& before.len() == ends.len()
    &&& after.len() == ends.len()
    &&& forall|k: int|
        0 <= k < steps.len() ==> (#[trigger] steps[k]).stroke < ends.len() && !before[steps[k].stroke as int]
    &&& distinct(steps)
    &&& forall|j: int|
        0 <= j < ends.len() ==> (#[trigger] after[j] <==> before[j] || has_stroke(steps, j))
    &&& chained(ends, tolerance, steps)
    &&& steps.len() > 0 ==> points_close(from, step_start(ends, steps[0]), tolerance)
    &&& count_set(after, after.len() as int) == count_set(before, before.len() as int) + steps.len()
}

/// No more flags are set than there are.
pub proof fn lemma_count_set_bound(flags: Seq<bool>, count: int)
    requires
        0 <= count <= flags.len(),
    ensures
        count_set(flags, count) <= count,
    decreases count,
{
    if count > 0 {
        lemma_count_set_bound(flags, count - 1);
    }
}

/// Where every flag is set, as many are set as there are.
pub proof fn lemma_count_set_full(flags: Seq<bool>, count: int)
    requires
        0 <= count <= flags.len(),
        forall|j: int| 0 <= j < count ==> flags[j],
    ensures
        count_set(flags, count) == count,
    decreases count,
{
    if count > 0 {
        lemma_count_set_full(flags, count - 1);
    }
}

/// Setting a flag that was not set makes one more flag set.
pub proof fn lemma_count_set_update(flags: Seq<bool>, j: int, count: int)
    requires
        0 <= j < flags.len(),
        !flags[j],
        0 <= count <= flags.len(),
    ensures
        count_set(flags.update(j, true), count) == count_set(flags, count) + if j < count {
            1nat
        } else {
            0nat
        },
    decreases count,
{
    if count > 0 {
        lemma_count_set_update(flags, j, count - 1);
    }
}

/// A stroke is a step of two paths put together when it is a step of one
/// of them.
pub proof fn lemma_has_stroke_concat(a: Seq<PathStep>, b: Seq<PathStep>, stroke: int)
    ensures
        has_stroke(a + b, stroke) <==> has_stroke(a, stroke) || has_stroke(b, stroke),
{
    let both = a + b;
    if has_stroke(a, stroke) {
        let k = choose|k: int| 0 <= k < a.len() && (#[trigger] a[k]).stroke == stroke;
        assert(both[k].stroke == stroke);
    }
    if has_stroke(b, stroke) {
        let k = choose|k: int| 0 <= k < b.len() && (#[trigger] b[k]).stroke == stroke;
        assert(both[a.len() + k].stroke == stroke);
    }
    if has_stroke(both, stroke) {
        let k = choose|k: int| 0 <= k < both.len() && (#[trigger] both[k]).stroke == stroke;
        if k < a.len() {
            assert(a[k].stroke == stroke);
        } else {
            assert(b[k - a.len()].stroke == stroke);
        }
    }
}

/// A path walked the other way has the same strokes.
pub proof fn lemma_has_stroke_flipped(steps: Seq<PathStep>, stroke: int)
    ensures
        has_stroke(flipped(steps), stroke) <==> has_stroke(steps, stroke),
{
    let other = flipped(steps);
    if has_stroke(steps, stroke) {
        let k = choose|k: int| 0 <= k < steps.len() && (#[trigger] steps[k]).stroke == stroke;
        assert(other[steps.len() - 1 - k].stroke == stroke);
    }
    if has_stroke(other, stroke) {
        let k = choose|k: int| 0 <= k < other.len() && (#[trigger] other[k]).stroke == stroke;
        assert(steps[steps.len() - 1 - k].stroke == stroke);
    }
}

/// Two paths put together have no stroke twice when neither has and they
/// share none.
pub proof fn lemma_distinct_concat(a: Seq<PathStep>, b: Seq<PathStep>)
    requires
        distinct(a),
        distinct(b),
        forall|j: int| !(has_stroke(a, j) && has_stroke(b, j)),
    ensures
        distinct(a + b),
{
    let both = a + b;
    assert forall|k1: int, k2: int| 0 <= k1 < k2 < both.len() implies (#[trigger] both[k1]).stroke
        != (#[trigger] both[k2]).stroke by {
        if k2 < a.len() {
            assert(both[k1] == a[k1] && both[k2] == a[k2]);
        } else if k1 >= a.len() {
            assert(both[k1] == b[k1 - a.len()] && both[k2] == b[k2 - a.len()]);
        } else {
            assert(both[k1] == a[k1] && both[k2] == b[k2 - a.len()]);
            if both[k1].stroke == both[k2].stroke {
                assert(has_stroke(a, both[k1].stroke as int));
                assert(has_stroke(b, both[k1].stroke as int));
            }
        }
    }
}

/// A path walked the other way has no stroke twice if the path has none.
pub proof fn lemma_distinct_flipped(steps: Seq<PathStep>)
    requires
        distinct(steps),
    ensures
        distinct(flipped(steps)),
{
    let other = flipped(steps);
    assert forall|k1: int, k2: int| 0 <= k1 < k2 < other.len() implies (#[trigger] other[k1]).stroke
        != (#[trigger] other[k2]).stroke by {
        let m1 = steps.len() - 1 - k1;
        let m2 = steps.len() - 1 - k2;
        assert(steps[m2].stroke != steps[m1].stroke);
    }
}

/// A path walked the other way hangs together if the path does; it begins
/// where the path ends and ends where the path begins.
pub proof fn lemma_flipped_chained(ends: Seq<(XY, XY)>, tolerance: int, steps: Seq<PathStep>)
    requires
        chained(ends, tolerance, steps),
    ensures
        chained(ends, tolerance, flipped(steps)),
        steps.len() > 0 ==> path_start(ends, flipped(steps)) == path_end(ends, steps),
        steps.len() > 0 ==> path_end(ends, flipped(steps)) == path_start(ends, steps),
{
    let other = flipped(steps);
    assert forall|k: int| 0 <= k < other.len() - 1 implies points_close(
        step_end(ends, #[trigger] other[k]),
        step_start(ends, other[k + 1]),
        tolerance,
    ) by {
        let m = steps.len() - 2 - k;
        assert(points_close(step_end(ends, steps[m]), step_start(ends, steps[m + 1]), tolerance));
        lemma_points_close_symmetric(
            step_end(ends, steps[m]),
            step_start(ends, steps[m + 1]),
            tolerance,
        );
    }
}

/// Three pieces that hang together and meet at their ends hang together as
/// one path.
pub proof fn lemma_chained_concat(
    ends: Seq<(XY, XY)>,
    tolerance: int,
    a: Seq<PathStep>,
    b: Seq<PathStep>,
)
    requires
        chained(ends, tolerance, a),
        chained(ends, tolerance, b),
        a.len() > 0 && b.len() > 0 ==> points_close(
            path_end(ends, a),
            path_start(ends, b),
            tolerance,
        ),
    ensures
        chained(ends, tolerance, a + b),
{
    let both = a + b;
    assert forall|k: int| 0 <= k < both.len() - 1 implies points_close(
        step_end(ends, #[trigger] both[k]),
        step_start(ends, both[k + 1]),
        tolerance,
    ) by {
        if k + 1 < a.len() {
            assert(both[k] == a[k] && both[k + 1] == a[k + 1]);
        } else if k >= a.len() {
            assert(both[k] == b[k - a.len()] && both[k + 1] == b[k - a.len() + 1]);
        } else {
            assert(both[k] == a.last() && both[k + 1] == b.first());
        }
    }
}

/// The path made of a walk forward from a stroke and a walk backward from it:
/// the backward walk the other way round, the stroke itself, the forward walk.
pub open spec fn assembled(seed: int, forward: Seq<PathStep>, backward: Seq<PathStep>) -> Seq<
    PathStep,
> {
    flipped(backward) + seq![PathStep { stroke: seed as usize, reversed: false }] + forward
}

/// What holds while paths are being made: the strokes marked as taken are
/// the steps of the paths made so far, each once; each path hangs together; no
/// path could have gone on into a later one, nor into a stroke that is left.
pub open spec fn progress(
    ends: Seq<(XY, XY)>,
    tolerance: int,
    used: Seq<bool>,
    plan: Seq<Seq<PathStep>>,
) -> bool {
    &&& used.len() == ends.len()
    &&& plan.flatten().len() == count_set(used, used.len() as int)
    &&& distinct(plan.flatten())
    &&& forall|k: int|
        0 <= k < plan.flatten().len() ==> (#[trigger] plan.flatten()[k]).stroke < ends.len()
    &&& forall|j: int| 0 <= j < ends.len() ==> (#[trigger] used[j] <==> has_stroke(plan.flatten(), j))
    &&& forall|a: int|
        0 <= a < plan.len() ==> (#[trigger] plan[a]).len() > 0 && chained(ends, tolerance, plan[a])
    &&& closed_off(ends, tolerance, plan)
    &&& forall|a: int, j: int|
        0 <= a < plan.len() && 0 <= j < ends.len() && !#[trigger] used[j] ==> {
            &&& loose(ends, tolerance, path_start(ends, #[trigger] plan[a]), j)
            &&& loose(ends, tolerance, path_end(ends, plan[a]), j)
        }
    &&& forall|a: int| 0 <= a < plan.len() ==> #[trigger] has_seed_so_far(plan, used, a)
}

/// One step of path `a` is the stroke that the path grew from, and it comes
/// before every stroke that is left.
pub open spec fn has_seed_so_far(plan: Seq<Seq<PathStep>>, used: Seq<bool>, a: int) -> bool {
    exists|m: int| #[trigger] seed_so_far(plan, used, a, m)
}

/// Step `m` of path `a` is the stroke that the path grew from, and it comes
/// before every stroke that is left.
pub open spec fn seed_so_far(plan: Seq<Seq<PathStep>>, used: Seq<bool>, a: int, m: int) -> bool {
    &&& is_seed(plan, a, m)
    &&& forall|j: int| 0 <= j < used.len() && !#[trigger] used[j] ==> plan[a][m].stroke < j
}

/// The strokes of an assembled path are the stroke it grew from and those of
/// the two walks.
pub proof fn lemma_has_stroke_assembled(
    seed: int,
    forward: Seq<PathStep>,
    backward: Seq<PathStep>,
    stroke: int,
)
    requires
        0 <= seed <= usize::MAX,
    ensures
        has_stroke(assembled(seed, forward, backward), stroke) <==> has_stroke(backward, stroke)
            || stroke == seed || has_stroke(forward, stroke),
{
    let middle = seq![PathStep { stroke: seed as usize, reversed: false }];
    lemma_has_stroke_concat(flipped(backward) + middle, forward, stroke);
    lemma_has_stroke_concat(flipped(backward), middle, stroke);
    lemma_has_stroke_flipped(backward, stroke);
    if stroke == seed {
        assert(middle[0].stroke == stroke);
    }
}

/// An assembled path hangs together, begins where the backward walk came to
/// its end and ends where the forward walk did; and it takes each of its
/// strokes once.
pub proof fn lemma_assembled(
    ends: Seq<(XY, XY)>,
    tolerance: int,
    seed: int,
    used1: Seq<bool>,
    used2: Seq<bool>,
    used3: Seq<bool>,
    forward: Seq<PathStep>,
    backward: Seq<PathStep>,
)
    requires
        0 <= seed < ends.len(),
        seed <= usize::MAX,
        used1.len() == ends.len(),
        used1[seed],
        advanced(ends, tolerance, ends[seed].1, used1, used2, forward),
        advanced(ends, tolerance, ends[seed].0, used2, used3, backward),
    ensures
        chained(ends, tolerance, assembled(seed, forward, backward)),
        distinct(assembled(seed, forward, backward)),
        path_start(ends, assembled(seed, forward, backward)) == walk_end(
            ends,
            ends[seed].0,
            backward,
        ),
        path_end(ends, assembled(seed, forward, backward)) == walk_end(
            ends,
            ends[seed].1,
            forward,
        ),
{
    let step = PathStep { stroke: seed as usize, reversed: false };
    let middle = seq![step];
    let back = flipped(backward);
    lemma_flipped_chained(ends, tolerance, backward);
    lemma_distinct_flipped(backward);
    assert(chained(ends, tolerance, middle));
    assert(distinct(middle));
    if backward.len() > 0 {
        assert(path_end(ends, back) == step_start(ends, backward[0]));
        lemma_points_close_symmetric(ends[seed].0, step_start(ends, backward[0]), tolerance);
    }
    lemma_chained_concat(ends, tolerance, back, middle);
    let head = back + middle;
    assert(head.last() == step);
    lemma_chained_concat(ends, tolerance, head, forward);
    assert forall|j: int| !(has_stroke(back, j) && has_stroke(middle, j)) by {
        lemma_has_stroke_flipped(backward, j);
        if has_stroke(backward, j) && has_stroke(middle, j) {
            let k = choose|k: int| 0 <= k < backward.len() && (#[trigger] backward[k]).stroke == j;
            let m = choose|m: int| 0 <= m < middle.len() && (#[trigger] middle[m]).stroke == j;
            assert(used2[seed]);
        }
    }
    lemma_distinct_concat(back, middle);
    assert forall|j: int| !(has_stroke(head, j) && has_stroke(forward, j)) by {
        lemma_has_stroke_concat(back, middle, j);
        lemma_has_stroke_flipped(backward, j);
        if has_stroke(head, j) && has_stroke(forward, j) {
            let k = choose|k: int| 0 <= k < forward.len() && (#[trigger] forward[k]).stroke == j;
            if has_stroke(backward, j) {
                let m = choose|m: int|
                    0 <= m < backward.len() && (#[trigger] backward[m]).stroke == j;
                assert(used2[j]);
            } else {
                let m = choose|m: int| 0 <= m < middle.len() && (#[trigger] middle[m]).stroke == j;
            }
        }
    }
    lemma_distinct_concat(head, forward);
    let path = assembled(seed, forward, backward);
    assert(path == head + forward);
    if backward.len() > 0 {
        assert(path.first() == back.first());
    } else {
        assert(path.first() == step);
    }
    if forward.len() > 0 {
        assert(path.last() == forward.last());
    } else {
        assert(path.last() == step);
    }
}

/// Making one more path keeps what holds while paths are being made.
pub proof fn lemma_progress_step(
    ends: Seq<(XY, XY)>,
    tolerance: int,
    plan: Seq<Seq<PathStep>>,
    seed: int,
    used0: Seq<bool>,
    used1: Seq<bool>,
    used2: Seq<bool>,
    used3: Seq<bool>,
    forward: Seq<PathStep>,
    backward: Seq<PathStep>,
)
    requires
        progress(ends, tolerance, used0, plan),
        0 <= seed < ends.len(),
        seed <= usize::MAX,
        !used0[seed],
        forall|j: int| 0 <= j < seed ==> used0[j],
        used1 == used0.update(seed, true),
        walked(ends, tolerance, ends[seed].1, used1, used2, forward),
        walked(ends, tolerance, ends[seed].0, used2, used3, backward),
    ensures
        progress(ends, tolerance, used3, plan.push(assembled(seed, forward, backward))),
{
    let path = assembled(seed, forward, backward);
    let longer = plan.push(path);
    let all = plan.flatten();
    let n = ends.len() as int;
    plan.lemma_flatten_push(path);
    assert(longer.flatten() == all + path);
    lemma_assembled(ends, tolerance, seed, used1, used2, used3, forward, backward);
    lemma_count_set_update(used0, seed, n);
    assert(path.len() == backward.len() + 1 + forward.len());
    // which strokes are taken
    assert forall|j: int| 0 <= j < n implies (#[trigger] used3[j] <==> has_stroke(
        longer.flatten(),
        j,
    )) by {
        lemma_has_stroke_concat(all, path, j);
        lemma_has_stroke_assembled(seed, forward, backward, j);
        assert(used0[j] <==> has_stroke(all, j));
        assert(used2[j] <==> used1[j] || has_stroke(forward, j));
        assert(used3[j] <==> used2[j] || has_stroke(backward, j));
    }
    // a stroke of the new path was left before
    assert forall|k: int| 0 <= k < path.len() implies (#[trigger] path[k]).stroke < n && !used0[path[k].stroke as int] by {
        if k < backward.len() {
            let m = backward.len() - 1 - k;
            assert(path[k].stroke == backward[m].stroke);
            assert(!used2[backward[m].stroke as int]);
            assert(used2[backward[m].stroke as int] <==> used1[backward[m].stroke as int]
                || has_stroke(forward, backward[m].stroke as int));
        } else if k == backward.len() {
            assert(path[k].stroke == seed);
        } else {
            let m = k - backward.len() - 1;
            assert(path[k] == forward[m]);
            assert(!used1[forward[m].stroke as int]);
        }
    }
    assert forall|j: int| !(has_stroke(all, j) && has_stroke(path, j)) by {
        if has_stroke(all, j) && has_stroke(path, j) {
            let k = choose|k: int| 0 <= k < path.len() && (#[trigger] path[k]).stroke == j;
            let m = choose|m: int| 0 <= m < all.len() && (#[trigger] all[m]).stroke == j;
            assert(used0[j]);
        }
    }
    lemma_distinct_concat(all, path);
    assert forall|k: int| 0 <= k < longer.flatten().len() implies (
    #[trigger] longer.flatten()[k]).stroke < n by {
        if k < all.len() {
            assert(longer.flatten()[k] == all[k]);
        } else {
            assert(longer.flatten()[k] == path[k - all.len()]);
        }
    }
    assert forall|a: int| 0 <= a < longer.len() implies (#[trigger] longer[a]).len() > 0
        && chained(ends, tolerance, longer[a]) by {
        if a < plan.len() {
            assert(longer[a] == plan[a]);
        }
    }
    assert forall|a: int, b: int, k: int|
        0 <= a < b < longer.len() && 0 <= k < longer[b].len() implies {
        &&& loose(
            ends,
            tolerance,
            path_start(ends, longer[a]),
            (#[trigger] longer[b][k]).stroke as int,
        )
        &&& loose(ends, tolerance, path_end(ends, #[trigger] longer[a]), longer[b][k].stroke as int)
    } by {
        assert(longer[a] == plan[a]);
        if b < plan.len() {
            assert(longer[b] == plan[b]);
            assert(loose(ends, tolerance, path_end(ends, plan[a]), plan[b][k].stroke as int));
        } else {
            assert(longer[b][k] == path[k]);
            assert(!used0[path[k].stroke as int]);
        }
    }
    assert forall|a: int, j: int|
        0 <= a < longer.len() && 0 <= j < n && !#[trigger] used3[j] implies {
        &&& loose(ends, tolerance, path_start(ends, #[trigger] longer[a]), j)
        &&& loose(ends, tolerance, path_end(ends, longer[a]), j)
    } by {
        assert(used3[j] <==> used2[j] || has_stroke(backward, j));
        assert(used2[j] <==> used1[j] || has_stroke(forward, j));
        assert(!used2[j]);
        assert(!used0[j]);
        if a < plan.len() {
            assert(longer[a] == plan[a]);
        } else {
            assert(longer[a] == path);
        }
    }
    assert forall|j: int| 0 <= j < n && !used3[j] implies !used0[j] by {
        assert(used3[j] <==> used2[j] || has_stroke(backward, j));
        assert(used2[j] <==> used1[j] || has_stroke(forward, j));
    }
    assert forall|a: int| 0 <= a < longer.len() implies #[trigger] has_seed_so_far(
        longer,
        used3,
        a,
    ) by {
        if a < plan.len() {
            assert(has_seed_so_far(plan, used0, a));
            let m = choose|m: int| #[trigger] seed_so_far(plan, used0, a, m);
            assert(longer[a] == plan[a]);
            assert forall|b: int, k: int|
                a < b < longer.len() && 0 <= k < longer[b].len() implies longer[a][m].stroke < (
            #[trigger] longer[b][k]).stroke by {
                if b < plan.len() {
                    assert(longer[b] == plan[b]);
                    assert(plan[a][m].stroke < plan[b][k].stroke);
                } else {
                    assert(longer[b][k] == path[k]);
                    assert(!used0[path[k].stroke as int]);
                }
            }
            assert(seed_so_far(longer, used3, a, m));
        } else {
            let m = backward.len() as int;
            assert(longer[a] == path);
            assert(path[m] == PathStep { stroke: seed as usize, reversed: false });
            assert forall|k: int| 0 <= k < path.len() && k != m implies path[m].stroke < (
            #[trigger] path[k]).stroke by {
                assert(!used0[path[k].stroke as int]);
                assert(path[k].stroke != path[m].stroke);
            }
            assert(seed_so_far(longer, used3, a, m));
        }
    }
}

/// When every stroke is taken, the paths made are the strokes unscrambled.
pub proof fn lemma_progress_done(
    ends: Seq<(XY, XY)>,
    tolerance: int,
    used: Seq<bool>,
    plan: Seq<Seq<PathStep>>,
)
    requires
        progress(ends, tolerance, used, plan),
        forall|j: int| 0 <= j < used.len() ==> used[j],
    ensures
        unscrambled(ends, tolerance, plan),
{
    lemma_count_set_full(used, used.len() as int);
    assert forall|j: int| 0 <= j < ends.len() implies has_stroke(plan.flatten(), j) by {
        assert(used[j]);
    }
    assert forall|a: int| 0 <= a < plan.len() implies #[trigger] has_seed(plan, a) by {
        assert(has_seed_so_far(plan, used, a));
        let m = choose|m: int| #[trigger] seed_so_far(plan, used, a, m);
        assert(is_seed(plan, a, m));
    }
}

} // verus!
