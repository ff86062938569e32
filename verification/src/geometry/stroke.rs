use vstd::prelude::*;
use crate::geometry::stroke_types::{
    AnnotatedStroke, Arc, ArcBehavior, Segment, SegmentBehavior, Stroke, StrokeBehavior,
    StrokeType,
};

verus! {

/// The stroke run the other way: its end points change places and nothing
/// else changes.
pub open spec fn reversed<T: SegmentBehavior>(stroke: T) -> T {
    stroke.with_p1(stroke.p2()).with_p2(stroke.p1())
}

/// What reversing `stroke` may give, given that a clone of it is turned
/// round: the end points of the result are those of `stroke` in the other
/// order, and the rest is the clone's.
pub open spec fn reversal_of<T: SegmentBehavior + Clone>(stroke: T, result: T) -> bool {
    &&& result.p1() == stroke.p2()
    &&& result.p2() == stroke.p1()
    &&& exists|copy: T|
        #[trigger] cloned(stroke, copy) && result == copy.with_p1(stroke.p2()).with_p2(stroke.p1())
}

/// Reverses a segment.
pub fn reverse_segment<T: SegmentBehavior + Clone>(segment: &T) -> (r: T)
    ensures
        reversal_of(*segment, r),
{
    let mut reversed_segment = segment.clone();
    let ghost copy = reversed_segment;
    reversed_segment.set_p1(segment.get_p2());
    reversed_segment.set_p2(segment.get_p1());
    assert(cloned(*segment, copy));
    reversed_segment
}

/// Reverses an arc; the centre and the choice of the longer arc stay.
pub fn reverse_arc<T: ArcBehavior + Clone>(arc: &T) -> (r: T)
    ensures
        reversal_of(*arc, r),
{
    let mut reversed_arc = arc.clone();
    let ghost copy = reversed_arc;
    reversed_arc.set_p1(arc.get_p2());
    reversed_arc.set_p2(arc.get_p1());
    assert(cloned(*arc, copy));
    reversed_arc
}

/// Reverses a stroke of either kind.
pub fn reverse_stroke<T: StrokeBehavior + Clone>(stroke: &T) -> (r: T)
    ensures
        reversal_of(*stroke, r),
{
    match stroke.get_type() {
        StrokeType::Segment => reverse_segment(stroke),
        StrokeType::Arc => reverse_arc(stroke),
    }
}

/// The geometry of `stroke` with `data` attached to it.
pub fn stroke_with_new_data<T: StrokeBehavior, U>(stroke: T, data: U) -> (r: AnnotatedStroke<U>)
    ensures
        r.stroke == stroke.stroke(),
        r.data == data,
{
    let new_stroke = stroke.get_stroke();
    AnnotatedStroke { stroke: new_stroke, data }
}

/// For a stroke that is copied bit for bit, reversing gives exactly the
/// stroke run the other way.
pub proof fn lemma_reverse_stroke_exact(stroke: Stroke, result: Stroke)
    requires
        reversal_of(stroke, result),
    ensures
        result == reversed(stroke),
        result.center() == stroke.center(),
        result.major() == stroke.major(),
        result.kind() == stroke.kind(),
{
}

/// Reversing a segment twice gives the segment back.
pub proof fn lemma_reverse_segment_twice(segment: Segment, once: Segment, twice: Segment)
    requires
        reversal_of(segment, once),
        reversal_of(once, twice),
    ensures
        twice == segment,
{
}

/// Reversing an arc twice gives the arc back, centre and flag included.
pub proof fn lemma_reverse_arc_twice(arc: Arc, once: Arc, twice: Arc)
    requires
        reversal_of(arc, once),
        reversal_of(once, twice),
    ensures
        once.center == arc.center,
        once.major == arc.major,
        twice == arc,
{
}

/// Reversing a stroke twice gives the stroke back: the same kind, the same end
/// points in the same order, and for an arc the same centre and flag.
pub proof fn lemma_reverse_stroke_twice(stroke: Stroke, once: Stroke, twice: Stroke)
    requires
        reversal_of(stroke, once),
        reversal_of(once, twice),
    ensures
        once.kind() == stroke.kind(),
        once.center() == stroke.center(),
        once.major() == stroke.major(),
        twice == stroke,
{
}

/// Running a stroke the other way twice is running it as it was; the
/// payload of an annotated stroke is untouched.
pub proof fn lemma_reversed_twice<T>(stroke: AnnotatedStroke<T>)
    ensures
        reversed(reversed(stroke)) == stroke,
        reversed(stroke).data == stroke.data,
        reversed(stroke.stroke) == reversed(stroke).stroke,
        reversed(reversed(stroke.stroke)) == stroke.stroke,
{
}

} // verus!
