use vstd::prelude::*;
use crate::geometry::types::XY;

verus! {

/// Which of the two kinds a stroke is.
#[derive(Clone, Copy, Debug, PartialEq, Eq, Hash, Structural)]
pub enum StrokeType {
    Segment,
    Arc,
}

/// What every stroke has: two end points that can be read and replaced.
pub trait SegmentBehavior: Sized {
    /// The first end point.
    spec fn p1(&self) -> XY;

    /// The second end point.
    spec fn p2(&self) -> XY;

    /// The same stroke with `p` as its first end point.
    spec fn with_p1(&self, p: XY) -> Self;

    /// The same stroke with `p` as its second end point.
    spec fn with_p2(&self, p: XY) -> Self;

    fn get_p1(&self) -> (p: XY)
        ensures
            p == self.p1(),
    ;

    fn get_p2(&self) -> (p: XY)
        ensures
            p == self.p2(),
    ;

    fn set_p1(&mut self, p: XY)
        ensures
            *final(self) == old(self).with_p1(p),
            final(self).p1() == p,
            final(self).p2() == old(self).p2(),
    ;

    fn set_p2(&mut self, p: XY)
        ensures
            *final(self) == old(self).with_p2(p),
            final(self).p1() == old(self).p1(),
            final(self).p2() == p,
    ;
}

/// What an arc adds: a centre, and a flag that picks the longer of the two
/// arcs between the end points. Both are `None` on a stroke that is no arc,
/// and setting them on such a stroke changes nothing.
pub trait ArcBehavior: SegmentBehavior {
    spec fn center(&self) -> Option<XY>;

    spec fn major(&self) -> Option<bool>;

    /// The same stroke with `p` as its centre, if it has one.
    spec fn with_center(&self, p: XY) -> Self;

    /// The same stroke with the flag set, if it can carry one.
    spec fn with_major(&self, major: bool) -> Self;

    fn get_center(&self) -> (c: Option<XY>)
        ensures
            c == self.center(),
    ;

    fn get_major(&self) -> (m: Option<bool>)
        ensures
            m == self.major(),
    ;

    fn set_center(&mut self, p: XY)
        ensures
            *final(self) == old(self).with_center(p),
            final(self).p1() == old(self).p1(),
            final(self).p2() == old(self).p2(),
    ;

    fn set_major(&mut self, major: bool)
        ensures
            *final(self) == old(self).with_major(major),
            final(self).p1() == old(self).p1(),
            final(self).p2() == old(self).p2(),
    ;
}

/// A stroke of either kind, possibly carrying more than its geometry.
pub trait StrokeBehavior: SegmentBehavior + ArcBehavior {
    spec fn kind(&self) -> StrokeType;

    /// The bare geometry of the stroke.
    spec fn stroke(&self) -> Stroke;

    fn get_type(&self) -> (t: StrokeType)
        ensures
            t == self.kind(),
    ;

    fn get_stroke(&self) -> (s: Stroke)
        ensures
            s == self.stroke(),
    ;
}

/// A stroke that carries a payload which can be read and replaced.
pub trait AnnotatedStrokeBehavior<T> {
    spec fn data(&self) -> T;

    fn get_data(&self) -> (d: T)
        ensures
            d == self.data(),
    ;

    fn set_data(&mut self, data: T)
        ensures
            final(self).data() == data,
    ;
}

/// A straight stroke from `p1` to `p2`.
#[derive(Clone, Copy, Debug, PartialEq, Eq, Hash)]
pub struct Segment {
    pub p1: XY,
    pub p2: XY,
}

impl SegmentBehavior for Segment {
    open spec fn p1(&self) -> XY {
        self.p1
    }

    open spec fn p2(&self) -> XY {
        self.p2
    }

    open spec fn with_p1(&self, p: XY) -> Self {
        Segment { p1: p, p2: self.p2 }
    }

    open spec fn with_p2(&self, p: XY) -> Self {
        Segment { p1: self.p1, p2: p }
    }

    fn get_p1(&self) -> (p: XY) {
        self.p1
    }

    fn get_p2(&self) -> (p: XY) {
        self.p2
    }

    fn set_p1(&mut self, p: XY) {
        self.p1 = p;
    }

    fn set_p2(&mut self, p: XY) {
        self.p2 = p;
    }
}

/// A circular stroke from `p1` to `p2` around `center`.
#[derive(Clone, Copy, Debug, PartialEq, Eq, Hash)]
pub struct Arc {
    pub p1: XY,
    pub p2: XY,
    pub center: XY,
    pub major: Option<bool>,
}

impl SegmentBehavior for Arc {
    open spec fn p1(&self) -> XY {
        self.p1
    }

    open spec fn p2(&self) -> XY {
        self.p2
    }

    open spec fn with_p1(&self, p: XY) -> Self {
        Arc { p1: p, p2: self.p2, center: self.center, major: self.major }
    }

    open spec fn with_p2(&self, p: XY) -> Self {
        Arc { p1: self.p1, p2: p, center: self.center, major: self.major }
    }

    fn get_p1(&self) -> (p: XY) {
        self.p1
    }

    fn get_p2(&self) -> (p: XY) {
        self.p2
    }

    fn set_p1(&mut self, p: XY) {
        self.p1 = p;
    }

    fn set_p2(&mut self, p: XY) {
        self.p2 = p;
    }
}

impl ArcBehavior for Arc {
    open spec fn center(&self) -> Option<XY> {
        Some(self.center)
    }

    open spec fn major(&self) -> Option<bool> {
        self.major
    }

    open spec fn with_center(&self, p: XY) -> Self {
        Arc { p1: self.p1, p2: self.p2, center: p, major: self.major }
    }

    open spec fn with_major(&self, major: bool) -> Self {
        Arc { p1: self.p1, p2: self.p2, center: self.center, major: Some(major) }
    }

    fn get_center(&self) -> (c: Option<XY>) {
        Some(self.center)
    }

    fn get_major(&self) -> (m: Option<bool>) {
        self.major
    }

    fn set_center(&mut self, p: XY) {
        self.center = p;
    }

    fn set_major(&mut self, major: bool) {
        self.major = Some(major);
    }
}

/// A segment or an arc.
#[derive(Clone, Copy, Debug, PartialEq, Eq, Hash)]
pub enum Stroke {
    Segment(Segment),
    Arc(Arc),
}

impl SegmentBehavior for Stroke {
    open spec fn p1(&self) -> XY {
        match self {
            Stroke::Segment(segment) => segment.p1,
            Stroke::Arc(arc) => arc.p1,
        }
    }

    open spec fn p2(&self) -> XY {
        match self {
            Stroke::Segment(segment) => segment.p2,
            Stroke::Arc(arc) => arc.p2,
        }
    }

    open spec fn with_p1(&self, p: XY) -> Self {
        match self {
            Stroke::Segment(segment) => Stroke::Segment(segment.with_p1(p)),
            Stroke::Arc(arc) => Stroke::Arc(arc.with_p1(p)),
        }
    }

    open spec fn with_p2(&self, p: XY) -> Self {
        match self {
            Stroke::Segment(segment) => Stroke::Segment(segment.with_p2(p)),
            Stroke::Arc(arc) => Stroke::Arc(arc.with_p2(p)),
        }
    }

    fn get_p1(&self) -> (p: XY) {
        match self {
            Stroke::Segment(segment) => segment.get_p1(),
            Stroke::Arc(arc) => arc.get_p1(),
        }
    }

    fn get_p2(&self) -> (p: XY) {
        match self {
            Stroke::Segment(segment) => segment.get_p2(),
            Stroke::Arc(arc) => arc.get_p2(),
        }
    }

    fn set_p1(&mut self, p: XY) {
        match self {
            Stroke::Segment(segment) => segment.set_p1(p),
            Stroke::Arc(arc) => arc.set_p1(p),
        }
    }

    fn set_p2(&mut self, p: XY) {
        match self {
            Stroke::Segment(segment) => segment.set_p2(p),
            Stroke::Arc(arc) => arc.set_p2(p),
        }
    }
}

impl ArcBehavior for Stroke {
    open spec fn center(&self) -> Option<XY> {
        match self {
            Stroke::Segment(_) => None,
            Stroke::Arc(arc) => Some(arc.center),
        }
    }

    open spec fn major(&self) -> Option<bool> {
        match self {
            Stroke::Segment(_) => None,
            Stroke::Arc(arc) => arc.major,
        }
    }

    open spec fn with_center(&self, p: XY) -> Self {
        match self {
            Stroke::Segment(_) => *self,
            Stroke::Arc(arc) => Stroke::Arc(arc.with_center(p)),
        }
    }

    open spec fn with_major(&self, major: bool) -> Self {
        match self {
            Stroke::Segment(_) => *self,
            Stroke::Arc(arc) => Stroke::Arc(arc.with_major(major)),
        }
    }

    fn get_center(&self) -> (c: Option<XY>) {
        match self {
            Stroke::Segment(_) => None,
            Stroke::Arc(arc) => arc.get_center(),
        }
    }

    fn get_major(&self) -> (m: Option<bool>) {
        match self {
            Stroke::Segment(_) => None,
            Stroke::Arc(arc) => arc.get_major(),
        }
    }

    fn set_center(&mut self, p: XY) {
        match self {
            Stroke::Segment(_) => {},
            Stroke::Arc(arc) => arc.set_center(p),
        }
    }

    fn set_major(&mut self, major: bool) {
        match self {
            Stroke::Segment(_) => {},
            Stroke::Arc(arc) => arc.set_major(major),
        }
    }
}

impl StrokeBehavior for Stroke {
    open spec fn kind(&self) -> StrokeType {
        match self {
            Stroke::Segment(_) => StrokeType::Segment,
            Stroke::Arc(_) => StrokeType::Arc,
        }
    }

    open spec fn stroke(&self) -> Stroke {
        *self
    }

    fn get_type(&self) -> (t: StrokeType) {
        match self {
            Stroke::Segment(_) => StrokeType::Segment,
            Stroke::Arc(_) => StrokeType::Arc,
        }
    }

    fn get_stroke(&self) -> (s: Stroke) {
        *self
    }
}

/// A stroke together with a payload of the caller's choosing.
#[derive(Copy, Debug, PartialEq, Eq, Hash)]
pub struct AnnotatedStroke<T> {
    pub stroke: Stroke,
    pub data: T,
}

impl<T: Clone> Clone for AnnotatedStroke<T> {
    fn clone(&self) -> (r: Self)
        ensures
            r.stroke == self.stroke,
            cloned(self.data, r.data),
    {
        AnnotatedStroke { stroke: self.stroke, data: self.data.clone() }
    }
}

impl<T> SegmentBehavior for AnnotatedStroke<T> {
    open spec fn p1(&self) -> XY {
        self.stroke.p1()
    }

    open spec fn p2(&self) -> XY {
        self.stroke.p2()
    }

    open spec fn with_p1(&self, p: XY) -> Self {
        AnnotatedStroke { stroke: self.stroke.with_p1(p), data: self.data }
    }

    open spec fn with_p2(&self, p: XY) -> Self {
        AnnotatedStroke { stroke: self.stroke.with_p2(p), data: self.data }
    }

    fn get_p1(&self) -> (p: XY) {
        self.stroke.get_p1()
    }

    fn get_p2(&self) -> (p: XY) {
        self.stroke.get_p2()
    }

    fn set_p1(&mut self, p: XY) {
        self.stroke.set_p1(p);
    }

    fn set_p2(&mut self, p: XY) {
        self.stroke.set_p2(p);
    }
}

impl<T> ArcBehavior for AnnotatedStroke<T> {
    open spec fn center(&self) -> Option<XY> {
        self.stroke.center()
    }

    open spec fn major(&self) -> Option<bool> {
        self.stroke.major()
    }

    open spec fn with_center(&self, p: XY) -> Self {
        AnnotatedStroke { stroke: self.stroke.with_center(p), data: self.data }
    }

    open spec fn with_major(&self, major: bool) -> Self {
        AnnotatedStroke { stroke: self.stroke.with_major(major), data: self.data }
    }

    fn get_center(&self) -> (c: Option<XY>) {
        self.stroke.get_center()
    }

    fn get_major(&self) -> (m: Option<bool>) {
        self.stroke.get_major()
    }

    fn set_center(&mut self, p: XY) {
        self.stroke.set_center(p);
    }

    fn set_major(&mut self, major: bool) {
        self.stroke.set_major(major);
    }
}

impl<T> StrokeBehavior for AnnotatedStroke<T> {
    open spec fn kind(&self) -> StrokeType {
        self.stroke.kind()
    }

    open spec fn stroke(&self) -> Stroke {
        self.stroke
    }

    fn get_type(&self) -> (t: StrokeType) {
        self.stroke.get_type()
    }

    fn get_stroke(&self) -> (s: Stroke) {
        self.stroke
    }
}

impl<T: Copy> AnnotatedStrokeBehavior<T> for AnnotatedStroke<T> {
    open spec fn data(&self) -> T {
        self.data
    }

    fn get_data(&self) -> (d: T) {
        self.data
    }

    fn set_data(&mut self, data: T) {
        self.data = data;
    }
}

} // verus!
