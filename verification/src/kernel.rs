//! The numeric kernel: every computation on coordinates that the sweep needs.
//!
//! The library never computes with a coordinate. It hands sites and points to
//! a kernel and acts on the answers, so that each of its guarantees holds for
//! whatever the kernel answers.

use crate::point::Point;
use vstd::prelude::*;

verus! {

/// A line segment, given by its two end points.
pub type Segment = [Point; 2];

/// The bounding rectangle `[0, max_x] x [0, max_y]`, given by `max_x` and
/// `max_y`.
pub type Bounds = (u64, u64);

/// The limits of a rectangle: its least x, its greatest x, its least y and
/// its greatest y.
pub type Limits = (u64, u64, u64, u64);

/// The computations on coordinates that the sweep leaves to its caller.
///
/// No method promises anything of its result: what the library proves, it
/// proves of every kernel, and where a contract of the library speaks of what
/// a kernel answered, it speaks of the answer that the call gave.
pub trait Kernel {
    /// The point where two segments cross, if they do.
    fn segment_intersection(&self, seg1: Segment, seg2: Segment) -> Option<Point>;

    /// The y coordinate at which the sweep line meets the far side of the
    /// circle through three sites, or nothing if they lie on one line.
    fn circle_bottom(&self, a: Point, b: Point, c: Point) -> Option<u64>;

    /// The centre of the circle through three sites, or nothing if they lie
    /// on one line.
    fn circle_center(&self, a: Point, b: Point, c: Point) -> Option<Point>;

    /// Do the breakpoints between the arcs of `a`, `b` and `c`, which follow
    /// each other left to right, run towards each other?
    fn breakpoints_converge(&self, a: Point, b: Point, c: Point) -> bool;

    /// The x coordinate of the breakpoint between the arc of `left` and the
    /// arc of `right` to its right, when the sweep line is at `directrix`.
    fn get_breakpoint_x(&self, left: Point, right: Point, directrix: u64) -> u64;

    /// The y coordinate of the breakpoint between the arc of `left` and the
    /// arc of `right` to its right, when the sweep line is at `directrix`.
    fn get_breakpoint_y(&self, left: Point, right: Point, directrix: u64) -> u64;

    /// Do the three points, in this order, make a left turn?
    fn makes_left_turn(&self, pt1: Point, pt2: Point, pt3: Point) -> bool;

    /// Two positions of the sweep line far beyond the bounding rectangle:
    /// the one at which the x coordinate of an unfinished breakpoint is
    /// taken, and the one at which its y coordinate is taken.
    fn far_directrix(&self, bounds: Bounds) -> (u64, u64);

    /// The limits of the bounding rectangle, each moved outwards by the
    /// length by which the four lines that cut the diagram reach past the
    /// rectangle's corners.
    fn outer_limits(&self, bounds: Bounds) -> Limits;

    /// The limits of the bounding rectangle, each moved outwards by the
    /// small margin within which a vertex still counts as inside.
    fn inner_limits(&self, bounds: Bounds) -> Limits;

    /// The centroid of a polygon's corners.
    fn polygon_centroid(&self, pts: &Vec<Point>) -> Point;
}

} // verus!
