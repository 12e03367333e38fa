//! Points of the plane and the order in which the sweep visits them.

use std::cmp::Ordering;
use vstd::prelude::*;

verus! {

/// The bit that holds the sign of a double.
pub const SIGN_BIT: u64 = 0x8000_0000_0000_0000;

/// Where a bit pattern stands among all doubles: patterns with the sign
/// bit clear count upwards from zero, patterns with the sign bit set count
/// downwards from minus one, so that a smaller rank is a smaller number and
/// two patterns have the same rank only if they are the same pattern.
///
/// Minus zero is a pattern of its own and ranks just below zero. The
/// patterns that are no numbers rank beyond the infinities: above plus
/// infinity with the sign bit clear, below minus infinity with it set. A
/// caller for whom minus zero is zero, or for whom nothing compares with
/// such a pattern, brings its coordinates into one form before it hands
/// them over.
pub open spec fn rank(bits: u64) -> int {
    if bits < SIGN_BIT {
        bits as int
    } else {
        SIGN_BIT - 1 - bits
    }
}

/// An unsigned key with the order of `rank`.
pub open spec fn sort_key(bits: u64) -> u64 {
    if bits < SIGN_BIT {
        (bits + SIGN_BIT) as u64
    } else {
        (u64::MAX - bits) as u64
    }
}

/// Computes the key by which two coordinates are compared.
pub fn coord_key(bits: u64) -> (key: u64)
    ensures
        key == sort_key(bits),
        key as int == rank(bits) + SIGN_BIT,
{
    if bits < SIGN_BIT {
        bits + SIGN_BIT
    } else {
        u64::MAX - bits
    }
}

/// Is the first coordinate strictly below the second?
pub fn coord_lt(a: u64, b: u64) -> (r: bool)
    ensures
        r == (rank(a) < rank(b)),
{
    coord_key(a) < coord_key(b)
}

/// A point in two dimensions.
#[derive(Clone, Copy, PartialEq, Eq, Debug, Structural)]
pub struct Point {
    /// x coordinate
    pub x: u64,
    /// y coordinate
    pub y: u64,
}

/// The sweep order: `p` comes after `q` when it lies lower, or at the same
/// height and further right.
pub open spec fn point_lt(p: Point, q: Point) -> bool {
    rank(p.y) < rank(q.y) || (p.y == q.y && rank(p.x) > rank(q.x))
}

impl Point {
    /// Constructs a new `Point`.
    pub fn new(x: u64, y: u64) -> (p: Point)
        ensures
            p == (Point { x, y }),
    {
        Point { x, y }
    }

    /// Getter for the x coordinate.
    pub fn x(&self) -> (x: u64)
        ensures
            x == self.x,
    {
        self.x
    }

    /// Getter for the y coordinate.
    pub fn y(&self) -> (y: u64)
        ensures
            y == self.y,
    {
        self.y
    }

    /// Is `self` strictly before `other` in the sweep order?
    pub fn before(&self, other: &Point) -> (r: bool)
        ensures
            r == point_lt(*self, *other),
    {
        coord_lt(self.y, other.y) || (self.y == other.y && coord_lt(other.x, self.x))
    }

    /// Compares two points in the sweep order.
    pub fn cmp(&self, other: &Point) -> (o: Ordering)
        ensures
            o == Ordering::Less <==> point_lt(*self, *other),
            o == Ordering::Greater <==> point_lt(*other, *self),
            o == Ordering::Equal <==> *self == *other,
    {
        if self.before(other) {
            Ordering::Less
        } else if other.before(self) {
            Ordering::Greater
        } else {
            Ordering::Equal
        }
    }
}

impl PartialOrd for Point {
    fn partial_cmp(&self, other: &Point) -> (o: Option<Ordering>) {
        Some(self.cmp(other))
    }
}

impl vstd::std_specs::cmp::PartialOrdSpecImpl for Point {
    open spec fn obeys_partial_cmp_spec() -> bool {
        true
    }

    open spec fn partial_cmp_spec(&self, other: &Point) -> Option<Ordering> {
        if point_lt(*self, *other) {
            Some(Ordering::Less)
        } else if point_lt(*other, *self) {
            Some(Ordering::Greater)
        } else {
            Some(Ordering::Equal)
        }
    }
}

/// Two bit patterns of equal rank are the same pattern.
pub proof fn lemma_rank_injective(a: u64, b: u64)
    requires
        rank(a) == rank(b),
    ensures
        a == b,
{
}

/// The sweep order is irreflexive and transitive, and any two different
/// points are ordered one way or the other.
pub proof fn lemma_point_order_total(p: Point, q: Point, r: Point)
    ensures
        !point_lt(p, p),
        point_lt(p, q) && point_lt(q, r) ==> point_lt(p, r),
        point_lt(p, q) || point_lt(q, p) || p == q,
        !(point_lt(p, q) && point_lt(q, p)),
{
}

} // verus!
