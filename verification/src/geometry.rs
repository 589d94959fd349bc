//! Points and circles on the playing field.
//!
//! Every length is a whole number of units, [`UNITS_PER_PIXEL`] of them to
//! one pixel, so that distances compare exactly.

use vstd::prelude::*;
use crate::arith::sq;

verus! {

/// How many length units make one pixel.
pub const UNITS_PER_PIXEL: i64 = 1_000_000;

/// Width of the playing field, in units.
pub const WIN_WIDTH: i64 = 1_000_000_000;

/// Height of the playing field, in units.
pub const WIN_HEIGHT: i64 = 600_000_000;

/// A place on the playing field, in units; `y` grows downwards.
#[derive(Clone, Copy, Debug, PartialEq, Eq, Structural)]
pub struct Point {
    pub x: i64,
    pub y: i64,
}

/// A disc used for hit tests only.
#[derive(Clone, Copy, Debug, PartialEq, Eq, Structural)]
pub struct Circle {
    pub x: i64,
    pub y: i64,
    pub radius: u64,
}

/// The squared distance between the centres of two circles.
pub open spec fn center_dist_sq(a: Circle, b: Circle) -> int {
    sq(a.x - b.x) + sq(a.y - b.y)
}

/// Two circles overlap when their centres are strictly closer than the sum
/// of their radii. Distances are compared by their squares, which orders
/// them the same way because neither side is negative.
pub open spec fn overlaps(a: Circle, b: Circle) -> bool {
    center_dist_sq(a, b) < sq(a.radius + b.radius)
}

/// The distance between two coordinates.
fn gap(a: i64, b: i64) -> (d: u128)
    ensures
        d == if a >= b { a - b } else { b - a },
        d * d == sq(a - b),
{
    let wide_a: i128 = a as i128;
    let wide_b: i128 = b as i128;
    let d: i128 = if wide_a >= wide_b { wide_a - wide_b } else { wide_b - wide_a };
    assert(d * d == sq(a - b)) by (nonlinear_arith)
        requires
            d == a - b || d == b - a,
    ;
    d as u128
}

impl Circle {
    /// A circle of the given radius around `(x, y)`.
    pub fn new(x: i64, y: i64, radius: u64) -> (c: Circle)
        ensures
            c == (Circle { x, y, radius }),
    {
        Circle { x, y, radius }
    }

    /// Whether this circle and `other` overlap. Circles that only touch do
    /// not.
    pub fn is_colliding(&self, other: &Circle) -> (hit: bool)
        ensures
            hit == overlaps(*self, *other),
    {
        let dx: u128 = gap(self.x, other.x);
        let dy: u128 = gap(self.y, other.y);
        let reach: u128 = self.radius as u128 + other.radius as u128;
        if dx >= reach {
            proof {
                lemma_far_apart(dx as int, dy as int, reach as int);
            }
            return false;
        }
        // dx² + dy² < reach²  exactly when  dy² < (reach - dx)(reach + dx)
        let low: u128 = reach - dx;
        let high: u128 = reach + dx;
        assert(dy * dy <= 0xffff_ffff_ffff_ffff * 0xffff_ffff_ffff_ffff) by (nonlinear_arith)
            requires
                0 <= dy <= 0xffff_ffff_ffff_ffff,
        ;
        let dy_sq: u128 = dy * dy;
        proof {
            lemma_difference_of_squares(dx as int, dy as int, reach as int);
        }
        match low.checked_mul(high) {
            Some(room) => dy_sq < room,
            None => true,
        }
    }
}

/// Centres at least `reach` apart along one axis are at least `reach` apart.
proof fn lemma_far_apart(dx: int, dy: int, reach: int)
    requires
        0 <= reach <= dx,
    ensures
        !(dx * dx + dy * dy < reach * reach),
{
    assert(reach * reach <= dx * dx) by (nonlinear_arith)
        requires
            0 <= reach <= dx,
    ;
    assert(dy * dy >= 0) by (nonlinear_arith);
}

/// `dx² + dy² < reach²` says the same as `dy² < (reach - dx)(reach + dx)`.
proof fn lemma_difference_of_squares(dx: int, dy: int, reach: int)
    ensures
        (dx * dx + dy * dy < reach * reach) == (dy * dy < (reach - dx) * (reach + dx)),
{
    assert((reach - dx) * (reach + dx) == reach * reach - dx * dx) by (nonlinear_arith);
}

/// Overlap does not depend on which circle is asked.
pub proof fn lemma_overlaps_symmetric(a: Circle, b: Circle)
    ensures
        overlaps(a, b) == overlaps(b, a),
{
    assert(sq(a.x - b.x) == sq(b.x - a.x)) by (nonlinear_arith);
    assert(sq(a.y - b.y) == sq(b.y - a.y)) by (nonlinear_arith);
    assert(a.radius + b.radius == b.radius + a.radius);
}

/// Circles whose centres are exactly the sum of their radii apart only
/// touch: they do not overlap.
pub proof fn lemma_touching_is_not_overlapping(a: Circle, b: Circle)
    requires
        center_dist_sq(a, b) == sq(a.radius + b.radius),
    ensures
        !overlaps(a, b),
{
}

} // verus!
