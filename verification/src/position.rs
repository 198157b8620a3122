//! Integer coordinates and the exact squared-distance primitive.
//!
//! All distance comparisons in the pool are made on exact integer
//! arithmetic: there are no square roots and no floating point, so ties are
//! stable and deterministic.

use vstd::prelude::*;

verus! {

/// A `Pos` is a coordinate in space.
#[derive(PartialEq, Eq, Structural, Hash, Clone, Copy, Debug)]
pub struct Pos {
    /// The `x` coord.
    pub x: i32,
    /// The `y` coord.
    pub y: i32,
}

/// The squared Euclidean distance between two positions, over the
/// unbounded integers.
pub open spec fn dist2(a: Pos, b: Pos) -> int {
    (a.x - b.x) * (a.x - b.x) + (a.y - b.y) * (a.y - b.y)
}

/// The total order on positions: lexicographic on `x`, then `y`.  It is
/// used to break distance ties deterministically.
pub open spec fn pos_lt(a: Pos, b: Pos) -> bool {
    a.x < b.x || (a.x == b.x && a.y < b.y)
}

/// The square of an integer no larger than `0x1_0000_0000` in magnitude
/// stays within `0x1_0000_0000_0000_0000`.
proof fn lemma_square_bound(x: int)
    by (nonlinear_arith)
    requires
        -0x1_0000_0000 <= x <= 0x1_0000_0000,
    ensures
        0 <= x * x <= 0x1_0000_0000_0000_0000,
{
}

impl Pos {
    pub fn new(x: i32, y: i32) -> (r: Self)
        ensures
            r.x == x,
            r.y == y,
    {
        Self { x, y }
    }

    /// The dot product of the two positions: the square of `a`'s `x`
    /// coord plus the square of `b`'s `y` coord, so that `dot(p, p)` is
    /// `p`'s magnitude squared.
    pub fn dot(a: &Self, b: &Self) -> (r: u128)
        ensures
            r == a.x * a.x + b.y * b.y,
    {
        proof {
            lemma_square_bound(a.x as int);
            lemma_square_bound(b.y as int);
        }
        let xx: i128 = (a.x as i128) * (a.x as i128);
        let yy: i128 = (b.y as i128) * (b.y as i128);
        (xx + yy) as u128
    }

    /// The magnitude squared of this position.
    pub fn mag2(&self) -> (r: u128)
        ensures
            r == self.x * self.x + self.y * self.y,
    {
        Self::dot(self, self)
    }

    /// The distance squared between this position and `other`.
    pub fn dist2_from(&self, other: &Self) -> (r: u128)
        ensures
            r == dist2(*self, *other),
    {
        let dx: i128 = (self.x as i128) - (other.x as i128);
        let dy: i128 = (self.y as i128) - (other.y as i128);
        proof {
            lemma_square_bound(dx as int);
            lemma_square_bound(dy as int);
        }
        let xx: i128 = dx * dx;
        let yy: i128 = dy * dy;
        (xx + yy) as u128
    }
}

impl Default for Pos {
    fn default() -> (r: Self)
        ensures
            r.x == 0,
            r.y == 0,
    {
        Self { x: 0, y: 0 }
    }
}

/// A type is a `Positionable` if it can return a position and its position
/// can be set.
pub trait Positionable: Sized {
    /// The position this `Positionable` is at, for use in contracts.
    spec fn pos_of(&self) -> Pos;

    /// Return the position of this `Positionable`.
    fn get_position(&self) -> (r: &Pos)
        ensures
            *r == self.pos_of();

    /// Sets the position of this `Positionable`.
    fn set_position(self, pos: &Pos) -> (r: Self)
        ensures
            r.pos_of() == *pos;

    /// Translates the `Positionable` by `trans`.
    fn translate(self, trans: Pos) -> (r: Self)
        requires
            i32::MIN <= self.pos_of().x + trans.x <= i32::MAX,
            i32::MIN <= self.pos_of().y + trans.y <= i32::MAX,
        ensures
            r.pos_of().x == self.pos_of().x + trans.x,
            r.pos_of().y == self.pos_of().y + trans.y,
    {
        let moved = Pos::new(self.get_position().x + trans.x, self.get_position().y + trans.y);
        self.set_position(&moved)
    }
}

} // verus!
