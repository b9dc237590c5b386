//! Two-dimensional integer vectors, used both as grid coordinates and as the
//! four unit directions.

use std::ops::{Add, Sub};
use vstd::prelude::*;
use vstd::std_specs::ops::{AddSpecImpl, SubSpecImpl};

verus! {

/// A point or a displacement on the integer plane.
#[derive(Debug, Copy, Clone, PartialEq, Eq, Structural)]
pub struct Vec2i {
    pub x: i32,
    pub y: i32,
}

/// The unit step towards the row above.
#[verifier::allow_in_spec]
pub fn up() -> Vec2i
    returns
        (Vec2i { x: 0, y: -1i32 }),
{
    Vec2i { x: 0, y: -1 }
}

/// The unit step towards the next column.
#[verifier::allow_in_spec]
pub fn right() -> Vec2i
    returns
        (Vec2i { x: 1, y: 0 }),
{
    Vec2i { x: 1, y: 0 }
}

/// The unit step towards the row below.
#[verifier::allow_in_spec]
pub fn down() -> Vec2i
    returns
        (Vec2i { x: 0, y: 1 }),
{
    Vec2i { x: 0, y: 1 }
}

/// The unit step towards the previous column.
#[verifier::allow_in_spec]
pub fn left() -> Vec2i
    returns
        (Vec2i { x: -1i32, y: 0 }),
{
    Vec2i { x: -1, y: 0 }
}

/// Whether `d` is one of the four unit directions.
pub open spec fn is_cardinal(d: Vec2i) -> bool {
    d == up() || d == right() || d == down() || d == left()
}

impl Vec2i {
    /// The vector with the given components.
    pub fn new(x: i32, y: i32) -> (v: Self)
        ensures
            v.x == x,
            v.y == y,
    {
        Self { x, y }
    }

    /// The componentwise sum.
    pub open spec fn plus(self, other: Vec2i) -> Vec2i {
        Vec2i { x: (self.x + other.x) as i32, y: (self.y + other.y) as i32 }
    }

    /// The componentwise difference.
    pub open spec fn minus(self, other: Vec2i) -> Vec2i {
        Vec2i { x: (self.x - other.x) as i32, y: (self.y - other.y) as i32 }
    }

    /// The vector pointing the opposite way.
    pub open spec fn inverse(self) -> Vec2i {
        Vec2i { x: (-self.x) as i32, y: (-self.y) as i32 }
    }

    /// The vector pointing the opposite way. Neither component may be
    /// `i32::MIN`, whose negation does not fit.
    pub fn inv(self) -> (v: Self)
        requires
            self.x != i32::MIN,
            self.y != i32::MIN,
        ensures
            v.x == -self.x,
            v.y == -self.y,
            v == self.inverse(),
    {
        Self { x: -self.x, y: -self.y }
    }
}

impl AddSpecImpl for Vec2i {
    open spec fn obeys_add_spec() -> bool {
        true
    }

    open spec fn add_req(self, other: Vec2i) -> bool {
        &&& i32::MIN <= self.x + other.x <= i32::MAX
        &&& i32::MIN <= self.y + other.y <= i32::MAX
    }

    open spec fn add_spec(self, other: Vec2i) -> Vec2i {
        self.plus(other)
    }
}

impl Add for Vec2i {
    type Output = Self;

    fn add(self, other: Self) -> (sum: Self) {
        Self { x: self.x + other.x, y: self.y + other.y }
    }
}

impl SubSpecImpl for Vec2i {
    open spec fn obeys_sub_spec() -> bool {
        true
    }

    open spec fn sub_req(self, other: Vec2i) -> bool {
        &&& i32::MIN <= self.x - other.x <= i32::MAX
        &&& i32::MIN <= self.y - other.y <= i32::MAX
    }

    open spec fn sub_spec(self, other: Vec2i) -> Vec2i {
        self.minus(other)
    }
}

impl Sub for Vec2i {
    type Output = Self;

    fn sub(self, other: Self) -> (diff: Self) {
        Self { x: self.x - other.x, y: self.y - other.y }
    }
}

/// Inverting a unit direction gives the opposite unit direction, and inverting
/// twice gives the direction back.
pub proof fn lemma_cardinal_inverse(d: Vec2i)
    requires
        is_cardinal(d),
    ensures
        is_cardinal(d.inverse()),
        d.inverse().inverse() == d,
        up().inverse() == down(),
        down().inverse() == up(),
        left().inverse() == right(),
        right().inverse() == left(),
{
}

} // verus!
