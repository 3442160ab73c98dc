//! Geometry primitives: the six axis directions and integer 3D vectors.

use vstd::prelude::*;

verus! {

/// One of the six axis-aligned unit directions. The declaration order
/// (Right, Left, Up, Down, Forward, Backward) is the canonical total order
/// used both by the solver's try-order and by callers that walk all
/// directions.
#[derive(Clone, Copy, PartialEq, Eq, Structural, Debug)]
pub enum Dir {
    Right,
    Left,
    Up,
    Down,
    Forward,
    Backward,
}

/// Position of a direction in the canonical order.
pub open spec fn dir_idx(d: Dir) -> int {
    match d {
        Dir::Right => 0,
        Dir::Left => 1,
        Dir::Up => 2,
        Dir::Down => 3,
        Dir::Forward => 4,
        Dir::Backward => 5,
    }
}

/// The direction pointing the opposite way.
pub open spec fn dir_invert(d: Dir) -> Dir {
    match d {
        Dir::Right => Dir::Left,
        Dir::Left => Dir::Right,
        Dir::Up => Dir::Down,
        Dir::Down => Dir::Up,
        Dir::Forward => Dir::Backward,
        Dir::Backward => Dir::Forward,
    }
}

/// Successor in the canonical order, or None for the order's maximum.
pub open spec fn dir_next(d: Dir) -> Option<Dir> {
    match d {
        Dir::Right => Some(Dir::Left),
        Dir::Left => Some(Dir::Up),
        Dir::Up => Some(Dir::Down),
        Dir::Down => Some(Dir::Forward),
        Dir::Forward => Some(Dir::Backward),
        Dir::Backward => None,
    }
}

/// Unit displacement of a direction, as an integer coordinate triple.
pub open spec fn dir_delta(d: Dir) -> (int, int, int) {
    match d {
        Dir::Right => (1int, 0int, 0int),
        Dir::Left => (-1int, 0int, 0int),
        Dir::Up => (0int, 1int, 0int),
        Dir::Down => (0int, -1int, 0int),
        Dir::Forward => (0int, 0int, -1int),
        Dir::Backward => (0int, 0int, 1int),
    }
}

/// The four directions perpendicular to `d`, in canonical order.
pub open spec fn perpendiculars(d: Dir) -> Seq<Dir> {
    match d {
        Dir::Right => seq![Dir::Up, Dir::Down, Dir::Forward, Dir::Backward],
        Dir::Left => seq![Dir::Up, Dir::Down, Dir::Forward, Dir::Backward],
        Dir::Up => seq![Dir::Right, Dir::Left, Dir::Forward, Dir::Backward],
        Dir::Down => seq![Dir::Right, Dir::Left, Dir::Forward, Dir::Backward],
        Dir::Forward => seq![Dir::Right, Dir::Left, Dir::Up, Dir::Down],
        Dir::Backward => seq![Dir::Right, Dir::Left, Dir::Up, Dir::Down],
    }
}

impl Dir {
    /// The four directions that turn off this direction's axis: every
    /// direction other than `self` and its inverse, in canonical order.
    pub fn get_possible_turns(&self) -> (turns: [Dir; 4])
        ensures
            turns@ == perpendiculars(*self),
    {
        match self {
            Dir::Right => [Dir::Up, Dir::Down, Dir::Forward, Dir::Backward],
            Dir::Left => [Dir::Up, Dir::Down, Dir::Forward, Dir::Backward],
            Dir::Up => [Dir::Right, Dir::Left, Dir::Forward, Dir::Backward],
            Dir::Down => [Dir::Right, Dir::Left, Dir::Forward, Dir::Backward],
            Dir::Forward => [Dir::Right, Dir::Left, Dir::Up, Dir::Down],
            Dir::Backward => [Dir::Right, Dir::Left, Dir::Up, Dir::Down],
        }
    }

    /// The canonical order's minimum.
    pub fn first() -> (d: Dir)
        ensures
            d == Dir::Right,
            dir_idx(d) == 0,
    {
        Dir::Right
    }

    /// The direction pointing the opposite way; applying it twice gives
    /// back the original direction.
    pub fn invert(&self) -> (r: Dir)
        ensures
            r == dir_invert(*self),
            dir_invert(r) == *self,
    {
        match self {
            Dir::Right => Dir::Left,
            Dir::Left => Dir::Right,
            Dir::Up => Dir::Down,
            Dir::Down => Dir::Up,
            Dir::Forward => Dir::Backward,
            Dir::Backward => Dir::Forward,
        }
    }

    /// Successor in the canonical order; None signals exhaustion.
    pub fn get_next(&self) -> (r: Option<Dir>)
        ensures
            r == dir_next(*self),
    {
        match self {
            Dir::Right => Some(Dir::Left),
            Dir::Left => Some(Dir::Up),
            Dir::Up => Some(Dir::Down),
            Dir::Down => Some(Dir::Forward),
            Dir::Forward => Some(Dir::Backward),
            Dir::Backward => None,
        }
    }

    /// The unit displacement vector of this direction.
    pub fn to_vec3(&self) -> (r: Vec3)
        ensures
            r@ == dir_delta(*self),
    {
        match self {
            Dir::Right => Vec3 { x: 1, y: 0, z: 0 },
            Dir::Left => Vec3 { x: -1, y: 0, z: 0 },
            Dir::Up => Vec3 { x: 0, y: 1, z: 0 },
            Dir::Down => Vec3 { x: 0, y: -1, z: 0 },
            Dir::Forward => Vec3 { x: 0, y: 0, z: -1 },
            Dir::Backward => Vec3 { x: 0, y: 0, z: 1 },
        }
    }
}

/// A signed integer triple.
#[derive(Clone, Copy, PartialEq, Eq, Structural, Debug)]
pub struct Vec3 {
    pub x: i32,
    pub y: i32,
    pub z: i32,
}

impl View for Vec3 {
    type V = (int, int, int);

    open spec fn view(&self) -> (int, int, int) {
        (self.x as int, self.y as int, self.z as int)
    }
}

/// Component-wise sum of two coordinate triples.
pub open spec fn triple_add(a: (int, int, int), b: (int, int, int)) -> (int, int, int) {
    (a.0 + b.0, a.1 + b.1, a.2 + b.2)
}

impl Vec3 {
    /// Component-wise addition.
    pub fn add(self, rhs: Vec3) -> (r: Vec3)
        requires
            i32::MIN <= self@.0 + rhs@.0 <= i32::MAX,
            i32::MIN <= self@.1 + rhs@.1 <= i32::MAX,
            i32::MIN <= self@.2 + rhs@.2 <= i32::MAX,
        ensures
            r@ == triple_add(self@, rhs@),
    {
        Vec3 { x: self.x + rhs.x, y: self.y + rhs.y, z: self.z + rhs.z }
    }

    /// Multiplication by a scalar.
    pub fn mul(self, rhs: i32) -> (r: Vec3)
        requires
            i32::MIN <= self@.0 * rhs <= i32::MAX,
            i32::MIN <= self@.1 * rhs <= i32::MAX,
            i32::MIN <= self@.2 * rhs <= i32::MAX,
        ensures
            r@ == (self@.0 * rhs, self@.1 * rhs, self@.2 * rhs),
    {
        Vec3 { x: self.x * rhs, y: self.y * rhs, z: self.z * rhs }
    }
}

} // verus!
