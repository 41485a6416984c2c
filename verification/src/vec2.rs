//! A two-component grid coordinate with component-wise arithmetic.

use std::ops::{Add, Sub};
use vstd::prelude::*;
use vstd::std_specs::ops::{AddSpecImpl, SubSpecImpl};

verus! {

/// A grid coordinate: column `x` and row `y`.
#[derive(Clone, Copy, Debug, PartialEq, Eq, Structural)]
pub struct Vec2 {
    x: u8,
    y: u8,
}

impl Vec2 {
    /// The column as a mathematical integer.
    pub closed spec fn spec_x(self) -> int {
        self.x as int
    }

    /// The row as a mathematical integer.
    pub closed spec fn spec_y(self) -> int {
        self.y as int
    }

    /// The coordinate with the given components, taken modulo the `u8` range.
    pub closed spec fn spec_new(x: int, y: int) -> Vec2 {
        Vec2 { x: x as u8, y: y as u8 }
    }

    /// Builds the coordinate `(x, y)`.
    pub fn new(x: u8, y: u8) -> (v: Vec2)
        ensures
            v == Vec2::spec_new(x as int, y as int),
            v.spec_x() == x,
            v.spec_y() == y,
    {
        Vec2 { x, y }
    }

    /// The column.
    pub fn x(&self) -> (x: u8)
        ensures
            x == self.spec_x(),
    {
        self.x
    }

    /// The row.
    pub fn y(&self) -> (y: u8)
        ensures
            y == self.spec_y(),
    {
        self.y
    }
}

impl AddSpecImpl for Vec2 {
    open spec fn obeys_add_spec() -> bool {
        true
    }

    /// The sum is defined when neither component leaves the `u8` range.
    open spec fn add_req(self, other: Vec2) -> bool {
        self.spec_x() + other.spec_x() <= u8::MAX && self.spec_y() + other.spec_y() <= u8::MAX
    }

    open spec fn add_spec(self, other: Vec2) -> Vec2 {
        Vec2::spec_new(self.spec_x() + other.spec_x(), self.spec_y() + other.spec_y())
    }
}

impl Add for Vec2 {
    type Output = Vec2;

    /// Component-wise sum.
    fn add(self, other: Vec2) -> (sum: Vec2)
        ensures
            sum.spec_x() == self.spec_x() + other.spec_x(),
            sum.spec_y() == self.spec_y() + other.spec_y(),
    {
        Vec2 { x: self.x + other.x, y: self.y + other.y }
    }
}

impl SubSpecImpl for Vec2 {
    open spec fn obeys_sub_spec() -> bool {
        true
    }

    /// The difference is defined when neither component would go below zero.
    open spec fn sub_req(self, other: Vec2) -> bool {
        other.spec_x() <= self.spec_x() && other.spec_y() <= self.spec_y()
    }

    open spec fn sub_spec(self, other: Vec2) -> Vec2 {
        Vec2::spec_new(self.spec_x() - other.spec_x(), self.spec_y() - other.spec_y())
    }
}

impl Sub for Vec2 {
    type Output = Vec2;

    /// Component-wise difference.
    fn sub(self, other: Vec2) -> (diff: Vec2)
        ensures
            diff.spec_x() == self.spec_x() - other.spec_x(),
            diff.spec_y() == self.spec_y() - other.spec_y(),
    {
        Vec2 { x: self.x - other.x, y: self.y - other.y }
    }
}

} // verus!
