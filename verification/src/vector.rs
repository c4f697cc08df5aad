//! Directions and distances in the plane.

use crate::float64::Float64;
use crate::geometry::Point;
use vstd::prelude::*;

verus! {

/// The bit pattern of 1.0.
pub const UNIT: u64 = 0x3ff0_0000_0000_0000;

/// A way from one point to another.
#[derive(Debug, Clone, Copy)]
pub struct Vector {
    pub x: Float64,
    pub y: Float64,
}

impl Vector {
    /// The vectors put end to end.
    pub open spec fn sum(self, other: Vector) -> Vector {
        Vector { x: self.x.sum(other.x), y: self.y.sum(other.y) }
    }

    /// The vector made `k` times as long.
    pub open spec fn scaled(self, k: Float64) -> Vector {
        Vector { x: self.x.product(k), y: self.y.product(k) }
    }

    /// The vector divided by `k`, by way of its reciprocal.
    pub open spec fn divided(self, k: Float64) -> Vector {
        self.scaled(Float64(UNIT).quotient(k))
    }

    /// The vector the other way round.
    pub open spec fn reversed(self) -> Vector {
        Vector { x: self.x.negated(), y: self.y.negated() }
    }

    /// The vector a quarter turn on.
    pub open spec fn turned(self) -> Vector {
        Vector { x: self.y.negated(), y: self.x }
    }

    /// How long the vector is.
    pub open spec fn length(self) -> Float64 {
        self.x.product(self.x).sum(self.y.product(self.y)).root()
    }

    /// Where the vector leads from the origin.
    pub open spec fn tip(self) -> Point {
        Point { x: self.x, y: self.y }
    }

    /// One to the right.
    pub open spec fn rightwards() -> Vector {
        Vector { x: Float64(UNIT), y: Float64(0) }
    }

    /// One to the right.
    pub fn right() -> (res: Vector)
        ensures
            res == Vector::rightwards(),
    {
        Vector { x: Float64(UNIT), y: Float64(0) }
    }

    /// The vectors put end to end.
    pub fn plus(self, other: Vector) -> (res: Vector)
        ensures
            res == self.sum(other),
    {
        Vector { x: self.x.add(other.x), y: self.y.add(other.y) }
    }

    /// The vector made `k` times as long.
    pub fn times(self, k: Float64) -> (res: Vector)
        ensures
            res == self.scaled(k),
    {
        Vector { x: self.x.mul(k), y: self.y.mul(k) }
    }

    /// The vector divided by `k`.
    pub fn over(self, k: Float64) -> (res: Vector)
        ensures
            res == self.divided(k),
    {
        self.times(Float64(UNIT).div(k))
    }

    /// The vector the other way round.
    pub fn reverse(self) -> (res: Vector)
        ensures
            res == self.reversed(),
    {
        Vector { x: self.x.neg(), y: self.y.neg() }
    }

    /// The vector a quarter turn on.
    pub fn turn(self) -> (res: Vector)
        ensures
            res == self.turned(),
    {
        Vector { x: self.y.neg(), y: self.x }
    }

    /// How long the vector is.
    pub fn hypot(self) -> (res: Float64)
        ensures
            res == self.length(),
    {
        self.x.mul(self.x).add(self.y.mul(self.y)).sqrt()
    }

    /// Where the vector leads from the origin.
    pub fn to_point(self) -> (res: Point)
        ensures
            res == self.tip(),
    {
        Point { x: self.x, y: self.y }
    }
}

impl Point {
    /// The point that a vector leads to from here.
    pub open spec fn moved(self, by: Vector) -> Point {
        Point { x: self.x.sum(by.x), y: self.y.sum(by.y) }
    }

    /// The point from which a vector leads here.
    pub open spec fn moved_back(self, by: Vector) -> Point {
        Point { x: self.x.difference(by.x), y: self.y.difference(by.y) }
    }

    /// The way here from another point.
    pub open spec fn way_from(self, other: Point) -> Vector {
        Vector { x: self.x.difference(other.x), y: self.y.difference(other.y) }
    }

    /// The way here from the origin.
    pub open spec fn way(self) -> Vector {
        Vector { x: self.x, y: self.y }
    }

    /// The point that a vector leads to from here.
    pub fn offset(self, by: Vector) -> (res: Point)
        ensures
            res == self.moved(by),
    {
        Point { x: self.x.add(by.x), y: self.y.add(by.y) }
    }

    /// The point from which a vector leads here.
    pub fn offset_back(self, by: Vector) -> (res: Point)
        ensures
            res == self.moved_back(by),
    {
        Point { x: self.x.sub(by.x), y: self.y.sub(by.y) }
    }

    /// The way here from another point.
    pub fn vector_from(self, other: Point) -> (res: Vector)
        ensures
            res == self.way_from(other),
    {
        Vector { x: self.x.sub(other.x), y: self.y.sub(other.y) }
    }

    /// The way here from the origin.
    pub fn to_vector(self) -> (res: Vector)
        ensures
            res == self.way(),
    {
        Vector { x: self.x, y: self.y }
    }
}

} // verus!
