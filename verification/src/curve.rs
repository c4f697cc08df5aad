//! The curve through the samples of a stroke: between each two of them a cubic whose ends
//! follow the samples around it.

use crate::float64::Float64;
use crate::geometry::Point;
use crate::vector::{Vector, UNIT};
use vstd::prelude::*;

verus! {

/// The bit pattern of 1e-6: shorter vectors have no direction worth speaking of.
pub const EPSILON: u64 = 0x3eb0_c6f7_a0b5_ed8d;

/// The bit pattern of 2.0.
pub const TWO: u64 = 0x4000_0000_0000_0000;

/// The bit pattern of 3.0.
pub const THREE: u64 = 0x4008_0000_0000_0000;

/// A cubic Bezier curve.
#[derive(Debug, Clone, Copy)]
pub struct Cubic {
    pub start: Point,
    /// The curve leaves its start towards this point.
    pub lead: Point,
    /// The curve comes to its end from this point.
    pub trail: Point,
    pub end: Point,
}

/// The square root of a distance, and never too close to zero.
pub open spec fn knot_interval(way: Vector) -> Float64 {
    way.length().root().larger(Float64(EPSILON))
}

/// The fraction of a way of which a control point is moved: the middle interval over three
/// times the span of the way.
pub open spec fn control_fraction(middle: Float64, span: Float64) -> Float64 {
    middle.quotient(span.larger(Float64(EPSILON)).product(Float64(THREE)))
}

impl Cubic {
    /// The centripetal Catmull-Rom curve from `p1` to `p2`, with `p0` before and `p3` after
    /// them. The knots are as far apart as the square roots of the distances; the tangent at
    /// a point follows the way between its neighbours.
    #[verifier::opaque]
    pub open spec fn through(p0: Point, p1: Point, p2: Point, p3: Point) -> Cubic {
        let k1 = Float64(0).sum(knot_interval(p1.way_from(p0)));
        let k2 = k1.sum(knot_interval(p2.way_from(p1)));
        let k3 = k2.sum(knot_interval(p3.way_from(p2)));
        let middle = k2.difference(k1);
        Cubic {
            start: p1,
            lead: p1.moved(
                p2.way_from(p0).scaled(control_fraction(middle, k2.difference(Float64(0)))),
            ),
            trail: p2.moved_back(
                p3.way_from(p1).scaled(control_fraction(middle, k3.difference(k1))),
            ),
            end: p2,
        }
    }

    /// The point at the parameter `t`.
    #[verifier::opaque]
    pub open spec fn at(self, t: Float64) -> Point {
        let s = Float64(UNIT).difference(t);
        let tail = self.trail.way().scaled(s.product(Float64(THREE))).sum(self.end.way().scaled(t));
        let rest = self.lead.way().scaled(s.product(s).product(Float64(THREE))).sum(tail.scaled(t));
        self.start.way().scaled(s.product(s).product(s)).sum(rest.scaled(t)).tip()
    }

    /// The derivative at the parameter `t`.
    #[verifier::opaque]
    pub open spec fn velocity(self, t: Float64) -> Vector {
        let s = Float64(UNIT).difference(t);
        let d0 = self.lead.way_from(self.start).scaled(Float64(THREE));
        let d1 = self.trail.way_from(self.lead).scaled(Float64(THREE));
        let d2 = self.end.way_from(self.trail).scaled(Float64(THREE));
        d0.scaled(s.product(s)).sum(
            d1.scaled(s.product(Float64(TWO))).sum(d2.scaled(t)).scaled(t),
        )
    }

    /// The point at the parameter `t`.
    pub fn eval(&self, t: Float64) -> (res: Point)
        ensures
            res == self.at(t),
    {
        reveal(Cubic::at);
        let s = Float64(UNIT).sub(t);
        let tail = self.trail.to_vector().times(s.mul(Float64(THREE))).plus(
            self.end.to_vector().times(t),
        );
        let rest = self.lead.to_vector().times(s.mul(s).mul(Float64(THREE))).plus(tail.times(t));
        self.start.to_vector().times(s.mul(s).mul(s)).plus(rest.times(t)).to_point()
    }

    /// The derivative at the parameter `t`.
    pub fn deriv(&self, t: Float64) -> (res: Vector)
        ensures
            res == self.velocity(t),
    {
        reveal(Cubic::velocity);
        let s = Float64(UNIT).sub(t);
        let d0 = self.lead.vector_from(self.start).times(Float64(THREE));
        let d1 = self.trail.vector_from(self.lead).times(Float64(THREE));
        let d2 = self.end.vector_from(self.trail).times(Float64(THREE));
        d0.times(s.mul(s)).plus(d1.times(s.mul(Float64(TWO))).plus(d2.times(t)).times(t))
    }
}

fn interval(way: Vector) -> (res: Float64)
    ensures
        res == knot_interval(way),
{
    way.hypot().sqrt().max(Float64(EPSILON))
}

fn fraction(middle: Float64, span: Float64) -> (res: Float64)
    ensures
        res == control_fraction(middle, span),
{
    middle.div(span.max(Float64(EPSILON)).mul(Float64(THREE)))
}

/// The centripetal Catmull-Rom curve from `p1` to `p2`, with `p0` before and `p3` after them.
pub fn centripetal_catmull_rom(p0: Point, p1: Point, p2: Point, p3: Point) -> (res: Cubic)
    ensures
        res == Cubic::through(p0, p1, p2, p3),
        res.start == p1,
        res.end == p2,
{
    reveal(Cubic::through);
    let k1 = Float64(0).add(interval(p1.vector_from(p0)));
    let k2 = k1.add(interval(p2.vector_from(p1)));
    let k3 = k2.add(interval(p3.vector_from(p2)));
    let middle = k2.sub(k1);
    let out = p2.vector_from(p0).times(fraction(middle, k2.sub(Float64(0))));
    let back = p3.vector_from(p1).times(fraction(middle, k3.sub(k1)));
    Cubic { start: p1, lead: p1.offset(out), trail: p2.offset_back(back), end: p2 }
}

} // verus!
