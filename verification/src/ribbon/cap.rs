//! The round ends of a ribbon, and the disc of a stroke that does not move.

use crate::curve::EPSILON;
use crate::float32::Float32;
use crate::float64::Float64;
use crate::geometry::Point;
use crate::vector::Vector;
use vstd::prelude::*;

verus! {

/// The fewest vertices of a round cap.
pub const CAP_VERTEX_MIN: usize = 8;

/// The most vertices of a round cap.
pub const CAP_VERTEX_MAX: usize = 64;

/// The bit pattern of pi.
pub const PI: u64 = 0x4009_21fb_5444_2d18;

/// The bit pattern of 2.0.
pub const TWO: u64 = 0x4000_0000_0000_0000;

/// The number of vertices of a round cap: a quarter of its circumference in pixels, rounded
/// up, within the bounds.
pub open spec fn vertices(radius: Float64, screen_scale: Float64) -> int {
    let ideal = radius.product(screen_scale).product(Float64(PI)).quotient(Float64(TWO)).count();
    if ideal < CAP_VERTEX_MIN {
        CAP_VERTEX_MIN as int
    } else if ideal > CAP_VERTEX_MAX {
        CAP_VERTEX_MAX as int
    } else {
        ideal
    }
}

/// The number of vertices of a round cap with the given radius on the page.
pub fn cap_vertex_count(radius: Float64, screen_scale: Float64) -> (res: usize)
    ensures
        res as int == vertices(radius, screen_scale),
        CAP_VERTEX_MIN <= res <= CAP_VERTEX_MAX,
{
    let ideal: usize = radius.mul(screen_scale).mul(Float64(PI)).div(Float64(TWO)).to_count();
    if ideal < CAP_VERTEX_MIN {
        CAP_VERTEX_MIN
    } else if ideal > CAP_VERTEX_MAX {
        CAP_VERTEX_MAX
    } else {
        ideal
    }
}

/// The angle of vertex `k` of `n` along a sweep.
pub open spec fn angle_at(sweep: Float64, k: nat, n: nat) -> Float64 {
    sweep.product(Float64::of_whole(k)).quotient(Float64::of_whole(n))
}

/// The angles of the vertices strictly inside a sweep, `n` parts of it.
pub open spec fn inner_angles(sweep: Float64, n: int) -> Seq<Float64> {
    Seq::new((n - 1) as nat, |i: int| angle_at(sweep, (i + 1) as nat, n as nat))
}

fn angles_within(sweep: Float64, n: usize) -> (res: Vec<Float64>)
    requires
        n >= 1,
    ensures
        res@ == inner_angles(sweep, n as int),
{
    let mut res: Vec<Float64> = Vec::new();
    let mut k: usize = 1;
    while k < n
        invariant
            1 <= k <= n,
            res@ == inner_angles(sweep, n as int).take(k - 1),
        decreases n - k,
    {
        res.push(sweep.mul(Float64::from_u64(k as u64)).div(Float64::from_u64(n as u64)));
        k += 1;
        assert(res@ =~= inner_angles(sweep, n as int).take(k - 1));
    }
    assert(inner_angles(sweep, n as int).take(n - 1) =~= inner_angles(sweep, n as int));
    res
}

/// The angles of a disc's vertices beyond its first one: a full turn.
pub fn disc_angles(radius: Float64, screen_scale: Float64) -> (res: Vec<Float64>)
    ensures
        res@ == inner_angles(Float64(TWO).product(Float64(PI)), vertices(radius, screen_scale)),
{
    let n: usize = cap_vertex_count(radius, screen_scale);
    angles_within(Float64(TWO).mul(Float64(PI)), n)
}

/// A unit direction by its cosine and sine.
#[derive(Debug, Clone, Copy)]
pub struct UnitDirection {
    pub cos: Float64,
    pub sin: Float64,
}

/// The vertices of a disc in the given directions, after the one on its right.
pub open spec fn disc_vertices(center: Point, radius: Float64, inner: Seq<UnitDirection>) -> Seq<
    Point,
> {
    seq![center.moved(Vector { x: radius, y: Float64(0) })] + Seq::new(
        inner.len(),
        |i: int|
            center.moved(
                Vector { x: radius.product(inner[i].cos), y: radius.product(inner[i].sin) },
            ),
    )
}

/// A disc as a polygon, from the cosines and sines of its angles.
pub fn disc(center: Point, radius: Float64, inner: &Vec<UnitDirection>) -> (res: Vec<Point>)
    ensures
        res@ == disc_vertices(center, radius, inner@),
{
    let ghost all = disc_vertices(center, radius, inner@);
    let mut res: Vec<Point> = Vec::new();
    res.push(center.offset(Vector { x: radius, y: Float64(0) }));
    let mut i: usize = 0;
    assert(res@ =~= all.take(1));
    while i < inner.len()
        invariant
            i <= inner@.len(),
            all == disc_vertices(center, radius, inner@),
            res@ == all.take(i + 1),
        decreases inner@.len() - i,
    {
        let d = inner[i];
        res.push(center.offset(Vector { x: radius.mul(d.cos), y: radius.mul(d.sin) }));
        i += 1;
        assert(res@ =~= all.take(i + 1));
    }
    assert(all.take(i + 1) =~= all);
    res
}

/// Half a disc at the end of a ribbon.
#[derive(Debug, Clone, Copy)]
pub struct Cap {
    pub center: Point,
    /// The direction in which it bulges.
    pub outward: Vector,
    pub radius: Float64,
    /// Into how many parts its rim is cut.
    pub parts: usize,
}

/// Whether there is a cap: it has a size and a direction.
pub open spec fn cap_drawn(outward: Vector, radius: Float32) -> bool {
    &&& !Float64::widened(radius).at_most(Float64(0))
    &&& !outward.length().below(Float64(EPSILON))
}

/// The cap at the end of a ribbon, if there is one.
pub open spec fn cap_of(
    center: Point,
    outward: Vector,
    radius: Float32,
    screen_scale: Float64,
) -> Option<Cap> {
    if cap_drawn(outward, radius) {
        let radius = Float64::widened(radius);
        Some(
            Cap {
                center,
                outward: outward.divided(outward.length()),
                radius,
                parts: vertices(radius, screen_scale) as usize,
            },
        )
    } else {
        None
    }
}

/// The cap at the end of a ribbon, if there is one.
pub fn round_cap(center: Point, outward: Vector, radius: Float32, screen_scale: Float64) -> (res:
    Option<Cap>)
    ensures
        res == cap_of(center, outward, radius, screen_scale),
        res matches Some(cap) ==> CAP_VERTEX_MIN <= cap.parts <= CAP_VERTEX_MAX,
{
    let radius = Float64::from_f32(radius);
    if radius.le(Float64(0)) {
        return None;
    }
    let length = outward.hypot();
    if length.lt(Float64(EPSILON)) {
        return None;
    }
    let parts: usize = cap_vertex_count(radius, screen_scale);
    Some(Cap { center, outward: outward.over(length), radius, parts })
}

impl Cap {
    /// The angles of the vertices between the two ends of the rim: half a turn.
    pub fn angles(&self) -> (res: Vec<Float64>)
        requires
            self.parts >= 1,
        ensures
            res@ == inner_angles(Float64(PI), self.parts as int),
    {
        angles_within(Float64(PI), self.parts)
    }

    /// From the middle of the cap to the first end of its rim.
    pub open spec fn aside(self) -> Vector {
        self.outward.turned().scaled(self.radius)
    }

    /// The vertex in a direction, which is measured from the first end of the rim.
    pub open spec fn vertex(self, d: UnitDirection) -> Point {
        self.center.moved(
            self.outward.turned().scaled(d.cos).sum(self.outward.scaled(d.sin)).scaled(
                self.radius,
            ),
        )
    }

    /// The vertices: from one end of the rim through the given directions to the other.
    pub open spec fn rim(self, inner: Seq<UnitDirection>) -> Seq<Point> {
        (seq![self.center.moved(self.aside())] + Seq::new(
            inner.len(),
            |i: int| self.vertex(inner[i]),
        )).push(self.center.moved_back(self.aside()))
    }

    /// The cap as a polygon, from the cosines and sines of its angles.
    pub fn polygon(&self, inner: &Vec<UnitDirection>) -> (res: Vec<Point>)
        ensures
            res@ == self.rim(inner@),
    {
        let ghost all = self.rim(inner@);
        let aside = self.outward.turn();
        let mut res: Vec<Point> = Vec::new();
        res.push(self.center.offset(aside.times(self.radius)));
        let mut i: usize = 0;
        assert(res@ =~= all.take(1));
        while i < inner.len()
            invariant
                i <= inner@.len(),
                all == self.rim(inner@),
                aside == self.outward.turned(),
                res@ == all.take(i + 1),
            decreases inner@.len() - i,
        {
            let d = inner[i];
            let dir = aside.times(d.cos).plus(self.outward.times(d.sin));
            res.push(self.center.offset(dir.times(self.radius)));
            i += 1;
            assert(res@ =~= all.take(i + 1));
        }
        res.push(self.center.offset_back(aside.times(self.radius)));
        assert(res@ =~= all);
        res
    }
}

} // verus!
