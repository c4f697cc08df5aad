//! The sides of the ribbon: steps along the curve of each segment, each with a vertex on the
//! left and one on the right.

use crate::brush::BrushParams;
use crate::curve::{centripetal_catmull_rom, Cubic, EPSILON};
use crate::float32::Float32;
use crate::float64::Float64;
use crate::geometry::Point;
use crate::ribbon::{width_along, Segment};
use crate::sample::Sample;
use crate::vector::{Vector, UNIT};
use vstd::prelude::*;

verus! {

/// The bit pattern of 0.5: the length of a curve is measured to this part of a step.
pub const ACCURACY: u64 = 0x3fe0_0000_0000_0000;

/// The bit pattern of 2.0.
pub const TWO: u64 = 0x4000_0000_0000_0000;

/// Pixels for each unit of the page, from the determinant of the map from page to screen.
pub fn screen_scale(determinant: Float64) -> (res: Float64)
    ensures
        res == determinant.unsigned().root(),
{
    determinant.abs().sqrt()
}

/// The length on the page of one pixel of the screen; 1 without a positive scale.
pub open spec fn pixel_length(screen_scale: Float64) -> Float64 {
    if Float64(0).below(screen_scale) {
        Float64(UNIT).quotient(screen_scale)
    } else {
        Float64(UNIT)
    }
}

/// The length on the page of one pixel of the screen: how far apart the steps lie.
pub fn world_step(screen_scale: Float64) -> (res: Float64)
    ensures
        res == pixel_length(screen_scale),
{
    if Float64(0).lt(screen_scale) {
        Float64(UNIT).div(screen_scale)
    } else {
        Float64(UNIT)
    }
}

/// How exactly the length of a curve is measured.
pub fn accuracy(world_step: Float64) -> (res: Float64)
    ensures
        res == world_step.product(Float64(ACCURACY)),
{
    world_step.mul(Float64(ACCURACY))
}

/// How many steps a curve of the given length takes: at least one.
pub open spec fn steps(length: Float64, world_step: Float64) -> int {
    let n = length.quotient(world_step).count();
    if n < 1 {
        1
    } else {
        n
    }
}

/// How many steps a curve of the given length takes.
pub fn step_count(length: Float64, world_step: Float64) -> (res: usize)
    ensures
        res as int == steps(length, world_step),
        res >= 1,
{
    let n: usize = length.div(world_step).to_count();
    if n < 1 {
        1
    } else {
        n
    }
}

/// How far along the curve step `k` of `n` lies.
pub open spec fn arc_at(length: Float64, k: nat, n: nat) -> Float64 {
    length.product(Float64::of_whole(k).quotient(Float64::of_whole(n)))
}

/// How far along its curve each step of a segment lies. The ribbon begins with step 0; every
/// later segment leaves that step out, since the one before ended there.
pub open spec fn arcs_along(length: Float64, world_step: Float64, wrote_any: bool) -> Seq<Float64> {
    let n = steps(length, world_step);
    if wrote_any {
        Seq::new(n as nat, |i: int| arc_at(length, (i + 1) as nat, n as nat))
    } else {
        Seq::new((n + 1) as nat, |i: int| arc_at(length, i as nat, n as nat))
    }
}

/// How far along its curve each step of a segment lies.
pub fn step_arcs(length: Float64, world_step: Float64, wrote_any: bool) -> (res: Vec<Float64>)
    requires
        steps(length, world_step) < usize::MAX,
    ensures
        res@ == arcs_along(length, world_step, wrote_any),
{
    let n: usize = step_count(length, world_step);
    let first: usize = if wrote_any {
        1
    } else {
        0
    };
    let mut res: Vec<Float64> = Vec::new();
    let mut k: usize = first;
    while k <= n
        invariant
            1 <= n < usize::MAX,
            first <= 1,
            first <= k <= n + 1,
            res@.len() == k - first,
            forall|i: int|
                0 <= i < res@.len() ==> #[trigger] res@[i] == arc_at(
                    length,
                    (i + first) as nat,
                    n as nat,
                ),
        decreases n + 1 - k,
    {
        let t = Float64::from_u64(k as u64).div(Float64::from_u64(n as u64));
        res.push(length.mul(t));
        k += 1;
    }
    assert(res@ =~= arcs_along(length, world_step, wrote_any));
    res
}

/// How far along its curve each step of each segment lies, from the lengths of the curves. Only
/// the first segment has a step at its very start.
pub fn arcs_of_segments(lengths: &Vec<Float64>, step: Float64) -> (res: Vec<Vec<Float64>>)
    requires
        forall|k: int| 0 <= k < lengths@.len() ==> steps(#[trigger] lengths@[k], step) < usize::MAX,
    ensures
        res@.len() == lengths@.len(),
        forall|k: int|
            0 <= k < lengths@.len() ==> (#[trigger] res@[k])@ == arcs_along(
                lengths@[k],
                step,
                k > 0,
            ),
{
    let mut res: Vec<Vec<Float64>> = Vec::new();
    let mut k: usize = 0;
    while k < lengths.len()
        invariant
            k <= lengths@.len(),
            res@.len() == k,
            forall|k: int|
                0 <= k < lengths@.len() ==> steps(#[trigger] lengths@[k], step) < usize::MAX,
            forall|i: int|
                0 <= i < k ==> (#[trigger] res@[i])@ == arcs_along(lengths@[i], step, i > 0),
        decreases lengths@.len() - k,
    {
        assert(steps(lengths@[k as int], step) < usize::MAX);
        res.push(step_arcs(lengths[k], step, k > 0));
        k += 1;
    }
    res
}

/// The curve of a segment through the samples around it.
pub open spec fn curve_of(samples: Seq<Sample>, segment: Segment) -> Cubic {
    Cubic::through(
        samples[segment.before as int].position,
        samples[segment.from as int].position,
        samples[segment.to as int].position,
        samples[segment.after as int].position,
    )
}

/// The curve of a segment through the samples around it.
pub fn segment_curve(samples: &Vec<Sample>, segment: Segment) -> (res: Cubic)
    requires
        segment.before < samples@.len(),
        segment.from < samples@.len(),
        segment.to < samples@.len(),
        segment.after < samples@.len(),
    ensures
        res == curve_of(samples@, segment),
{
    centripetal_catmull_rom(
        samples[segment.before].position,
        samples[segment.from].position,
        samples[segment.to].position,
        samples[segment.after].position,
    )
}

/// The direction of a derivative, or the one before where it is too short to have one.
pub open spec fn direction(raw: Vector, before: Vector) -> Vector {
    if raw.length().below(Float64(EPSILON)) {
        before
    } else {
        raw.divided(raw.length())
    }
}

/// The sides of the ribbon so far.
pub struct Rails {
    left: Vec<Point>,
    right: Vec<Point>,
    first: Vector,
    last: Vector,
}

/// The sides of the ribbon so far, and the directions at its two ends.
#[verifier::ext_equal]
pub struct RailsView {
    pub left: Seq<Point>,
    pub right: Seq<Point>,
    pub first: Vector,
    pub last: Vector,
}

impl RailsView {
    /// Nothing laid out yet; the direction is to the right.
    pub open spec fn nothing() -> RailsView {
        RailsView {
            left: seq![],
            right: seq![],
            first: Vector::rightwards(),
            last: Vector::rightwards(),
        }
    }

    /// After a step at the parameter `t` of a curve between two samples.
    pub open spec fn stepped(
        self,
        from: Sample,
        to: Sample,
        brush: BrushParams,
        curve: Cubic,
        t: Float64,
    ) -> RailsView {
        let t = t.clamped(Float64(0), Float64(UNIT));
        let tangent = direction(curve.velocity(t), self.last);
        let pressure = crate::ribbon::between(from.pressure, to.pressure, Float32::narrowed(t));
        let width = crate::ribbon::width_under(brush, pressure);
        let aside = tangent.turned().scaled(Float64::widened(width).quotient(Float64(TWO)));
        RailsView {
            left: self.left.push(curve.at(t).moved(aside)),
            right: self.right.push(curve.at(t).moved_back(aside)),
            first: if self.left.len() == 0 {
                tangent
            } else {
                self.first
            },
            last: tangent,
        }
    }

    /// After a step at each of the parameters in turn.
    pub open spec fn walked(
        self,
        from: Sample,
        to: Sample,
        brush: BrushParams,
        curve: Cubic,
        params: Seq<Float64>,
    ) -> RailsView
        decreases params.len(),
    {
        if params.len() == 0 {
            self
        } else {
            self.walked(from, to, brush, curve, params.drop_last()).stepped(
                from,
                to,
                brush,
                curve,
                params.last(),
            )
        }
    }
}

impl View for Rails {
    type V = RailsView;

    closed spec fn view(&self) -> RailsView {
        RailsView {
            left: self.left@,
            right: self.right@,
            first: self.first,
            last: self.last,
        }
    }
}

impl Rails {
    /// Nothing laid out yet.
    pub fn new() -> (res: Rails)
        ensures
            res@ == RailsView::nothing(),
    {
        Rails {
            left: Vec::new(),
            right: Vec::new(),
            first: Vector::right(),
            last: Vector::right(),
        }
    }

    /// Whether anything is laid out.
    pub fn wrote_any(&self) -> (res: bool)
        ensures
            res == (self@.left.len() > 0),
    {
        self.left.len() > 0
    }

    /// The left side.
    pub fn left(&self) -> (res: &Vec<Point>)
        ensures
            res@ == self@.left,
    {
        &self.left
    }

    /// The right side.
    pub fn right(&self) -> (res: &Vec<Point>)
        ensures
            res@ == self@.right,
    {
        &self.right
    }

    /// The direction in which the cap at the start of the ribbon bulges: away from it.
    pub fn leading_outward(&self) -> (res: Vector)
        ensures
            res == self@.first.reversed(),
    {
        self.first.reverse()
    }

    /// The direction in which the cap at the end of the ribbon bulges.
    pub fn trailing_outward(&self) -> (res: Vector)
        ensures
            res == self@.last,
    {
        self.last
    }

    /// Adds the vertices at the parameter `t` of a curve between two samples.
    pub fn step(&mut self, from: &Sample, to: &Sample, brush: BrushParams, curve: &Cubic, t: Float64)
        ensures
            final(self)@ == old(self)@.stepped(*from, *to, brush, *curve, t),
    {
        let t = t.clamp(Float64(0), Float64(UNIT));
        let p = curve.eval(t);
        let raw = curve.deriv(t);
        let tangent = if raw.hypot().lt(Float64(EPSILON)) {
            self.last
        } else {
            raw.over(raw.hypot())
        };
        let width = width_along(from, to, brush, Float32::from_f64(t));
        let aside = tangent.turn().times(Float64::from_f32(width).div(Float64(TWO)));
        if self.left.len() == 0 {
            self.first = tangent;
        }
        self.last = tangent;
        self.left.push(p.offset(aside));
        self.right.push(p.offset_back(aside));
    }

    /// Adds the vertices at each of the parameters of a segment in turn.
    pub fn walk(
        &mut self,
        from: &Sample,
        to: &Sample,
        brush: BrushParams,
        curve: &Cubic,
        params: &Vec<Float64>,
    )
        ensures
            final(self)@ == old(self)@.walked(*from, *to, brush, *curve, params@),
    {
        let mut i: usize = 0;
        assert(params@.take(0) =~= seq![]);
        while i < params.len()
            invariant
                i <= params@.len(),
                self@ == old(self)@.walked(*from, *to, brush, *curve, params@.take(i as int)),
            decreases params@.len() - i,
        {
            proof {
                assert(params@.take(i + 1).drop_last() =~= params@.take(i as int));
            }
            self.step(from, to, brush, curve, params[i]);
            i += 1;
        }
        assert(params@.take(i as int) =~= params@);
    }
}

/// Each step of a walk leaves one vertex on either side.
pub proof fn lemma_walk_keeps_sides_even(
    rails: RailsView,
    from: Sample,
    to: Sample,
    brush: BrushParams,
    curve: Cubic,
    params: Seq<Float64>,
)
    ensures
        ({
            let after = rails.walked(from, to, brush, curve, params);
            &&& after.left.len() == rails.left.len() + params.len()
            &&& after.right.len() == rails.right.len() + params.len()
            &&& rails.left =~= after.left.take(rails.left.len() as int)
            &&& rails.right =~= after.right.take(rails.right.len() as int)
            &&& rails.left.len() > 0 ==> after.first == rails.first
        }),
    decreases params.len(),
{
    if params.len() > 0 {
        lemma_walk_keeps_sides_even(rails, from, to, brush, curve, params.drop_last());
    }
}

} // verus!
