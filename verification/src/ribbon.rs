//! How a stroke becomes a shape: a ribbon whose width follows the pressure, with round caps.
//! This module decides which samples span a piece of the ribbon, how wide it is, and in
//! which order its outline runs. `walk` steps along the segments, `cap` shapes the ends, and
//! `layout` puts the ribbon of a whole stroke together.

use crate::brush::BrushParams;
use crate::float32::Float32;
use crate::geometry::Point;
use crate::sample::Sample;
use vstd::prelude::*;

pub mod cap;
pub mod course;
pub mod extent;
pub mod laws;
pub mod layout;
pub mod rim;
pub mod shape;
pub mod walk;

verus! {

/// The bit pattern of 2.0.
pub const TWO: u32 = 0x4000_0000;

/// A piece of the ribbon, from one sample to the next, by their indices. The samples around
/// it shape its curve; at an end of the stroke the end itself stands in for the missing one.
#[derive(Debug, Clone, Copy, PartialEq, Eq, Structural)]
pub struct Segment {
    pub before: usize,
    pub from: usize,
    pub to: usize,
    pub after: usize,
}

/// The shape of a stroke.
#[derive(Debug, PartialEq, Eq)]
pub enum Shape {
    /// Without samples there is nothing to draw.
    Empty,
    /// A disc at the first sample.
    Disc,
    /// A ribbon of at least one segment.
    Ribbon(Vec<Segment>),
}

/// The segment from sample `i` of `n` to the next one.
pub open spec fn segment_at(i: int, n: int) -> Segment {
    Segment {
        before: (if i == 0 {
            0
        } else {
            i - 1
        }) as usize,
        from: i as usize,
        to: (i + 1) as usize,
        after: (if i + 2 >= n {
            i + 1
        } else {
            i + 2
        }) as usize,
    }
}

/// The segments that begin before sample `upto`: one for each sample that the next one does
/// not coincide with.
pub open spec fn segments_until(samples: Seq<Sample>, upto: int) -> Seq<Segment>
    decreases upto,
{
    if upto <= 0 {
        seq![]
    } else {
        let front = segments_until(samples, upto - 1);
        if samples[upto - 1].position.same_place(samples[upto].position) {
            front
        } else {
            front.push(segment_at(upto - 1, samples.len() as int))
        }
    }
}

/// The segments of a stroke.
pub open spec fn segments(samples: Seq<Sample>) -> Seq<Segment> {
    segments_until(samples, samples.len() - 1)
}

/// The shape of a stroke with the given samples. A stroke that does not move is a disc.
pub fn plan(samples: &Vec<Sample>) -> (res: Shape)
    ensures
        match res {
            Shape::Empty => samples@.len() == 0,
            Shape::Disc => samples@.len() > 0 && segments(samples@).len() == 0,
            Shape::Ribbon(list) => {
                &&& samples@.len() > 1
                &&& list@ == segments(samples@)
                &&& list@.len() > 0
            },
        },
{
    let n: usize = samples.len();
    if n == 0 {
        return Shape::Empty;
    }
    let mut list: Vec<Segment> = Vec::new();
    let mut i: usize = 0;
    while i + 1 < n
        invariant
            i < n,
            n == samples@.len(),
            list@ == segments_until(samples@, i as int),
        decreases n - i,
    {
        if samples[i].position != samples[i + 1].position {
            let before: usize = if i == 0 {
                0
            } else {
                i - 1
            };
            let after: usize = if i + 1 == n - 1 {
                i + 1
            } else {
                i + 2
            };
            list.push(Segment { before, from: i, to: i + 1, after });
        }
        i += 1;
    }
    if list.is_empty() {
        Shape::Disc
    } else {
        Shape::Ribbon(list)
    }
}

/// The number between `a` and `b` at the fraction `t` of the way.
pub open spec fn between(a: Float32, b: Float32, t: Float32) -> Float32 {
    a.sum(b.difference(a).product(t))
}

/// The number between `a` and `b` at the fraction `t` of the way.
pub fn lerp(a: Float32, b: Float32, t: Float32) -> (res: Float32)
    ensures
        res == between(a, b, t),
{
    a.add(b.sub(a).mul(t))
}

/// The width of a brush under a pressure.
pub open spec fn width_under(brush: BrushParams, pressure: Float32) -> Float32 {
    between(brush.min_width, brush.max_width, brush.curve.mapped(pressure))
}

/// The width at the fraction `t` of the way from one sample to the next; the pressure runs
/// straight between them.
pub fn width_along(from: &Sample, to: &Sample, brush: BrushParams, t: Float32) -> (res: Float32)
    ensures
        res == width_under(brush, between(from.pressure, to.pressure, t)),
{
    let pressure = lerp(from.pressure, to.pressure, t);
    lerp(brush.min_width, brush.max_width, brush.curve.apply(pressure))
}

/// Half the width at a sample.
pub fn half_width_at_sample(sample: &Sample, brush: BrushParams) -> (res: Float32)
    ensures
        res == width_under(brush, sample.pressure).quotient(Float32(TWO)),
{
    let curved = brush.curve.apply(sample.pressure);
    lerp(brush.min_width, brush.max_width, curved).div(Float32(TWO))
}

/// Without pressure the width is the minimum of the brush.
pub proof fn lemma_width_without_pressure(brush: BrushParams)
    requires
        brush.min_width.plain(),
        brush.max_width.difference(brush.min_width).finite(),
    ensures
        width_under(brush, Float32(0)) == brush.min_width,
{
    let d = brush.max_width.difference(brush.min_width);
    crate::float32::identities::lemma_zero_times(d);
    crate::float32::identities::lemma_plus_zero(brush.min_width, d.product(Float32(0)));
}

/// The outline of the ribbon: along its left side and back along its right side.
pub fn outline(left: &Vec<Point>, right: &Vec<Point>) -> (res: Vec<Point>)
    ensures
        res@ == left@ + right@.reverse(),
{
    let mut res: Vec<Point> = Vec::new();
    let mut i: usize = 0;
    while i < left.len()
        invariant
            i <= left@.len(),
            res@ == left@.take(i as int),
        decreases left@.len() - i,
    {
        res.push(left[i]);
        i += 1;
        assert(res@ =~= left@.take(i as int));
    }
    assert(left@.take(i as int) =~= left@);
    let mut j: usize = 0;
    assert(res@ =~= left@ + right@.reverse().take(0));
    while j < right.len()
        invariant
            j <= right@.len(),
            res@ == left@ + right@.reverse().take(j as int),
        decreases right@.len() - j,
    {
        res.push(right[right.len() - 1 - j]);
        j += 1;
        assert(res@ =~= left@ + right@.reverse().take(j as int));
    }
    assert(right@.reverse().take(j as int) =~= right@.reverse());
    res
}

proof fn lemma_segment_places(samples: Seq<Sample>, upto: int, k: int)
    requires
        0 <= upto < samples.len(),
        samples.len() <= usize::MAX,
        0 <= k < segments_until(samples, upto).len(),
    ensures
        ({
            let s = segments_until(samples, upto)[k];
            &&& s.to == s.from + 1
            &&& s.from < upto
            &&& s.before <= s.from
            &&& s.to <= s.after < samples.len()
            &&& s.before == s.from <==> s.from == 0
            &&& s.after == s.to <==> s.to + 1 == samples.len()
            &&& !samples[s.from as int].position.same_place(samples[s.to as int].position)
        }),
    decreases upto,
{
    if upto > 0 {
        let front = segments_until(samples, upto - 1);
        if k < front.len() {
            lemma_segment_places(samples, upto - 1, k);
        }
    }
}

/// Every segment joins two neighbouring samples at different places, with valid samples
/// around it; the end of the stroke stands in for a missing one, and only there.
pub proof fn lemma_segments_are_sound(samples: Seq<Sample>, k: int)
    requires
        samples.len() <= usize::MAX,
        0 <= k < segments(samples).len(),
    ensures
        ({
            let s = segments(samples)[k];
            &&& s.to == s.from + 1
            &&& s.before <= s.from
            &&& s.to <= s.after < samples.len()
            &&& s.before == s.from <==> s.from == 0
            &&& s.after == s.to <==> s.to + 1 == samples.len()
            &&& !samples[s.from as int].position.same_place(samples[s.to as int].position)
        }),
{
    if samples.len() > 0 {
        lemma_segment_places(samples, samples.len() - 1, k);
    }
}

proof fn lemma_no_gap(samples: Seq<Sample>, upto: int, i: int)
    requires
        0 <= i < upto < samples.len(),
        samples.len() <= usize::MAX,
        !samples[i].position.same_place(samples[i + 1].position),
    ensures
        exists|k: int|
            0 <= k < segments_until(samples, upto).len() && (#[trigger] segments_until(
                samples,
                upto,
            )[k]).from == i,
    decreases upto,
{
    let all = segments_until(samples, upto);
    let front = segments_until(samples, upto - 1);
    if i == upto - 1 {
        assert(all[front.len() as int].from == i);
    } else {
        lemma_no_gap(samples, upto - 1, i);
        let k = choose|k: int| 0 <= k < front.len() && (#[trigger] front[k]).from == i;
        assert(all[k] == front[k]);
    }
}

/// No movement is lost: wherever two neighbouring samples differ in place, a segment begins.
pub proof fn lemma_every_movement_is_drawn(samples: Seq<Sample>, i: int)
    requires
        0 <= i,
        i + 1 < samples.len() <= usize::MAX,
        !samples[i].position.same_place(samples[i + 1].position),
    ensures
        exists|k: int|
            0 <= k < segments(samples).len() && (#[trigger] segments(samples)[k]).from == i,
{
    lemma_no_gap(samples, samples.len() - 1, i);
    let all = segments_until(samples, samples.len() - 1);
    let k = choose|k: int| 0 <= k < all.len() && (#[trigger] all[k]).from == i;
    assert(segments(samples)[k].from == i);
}

} // verus!
