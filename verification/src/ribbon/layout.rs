//! The ribbon of a whole stroke: its sides, segment after segment, and its two caps.

use crate::brush::BrushParams;
use crate::float64::Float64;
use crate::ribbon::cap::{cap_of, round_cap, Cap, CAP_VERTEX_MAX, CAP_VERTEX_MIN};
use crate::ribbon::walk::{
    curve_of, lemma_walk_keeps_sides_even, segment_curve, Rails, RailsView,
};
use crate::ribbon::{half_width_at_sample, width_under, Segment, TWO};
use crate::sample::Sample;
use crate::vector::Vector;
use vstd::prelude::*;

verus! {

/// The samples of a segment exist.
pub open spec fn within(segment: Segment, samples: Seq<Sample>) -> bool {
    &&& segment.before < samples.len()
    &&& segment.from < samples.len()
    &&& segment.to < samples.len()
    &&& segment.after < samples.len()
}

/// The sides after the first `n` segments, with steps at the parameters given for each.
pub open spec fn laid(
    samples: Seq<Sample>,
    brush: BrushParams,
    segments: Seq<Segment>,
    params: Seq<Vec<Float64>>,
    n: nat,
) -> RailsView
    decreases n,
{
    if n == 0 {
        RailsView::nothing()
    } else {
        let s = segments[n - 1];
        laid(samples, brush, segments, params, (n - 1) as nat).walked(
            samples[s.from as int],
            samples[s.to as int],
            brush,
            curve_of(samples, s),
            params[n - 1]@,
        )
    }
}

/// Lays out the sides of a ribbon, segment after segment.
pub fn lay_out(
    samples: &Vec<Sample>,
    brush: BrushParams,
    segments: &Vec<Segment>,
    params: &Vec<Vec<Float64>>,
) -> (res: Rails)
    requires
        forall|k: int| 0 <= k < segments@.len() ==> within(#[trigger] segments@[k], samples@),
        params@.len() == segments@.len(),
    ensures
        res@ == laid(samples@, brush, segments@, params@, segments@.len()),
{
    let mut rails = Rails::new();
    let mut k: usize = 0;
    while k < segments.len()
        invariant
            k <= segments@.len(),
            params@.len() == segments@.len(),
            forall|k: int| 0 <= k < segments@.len() ==> within(#[trigger] segments@[k], samples@),
            rails@ == laid(samples@, brush, segments@, params@, k as nat),
        decreases segments@.len() - k,
    {
        let s = segments[k];
        assert(within(segments@[k as int], samples@));
        let curve = segment_curve(samples, s);
        rails.walk(&samples[s.from], &samples[s.to], brush, &curve, &params[k]);
        k += 1;
    }
    rails
}

/// The cap at a sample, if there is one: as wide as the ribbon is there.
pub open spec fn cap_at(
    sample: Sample,
    outward: Vector,
    brush: BrushParams,
    screen_scale: Float64,
) -> Option<Cap> {
    let half = width_under(brush, sample.pressure).quotient(crate::float32::Float32(TWO));
    cap_of(sample.position, outward, half, screen_scale)
}

/// A cap, or none, as a list.
pub open spec fn listed(cap: Option<Cap>) -> Seq<Cap> {
    match cap {
        Some(cap) => seq![cap],
        None => seq![],
    }
}

/// The caps of a ribbon: one at the first sample that faces away from where the ribbon sets
/// out, and one at the last sample that faces where it was going.
pub open spec fn caps_of(
    samples: Seq<Sample>,
    brush: BrushParams,
    rails: RailsView,
    screen_scale: Float64,
) -> Seq<Cap> {
    listed(cap_at(samples[0], rails.first.reversed(), brush, screen_scale)) + listed(
        cap_at(samples.last(), rails.last, brush, screen_scale),
    )
}

/// The caps of a ribbon, the one at its start first.
pub fn caps(samples: &Vec<Sample>, brush: BrushParams, rails: &Rails, screen_scale: Float64) -> (res:
    Vec<Cap>)
    requires
        samples@.len() > 0,
    ensures
        res@ == caps_of(samples@, brush, rails@, screen_scale),
        forall|i: int|
            0 <= i < res@.len() ==> CAP_VERTEX_MIN <= (#[trigger] res@[i]).parts <= CAP_VERTEX_MAX,
{
    let mut res: Vec<Cap> = Vec::new();
    let first = &samples[0];
    let last = &samples[samples.len() - 1];
    let half = half_width_at_sample(first, brush);
    if let Some(cap) = round_cap(first.position, rails.leading_outward(), half, screen_scale) {
        res.push(cap);
    }
    let half = half_width_at_sample(last, brush);
    if let Some(cap) = round_cap(last.position, rails.trailing_outward(), half, screen_scale) {
        res.push(cap);
    }
    assert(res@ =~= caps_of(samples@, brush, rails@, screen_scale));
    res
}

/// How many parameters the first `n` segments have together.
pub open spec fn vertex_count(params: Seq<Vec<Float64>>, n: nat) -> nat
    decreases n,
{
    if n == 0 {
        0
    } else {
        vertex_count(params, (n - 1) as nat) + params[n - 1]@.len()
    }
}

/// The two sides of a ribbon have a vertex for every parameter.
pub proof fn lemma_sides_have_all_vertices(
    samples: Seq<Sample>,
    brush: BrushParams,
    segments: Seq<Segment>,
    params: Seq<Vec<Float64>>,
    n: nat,
)
    ensures
        laid(samples, brush, segments, params, n).left.len() == vertex_count(params, n),
        laid(samples, brush, segments, params, n).right.len() == vertex_count(params, n),
    decreases n,
{
    if n > 0 {
        let m = (n - 1) as nat;
        lemma_sides_have_all_vertices(samples, brush, segments, params, m);
        let s = segments[n - 1];
        lemma_walk_keeps_sides_even(
            laid(samples, brush, segments, params, m),
            samples[s.from as int],
            samples[s.to as int],
            brush,
            curve_of(samples, s),
            params[n - 1]@,
        );
    }
}

} // verus!
