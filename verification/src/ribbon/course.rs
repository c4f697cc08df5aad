//! The course of a ribbon: which samples its segments join, in which order its steps are taken, and
//! where its caps stand.

use crate::brush::BrushParams;
use crate::curve::{Cubic, EPSILON};
use crate::float64::Float64;
use crate::ribbon::cap::cap_of;
use crate::ribbon::extent::{directed, half_width};
use crate::ribbon::layout::{cap_at, caps_of, laid};
use crate::ribbon::rim::lemma_cap_faces_outward;
use crate::ribbon::shape::points_along;
use crate::ribbon::walk::{curve_of, RailsView};
use crate::ribbon::{segment_at, segments, segments_until, Segment};
use crate::sample::Sample;
use crate::vector::Vector;
use vstd::prelude::*;

verus! {

/// The sample and the next one lie apart.
pub open spec fn parts(samples: Seq<Sample>, i: int) -> bool {
    !samples[i].position.same_place(samples[i + 1].position)
}

/// The segment joins a sample to the next one, which lies elsewhere, and looks at the sample
/// before and the one after; at the ends of the stroke these are the end samples themselves.
pub open spec fn joins(samples: Seq<Sample>, s: Segment) -> bool {
    let i = s.from as int;
    &&& 0 <= i < samples.len() - 1
    &&& s.to == i + 1
    &&& parts(samples, i)
    &&& i > 0 ==> s.before == i - 1
    &&& i == 0 ==> s.before == 0
    &&& i + 2 < samples.len() ==> s.after == i + 2
    &&& i + 2 >= samples.len() ==> s.after == i + 1
}

proof fn lemma_segments_until(samples: Seq<Sample>, upto: int)
    requires
        0 <= upto < samples.len() <= usize::MAX,
    ensures
        ({
            let all = segments_until(samples, upto);
            &&& forall|k: int|
                0 <= k < all.len() ==> joins(samples, #[trigger] all[k]) && all[k].from < upto
            &&& forall|j: int, k: int|
                0 <= j < k < all.len() ==> (#[trigger] all[j]).from < (#[trigger] all[k]).from
            &&& forall|i: int|
                0 <= i < upto && #[trigger] parts(samples, i) ==> all.contains(
                    segment_at(i, samples.len() as int),
                )
        }),
    decreases upto,
{
    if upto > 0 {
        lemma_segments_until(samples, upto - 1);
        let before = segments_until(samples, upto - 1);
        let all = segments_until(samples, upto);
        if parts(samples, upto - 1) {
            let s = segment_at(upto - 1, samples.len() as int);
            assert(all == before.push(s));
            assert(joins(samples, s));
            assert(all[before.len() as int] == s);
            assert forall|k: int| 0 <= k < all.len() implies joins(samples, #[trigger] all[k])
                && all[k].from < upto by {
                if k < before.len() {
                    assert(all[k] == before[k]);
                }
            }
            assert forall|j: int, k: int| 0 <= j < k < all.len() implies (#[trigger] all[j]).from
                < (#[trigger] all[k]).from by {
                assert(all[j] == before[j]);
                if k < before.len() {
                    assert(all[k] == before[k]);
                }
            }
            assert forall|i: int|
                0 <= i < upto && #[trigger] parts(samples, i) implies all.contains(
                segment_at(i, samples.len() as int),
            ) by {
                if i < upto - 1 {
                    let k = choose|k: int|
                        0 <= k < before.len() && before[k] == segment_at(i, samples.len() as int);
                    assert(all[k] == before[k]);
                }
            }
        }
    }
}

/// A stroke has a segment for each two neighbouring samples that lie apart, in the order of the
/// samples, and no other.
pub proof fn lemma_segments_join_neighbours(samples: Seq<Sample>)
    requires
        0 < samples.len() <= usize::MAX,
    ensures
        forall|k: int|
            0 <= k < segments(samples).len() ==> joins(samples, #[trigger] segments(samples)[k]),
        forall|j: int, k: int|
            0 <= j < k < segments(samples).len() ==> (#[trigger] segments(samples)[j]).from < (
            #[trigger] segments(samples)[k]).from,
        forall|i: int|
            0 <= i < samples.len() - 1 && #[trigger] parts(samples, i) ==> exists|k: int|
                0 <= k < segments(samples).len() && (#[trigger] segments(samples)[k]).from == i,
{
    lemma_segments_until(samples, samples.len() - 1);
    let all = segments(samples);
    assert forall|i: int| 0 <= i < samples.len() - 1 && #[trigger] parts(
        samples,
        i,
    ) implies exists|k: int|
        0 <= k < all.len() && (#[trigger] all[k]).from == i by {
        let s = segment_at(i, samples.len() as int);
        let k = choose|k: int| 0 <= k < all.len() && all[k] == s;
        assert(all[k].from == i);
    }
}

/// Steps are taken one after the other: walking along a list of parameters and then along another
/// is walking along both, and walking along one parameter is a step there.
pub proof fn lemma_steps_are_taken_in_turn(
    rails: RailsView,
    from: Sample,
    to: Sample,
    brush: BrushParams,
    curve: Cubic,
    first: Seq<Float64>,
    then: Seq<Float64>,
    t: Float64,
)
    ensures
        rails.walked(from, to, brush, curve, first + then) == rails.walked(
            from,
            to,
            brush,
            curve,
            first,
        ).walked(from, to, brush, curve, then),
        rails.walked(from, to, brush, curve, seq![t]) == rails.stepped(from, to, brush, curve, t),
        rails.walked(from, to, brush, curve, seq![]) == rails,
    decreases then.len(),
{
    assert(seq![t].drop_last() =~= seq![]);
    assert(rails.walked(from, to, brush, curve, seq![]) == rails);
    if then.len() == 0 {
        assert(first + then =~= first);
    } else {
        lemma_steps_are_taken_in_turn(rails, from, to, brush, curve, first, then.drop_last(), t);
        assert((first + then).drop_last() =~= first + then.drop_last());
        assert((first + then).last() == then.last());
    }
}

/// A segment that is laid leaves what was laid before in place and adds a vertex on each side for
/// each of its parameters. Its curve runs from the sample that it starts at to the one that it ends
/// at.
pub proof fn lemma_segments_are_laid_in_turn(
    samples: Seq<Sample>,
    brush: BrushParams,
    list: Seq<Segment>,
    params: Seq<Vec<Float64>>,
    n: nat,
)
    requires
        n < list.len(),
    ensures
        ({
            let before = laid(samples, brush, list, params, n);
            let after = laid(samples, brush, list, params, n + 1);
            let s = list[n as int];
            let curve = curve_of(samples, s);
            let k = before.left.len() as int;
            &&& after.left.len() == k + params[n as int]@.len()
            &&& after.left.take(k) == before.left
            &&& after.right.len() == before.right.len() + params[n as int]@.len()
            &&& after.right.take(before.right.len() as int) == before.right
            &&& curve.start == samples[s.from as int].position
            &&& curve.end == samples[s.to as int].position
        }),
{
    reveal(Cubic::through);
    let before = laid(samples, brush, list, params, n);
    let s = list[n as int];
    lemma_walk_appends(
        before,
        samples[s.from as int],
        samples[s.to as int],
        brush,
        curve_of(samples, s),
        params[n as int]@,
    );
}

proof fn lemma_walk_appends(
    rails: RailsView,
    from: Sample,
    to: Sample,
    brush: BrushParams,
    curve: Cubic,
    params: Seq<Float64>,
)
    ensures
        ({
            let after = rails.walked(from, to, brush, curve, params);
            &&& after.left.len() == rails.left.len() + params.len()
            &&& after.right.len() == rails.right.len() + params.len()
            &&& after.left.take(rails.left.len() as int) == rails.left
            &&& after.right.take(rails.right.len() as int) == rails.right
        }),
    decreases params.len(),
{
    let after = rails.walked(from, to, brush, curve, params);
    if params.len() > 0 {
        lemma_walk_appends(rails, from, to, brush, curve, params.drop_last());
        let mid = rails.walked(from, to, brush, curve, params.drop_last());
        assert(after.left.drop_last() =~= mid.left);
        assert(after.right.drop_last() =~= mid.right);
        assert(after.left.take(rails.left.len() as int) =~= mid.left.take(
            rails.left.len() as int,
        ));
        assert(after.right.take(rails.right.len() as int) =~= mid.right.take(
            rails.right.len() as int,
        ));
    } else {
        assert(after.left.take(rails.left.len() as int) =~= rails.left);
        assert(after.right.take(rails.right.len() as int) =~= rails.right);
    }
}

/// The way back.
pub open spec fn backwards(v: Vector) -> Vector {
    Vector { x: v.x.negated(), y: v.y.negated() }
}

/// A ribbon that is wide at both of its ends has a cap at each of them: the first stands at its
/// first sample and faces back from where the ribbon sets out, the last stands at its last sample
/// and faces on where it was going. They are as wide as the ribbon is there.
pub proof fn lemma_caps_face_away_from_the_ribbon(
    samples: Seq<Sample>,
    brush: BrushParams,
    rails: RailsView,
    screen_scale: Float64,
)
    requires
        samples.len() > 0,
        directed(backwards(rails.first)),
        directed(rails.last),
        Float64::widened(half_width(samples[0], brush)).finite(),
        Float64::widened(half_width(samples[0], brush)).value() > 0,
        Float64::widened(half_width(samples.last(), brush)).finite(),
        Float64::widened(half_width(samples.last(), brush)).value() > 0,
    ensures
        ({
            let caps = caps_of(samples, brush, rails, screen_scale);
            &&& caps.len() == 2
            &&& caps[0].center == samples[0].position
            &&& caps[1].center == samples.last().position
            &&& points_along(caps[0].outward, backwards(rails.first))
            &&& points_along(caps[1].outward, rails.last)
            &&& caps[0].radius == Float64::widened(half_width(samples[0], brush))
            &&& caps[1].radius == Float64::widened(half_width(samples.last(), brush))
        }),
{
    let back = backwards(rails.first);
    assert(rails.first.reversed() == back);
    let first = half_width(samples[0], brush);
    let last = half_width(samples.last(), brush);
    lemma_wider(back);
    lemma_wider(rails.last);
    lemma_cap_faces_outward(samples[0].position, back, first, screen_scale);
    lemma_cap_faces_outward(samples.last().position, rails.last, last, screen_scale);
    assert(cap_at(samples[0], back, brush, screen_scale) == cap_of(
        samples[0].position,
        back,
        first,
        screen_scale,
    ));
    assert(cap_at(samples.last(), rails.last, brush, screen_scale) == cap_of(
        samples.last().position,
        rails.last,
        last,
        screen_scale,
    ));
}

proof fn lemma_wider(v: Vector)
    requires
        directed(v),
    ensures
        crate::ribbon::extent::vector_within(v, 200),
        !v.length().below(Float64(EPSILON)),
{
}

/// Samples lie apart where a coordinate differs in value.
pub proof fn lemma_apart_is_elsewhere(samples: Seq<Sample>, i: int)
    requires
        crate::ribbon::extent::is_finite(samples[i].position),
        crate::ribbon::extent::is_finite(samples[i + 1].position),
    ensures
        parts(samples, i) <==> samples[i].position.x.value() != samples[i + 1].position.x.value()
            || samples[i].position.y.value() != samples[i + 1].position.y.value(),
{
    let p = samples[i].position;
    let q = samples[i + 1].position;
    crate::float64::lemma_order_is_order_of_values(p.x, q.x);
    crate::float64::lemma_order_is_order_of_values(p.y, q.y);
}

} // verus!
