//! What the passes of a frame do for each layer and each stroke: how a layer is blended, which
//! program paints a stroke, and which strokes and substrates take part.

use crate::brush::{BrushType, ONE};
use crate::compositor::{
    all_deposits, deposits_below, layer_deposits, missing, program_of, BrushProgram, CompositorView,
    Deposit,
};
use crate::float32::Float32;
use crate::ids::{LayerId, StrokeId};
use crate::layer::{BlendMode, Layer, LayerView};
use vstd::prelude::*;

verus! {

/// The layer takes part in the frame: it is visible or drawn on, and has a substrate.
pub open spec fn takes_part(c: CompositorView, layer: Layer, active: Option<LayerId>) -> bool {
    (layer.visible || active == Some(layer.id)) && c.fronts.dom().contains(layer.id.number())
}

/// How many of the lowest `n` layers take part.
pub open spec fn taking_part(
    c: CompositorView,
    layers: Seq<Layer>,
    active: Option<LayerId>,
    n: int,
) -> int
    decreases n,
{
    if n <= 0 {
        0
    } else {
        taking_part(c, layers, active, n - 1) + if takes_part(c, layers[n - 1], active) {
            1int
        } else {
            0int
        }
    }
}

/// Every layer that takes part has one pass, in the order of the layers from the bottom, and no
/// other layer has one. The pass blends that layer, from the side of its substrate that is in
/// front, with exactly the layer's own opacity where that is a number from 0 to 1, and with the
/// layer's own blend mode where that is known. The passes chain: each reads what the one before
/// it wrote.
pub proof fn lemma_each_layer_is_blended_as_it_is(
    c: CompositorView,
    layers: Seq<Layer>,
    active: Option<LayerId>,
    i: int,
)
    requires
        c.composite_front < 2,
        0 <= i < layers.len(),
    ensures
        ({
            let passes = c.passes(layers, active);
            let layer = layers[i];
            let k = taking_part(c, layers, active, i);
            let pass = passes[k];
            &&& passes.len() == taking_part(c, layers, active, layers.len() as int)
            &&& takes_part(c, layer, active) ==> {
                &&& 0 <= k < passes.len()
                &&& pass.layer == layer.id
                &&& pass.substrate == c.fronts[layer.id.number()]
                &&& Float32(0).at_most(layer.opacity) && layer.opacity.at_most(Float32(ONE))
                    ==> pass.opacity == layer.opacity
                &&& layer.opacity.below(Float32(0)) ==> pass.opacity == Float32(0)
                &&& Float32(ONE).below(layer.opacity) ==> pass.opacity == Float32(ONE)
                &&& layer.blend_mode != BlendMode::Unknown ==> pass.mode == layer.blend_mode
                &&& layer.blend_mode == BlendMode::Unknown ==> pass.mode == BlendMode::Normal
                &&& pass.read == (c.composite_front + k) % 2
                &&& pass.write == (c.composite_front + k + 1) % 2
            }
        }),
    decreases layers.len(),
{
    let below = layers.drop_last();
    let n = below.len() as int;
    lemma_count_is_of_the_layers(c, layers, active, i);
    lemma_count_is_of_the_layers(c, layers, active, n);
    if n > 0 {
        let j = if i < n {
            i
        } else {
            0
        };
        lemma_each_layer_is_blended_as_it_is(c, below, active, j);
        lemma_count_grows(c, below, active, j, n);
    }
}

proof fn lemma_count_is_of_the_layers(
    c: CompositorView,
    layers: Seq<Layer>,
    active: Option<LayerId>,
    n: int,
)
    requires
        0 <= n < layers.len(),
    ensures
        taking_part(c, layers, active, n) == taking_part(c, layers.drop_last(), active, n),
    decreases n,
{
    if n > 0 {
        lemma_count_is_of_the_layers(c, layers, active, n - 1);
    }
}

proof fn lemma_count_grows(
    c: CompositorView,
    layers: Seq<Layer>,
    active: Option<LayerId>,
    i: int,
    n: int,
)
    requires
        0 <= i <= n,
    ensures
        0 <= taking_part(c, layers, active, i) <= taking_part(c, layers, active, n),
        i < n && takes_part(c, layers[i], active) ==> taking_part(c, layers, active, i)
            < taking_part(c, layers, active, n),
    decreases n,
{
    if i < n {
        lemma_count_grows(c, layers, active, i, n - 1);
    } else if n > 0 {
        lemma_count_grows(c, layers, active, n - 1, n - 1);
    }
}

/// A stroke is painted by the program of its brush type: pigments are mixed for a pigment brush
/// and only for it, a tint is laid on for a highlighter and only for it, and everything else is
/// painted plainly.
pub proof fn lemma_brush_type_decides_the_program(brush_type: BrushType)
    ensures
        program_of(brush_type) == BrushProgram::Pigment <==> brush_type == BrushType::Pigment,
        program_of(brush_type) == BrushProgram::Highlighter <==> brush_type
            == BrushType::Highlighter,
        program_of(brush_type) == BrushProgram::Plain <==> brush_type == BrushType::Normal
            || brush_type == BrushType::Unknown,
{
}

/// The stroke that a deposit is of has a sample, and it is being drawn or its layer is visible.
pub open spec fn is_seen(layers: Seq<LayerView>, d: Deposit, drawing: Option<StrokeId>) -> bool {
    &&& d.layer < layers.len()
    &&& d.stroke < layers[d.layer as int].strokes.len()
    &&& layers[d.layer as int].strokes[d.stroke as int].samples.len() > 0
    &&& layers[d.layer as int].visible || drawing == Some(
        layers[d.layer as int].strokes[d.stroke as int].id,
    )
}

/// The stroke that a deposit is of is the one being drawn.
pub open spec fn is_drawn(layers: Seq<LayerView>, d: Deposit, drawing: Option<StrokeId>) -> bool {
    drawing == Some(layers[d.layer as int].strokes[d.stroke as int].id)
}

/// One deposit comes before another: a stroke being drawn comes after all others, a lower layer
/// before a higher one, and an earlier stroke of a layer before a later one.
pub open spec fn comes_before(
    layers: Seq<LayerView>,
    d: Deposit,
    e: Deposit,
    drawing: Option<StrokeId>,
) -> bool {
    if is_drawn(layers, d, drawing) != is_drawn(layers, e, drawing) {
        is_drawn(layers, e, drawing)
    } else if d.layer != e.layer {
        d.layer < e.layer
    } else {
        d.stroke < e.stroke
    }
}

proof fn lemma_layer_deposits_are_seen(
    layers: Seq<LayerView>,
    k: int,
    n: int,
    drawing: Option<StrokeId>,
    drawn: bool,
)
    requires
        crate::compositor_laws::countable(layers),
        0 <= k < layers.len(),
        0 <= n <= layers[k].strokes.len(),
    ensures
        ({
            let all = layer_deposits(k, layers[k], n, drawing, drawn);
            &&& forall|d: Deposit| #[trigger]
                all.contains(d) <==> is_seen(layers, d, drawing) && d.layer == k
                    && d.stroke < n && is_drawn(layers, d, drawing) == drawn
            &&& forall|i: int, j: int|
                0 <= i < j < all.len() ==> comes_before(
                    layers,
                    #[trigger] all[i],
                    #[trigger] all[j],
                    drawing,
                )
        }),
    decreases n,
{
    let all = layer_deposits(k, layers[k], n, drawing, drawn);
    if n > 0 {
        lemma_layer_deposits_are_seen(layers, k, n - 1, drawing, drawn);
        let front = layer_deposits(k, layers[k], n - 1, drawing, drawn);
        let last = Deposit { layer: k as usize, stroke: (n - 1) as usize };
        assert forall|d: Deposit| #[trigger]
            all.contains(d) <==> is_seen(layers, d, drawing) && d.layer == k && d.stroke
                < n && is_drawn(layers, d, drawing) == drawn by {
            assert(front.contains(d) <==> is_seen(layers, d, drawing) && d.layer == k && d.stroke
                < n - 1 && is_drawn(layers, d, drawing) == drawn);
            if front.contains(d) {
                assert(all[front.index_of(d)] == d);
            }
            if all.contains(d) && !front.contains(d) {
                let i = all.index_of(d);
                assert(all[i] == d);
                if i < front.len() {
                    assert(front[i] == d);
                }
                assert(d == last);
            }
            if d.layer == k && d.stroke == n - 1 {
                assert(d == last);
                if is_seen(layers, d, drawing) && is_drawn(layers, d, drawing) == drawn {
                    assert(all[front.len() as int] == d);
                }
            }
        }
        assert forall|i: int, j: int| 0 <= i < j < all.len() implies comes_before(
            layers,
            #[trigger] all[i],
            #[trigger] all[j],
            drawing,
        ) by {
            assert(front.contains(front[i]));
            assert(is_seen(layers, front[i], drawing));
        }
    }
}

proof fn lemma_deposits_below_are_seen(
    layers: Seq<LayerView>,
    m: int,
    drawing: Option<StrokeId>,
    drawn: bool,
)
    requires
        crate::compositor_laws::countable(layers),
        0 <= m <= layers.len(),
    ensures
        ({
            let all = deposits_below(layers, m, drawing, drawn);
            &&& forall|d: Deposit| #[trigger]
                all.contains(d) <==> is_seen(layers, d, drawing) && d.layer < m
                    && is_drawn(layers, d, drawing) == drawn
            &&& forall|i: int, j: int|
                0 <= i < j < all.len() ==> comes_before(
                    layers,
                    #[trigger] all[i],
                    #[trigger] all[j],
                    drawing,
                )
        }),
    decreases m,
{
    let all = deposits_below(layers, m, drawing, drawn);
    if m > 0 {
        let front = deposits_below(layers, m - 1, drawing, drawn);
        let len = layers[m - 1].strokes.len() as int;
        let top = layer_deposits(m - 1, layers[m - 1], len, drawing, drawn);
        lemma_deposits_below_are_seen(layers, m - 1, drawing, drawn);
        lemma_layer_deposits_are_seen(layers, m - 1, len, drawing, drawn);
        assert forall|d: Deposit| #[trigger]
            all.contains(d) <==> is_seen(layers, d, drawing) && d.layer < m && is_drawn(
                layers,
                d,
                drawing,
            ) == drawn by {
            lemma_contains_of_both(front, top, d);
        }
        assert forall|i: int, j: int| 0 <= i < j < all.len() implies comes_before(
            layers,
            #[trigger] all[i],
            #[trigger] all[j],
            drawing,
        ) by {
            lemma_in_order_of_both(layers, front, top, i, j, drawing);
        }
    }
}

proof fn lemma_contains_of_both(a: Seq<Deposit>, b: Seq<Deposit>, d: Deposit)
    ensures
        (a + b).contains(d) <==> a.contains(d) || b.contains(d),
{
    let all = a + b;
    if a.contains(d) {
        assert(all[a.index_of(d)] == d);
    }
    if b.contains(d) {
        assert(all[a.len() + b.index_of(d)] == d);
    }
    if all.contains(d) {
        let i = all.index_of(d);
        if i < a.len() {
            assert(a[i] == d);
        } else {
            assert(b[i - a.len()] == d);
        }
    }
}

proof fn lemma_in_order_of_both(
    layers: Seq<LayerView>,
    a: Seq<Deposit>,
    b: Seq<Deposit>,
    i: int,
    j: int,
    drawing: Option<StrokeId>,
)
    requires
        0 <= i < j < (a + b).len(),
        forall|i: int, j: int|
            0 <= i < j < a.len() ==> comes_before(
                layers,
                #[trigger] a[i],
                #[trigger] a[j],
                drawing,
            ),
        forall|i: int, j: int|
            0 <= i < j < b.len() ==> comes_before(
                layers,
                #[trigger] b[i],
                #[trigger] b[j],
                drawing,
            ),
        forall|d: Deposit, e: Deposit| #[trigger]
            a.contains(d) && #[trigger] b.contains(e) ==> comes_before(layers, d, e, drawing),
    ensures
        comes_before(layers, (a + b)[i], (a + b)[j], drawing),
{
    if j < a.len() {
        assert((a + b)[i] == a[i] && (a + b)[j] == a[j]);
    } else if i >= a.len() {
        assert((a + b)[i] == b[i - a.len()] && (a + b)[j] == b[j - a.len()]);
    } else {
        assert(a.contains(a[i]) && b.contains(b[j - a.len()]));
    }
}

/// A frame deposits every stroke that has a sample and stands in a visible layer or is being
/// drawn, each exactly once, and no other: lower layers first, within a layer in the order of its
/// strokes, and the stroke being drawn after all others.
pub proof fn lemma_deposits_are_what_is_seen(layers: Seq<LayerView>, drawing: Option<StrokeId>)
    requires
        crate::compositor_laws::countable(layers),
    ensures
        ({
            let all = all_deposits(layers, drawing);
            &&& forall|d: Deposit| #[trigger]
                all.contains(d) <==> is_seen(layers, d, drawing)
            &&& forall|i: int, j: int|
                0 <= i < j < all.len() ==> comes_before(
                    layers,
                    #[trigger] all[i],
                    #[trigger] all[j],
                    drawing,
                )
        }),
{
    let all = all_deposits(layers, drawing);
    let m = layers.len() as int;
    let still = deposits_below(layers, m, drawing, false);
    let drawn = deposits_below(layers, m, drawing, true);
    lemma_deposits_below_are_seen(layers, m, drawing, false);
    lemma_deposits_below_are_seen(layers, m, drawing, true);
    assert forall|d: Deposit| #[trigger]
                all.contains(d) <==> is_seen(layers, d, drawing) by {
        lemma_contains_of_both(still, drawn, d);
    }
    assert forall|d: Deposit, e: Deposit| #[trigger]
        still.contains(d) && #[trigger] drawn.contains(e) implies comes_before(
        layers,
        d,
        e,
        drawing,
    ) by {
        assert(is_seen(layers, d, drawing) && is_seen(layers, e, drawing));
    }
    assert forall|i: int, j: int| 0 <= i < j < all.len() implies comes_before(
        layers,
        #[trigger] all[i],
        #[trigger] all[j],
        drawing,
    ) by {
        lemma_in_order_of_both(layers, still, drawn, i, j, drawing);
    }
}

/// The layers that get a substrate are those asked for that have none yet, each once.
pub proof fn lemma_missing_layers_get_a_substrate(keep: Seq<LayerId>, present: Set<u64>)
    ensures
        missing(keep, present).no_duplicates(),
        forall|id: LayerId| #[trigger]
            missing(keep, present).contains(id) <==> keep.contains(id) && !present.contains(
                id.number(),
            ),
    decreases keep.len(),
{
    if keep.len() > 0 {
        let front = keep.drop_last();
        let last = keep.last();
        lemma_missing_layers_get_a_substrate(front, present);
        let before = missing(front, present);
        let all = missing(keep, present);
        assert forall|id: LayerId| #[trigger]
            all.contains(id) <==> keep.contains(id) && !present.contains(id.number()) by {
            assert(before.contains(id) <==> front.contains(id) && !present.contains(id.number()));
            if front.contains(id) {
                assert(keep[front.index_of(id)] == id);
            }
            if keep.contains(id) && id != last {
                assert(front[keep.index_of(id)] == id);
            }
            if before.contains(id) {
                assert(all[before.index_of(id)] == id);
            }
            if all.contains(id) && all.len() > before.len() && id != last {
                assert(before[all.index_of(id)] == id);
            }
            if all.len() > before.len() {
                assert(all[before.len() as int] == last);
            }
            assert(keep[front.len() as int] == last);
        }
        assert(before.contains(last) <==> front.contains(last) && !present.contains(
            last.number(),
        ));
    }
}

} // verus!
