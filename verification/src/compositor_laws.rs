//! What the deposits of a frame are for the document that the frame shows.

use crate::compositor::{all_deposits, deposits_below, layer_deposits, leaves_mark, Deposit};
use crate::document::{visible_strokes, DocumentView};
use crate::ids::StrokeId;
use crate::layer::{LayerView, StrokeView};
use vstd::prelude::*;

verus! {

/// The strokes that have a sample, in order.
pub open spec fn with_samples(strokes: Seq<StrokeView>) -> Seq<StrokeView>
    decreases strokes.len(),
{
    if strokes.len() == 0 {
        seq![]
    } else {
        let front = with_samples(strokes.drop_last());
        if strokes.last().samples.len() > 0 {
            front.push(strokes.last())
        } else {
            front
        }
    }
}

/// The stroke that a deposit is of.
pub open spec fn stroke_of(layers: Seq<LayerView>, deposit: Deposit) -> StrokeView {
    layers[deposit.layer as int].strokes[deposit.stroke as int]
}

/// The strokes that deposits are of, in order.
pub open spec fn strokes_of(layers: Seq<LayerView>, deposits: Seq<Deposit>) -> Seq<StrokeView> {
    deposits.map_values(|d: Deposit| stroke_of(layers, d))
}

/// The stroke being drawn in a document.
pub open spec fn drawn(doc: DocumentView) -> Option<StrokeId> {
    match doc.active {
        Some(stroke) => Some(stroke.id),
        None => None,
    }
}

/// No stroke of the layers has the identifier.
pub open spec fn in_no_layer(layers: Seq<LayerView>, id: Option<StrokeId>) -> bool {
    forall|i: int, j: int|
        0 <= i < layers.len() && 0 <= j < layers[i].strokes.len() ==> id != Some(
            (#[trigger] layers[i].strokes[j]).id,
        )
}

/// The layers and the strokes in them can be counted.
pub open spec fn countable(layers: Seq<LayerView>) -> bool {
    &&& layers.len() <= usize::MAX
    &&& forall|i: int|
        0 <= i < layers.len() ==> (#[trigger] layers[i]).strokes.len() <= usize::MAX
}

proof fn lemma_with_samples_of_both(a: Seq<StrokeView>, b: Seq<StrokeView>)
    ensures
        with_samples(a + b) == with_samples(a) + with_samples(b),
    decreases b.len(),
{
    if b.len() == 0 {
        assert(a + b =~= a);
        assert(with_samples(a) + with_samples(b) =~= with_samples(a));
    } else {
        lemma_with_samples_of_both(a, b.drop_last());
        assert((a + b).drop_last() =~= a + b.drop_last());
        assert((a + b).last() == b.last());
        assert(with_samples(a + b) =~= with_samples(a) + with_samples(b));
    }
}

/// The first `n` strokes of layer `k` that are deposited, where none of them is being drawn.
proof fn lemma_layer_deposits(
    layers: Seq<LayerView>,
    k: int,
    n: int,
    drawing: Option<StrokeId>,
)
    requires
        0 <= k < layers.len() <= usize::MAX,
        0 <= n <= layers[k].strokes.len() <= usize::MAX,
        forall|j: int| 0 <= j < n ==> drawing != Some((#[trigger] layers[k].strokes[j]).id),
    ensures
        strokes_of(layers, layer_deposits(k, layers[k], n, drawing, false)) == (if layers[k].visible
        {
            with_samples(layers[k].strokes.take(n))
        } else {
            seq![]
        }),
        layer_deposits(k, layers[k], n, drawing, true) == Seq::<Deposit>::empty(),
    decreases n,
{
    let layer = layers[k];
    if n == 0 {
        assert(layer.strokes.take(0) =~= seq![]);
        assert(strokes_of(layers, layer_deposits(k, layer, 0, drawing, false)) =~= seq![]);
    } else {
        lemma_layer_deposits(layers, k, n - 1, drawing);
        let front = layer_deposits(k, layer, n - 1, drawing, false);
        let stroke = layer.strokes[n - 1];
        let deposit = Deposit { layer: k as usize, stroke: (n - 1) as usize };
        assert(layer.strokes.take(n).drop_last() =~= layer.strokes.take(n - 1));
        assert(layer.strokes.take(n).last() == stroke);
        assert(drawing != Some(stroke.id));
        assert(stroke_of(layers, deposit) == stroke);
        assert(strokes_of(layers, front.push(deposit)) =~= strokes_of(layers, front).push(stroke));
    }
}

/// The layers of the scene are those of the document, but that the stroke being drawn is on top
/// of layer `t`.
pub open spec fn holds_active_in(
    shown: Seq<LayerView>,
    layers: Seq<LayerView>,
    active: StrokeView,
    t: int,
) -> bool {
    &&& 0 <= t < layers.len()
    &&& shown == layers.update(
        t,
        LayerView { strokes: layers[t].strokes.push(active), ..layers[t] },
    )
}

/// What layer `k` of the scene deposits: what it did before, and the stroke being drawn where it
/// is on top of this layer.
proof fn lemma_shown_layer_deposits(
    shown: Seq<LayerView>,
    layers: Seq<LayerView>,
    active: StrokeView,
    t: int,
    k: int,
)
    requires
        holds_active_in(shown, layers, active, t),
        countable(shown),
        in_no_layer(layers, Some(active.id)),
        0 <= k < layers.len(),
    ensures
        ({
            let n = shown[k].strokes.len() as int;
            &&& strokes_of(shown, layer_deposits(k, shown[k], n, Some(active.id), false)) == (
            if layers[k].visible {
                with_samples(layers[k].strokes)
            } else {
                seq![]
            })
            &&& strokes_of(shown, layer_deposits(k, shown[k], n, Some(active.id), true)) == (
            if k == t && active.samples.len() > 0 {
                seq![active]
            } else {
                seq![]
            })
        }),
{
    let n = layers[k].strokes.len() as int;
    let id = Some(active.id);
    assert(shown[k].strokes.len() <= usize::MAX);
    assert forall|j: int| 0 <= j < n implies id != Some((#[trigger] shown[k].strokes[j]).id) by {
        assert(shown[k].strokes[j] == layers[k].strokes[j]);
    }
    lemma_layer_deposits(shown, k, n, id);
    assert(shown[k].strokes.take(n) =~= layers[k].strokes);
    assert(shown[k].visible == layers[k].visible);
    assert(strokes_of(shown, Seq::<Deposit>::empty()) =~= seq![]);
    if k == t {
        let deposit = Deposit { layer: k as usize, stroke: n as usize };
        assert(shown[k].strokes[n] == active);
        assert(!leaves_mark(shown[k], active, id, false));
        assert(stroke_of(shown, deposit) == active);
        assert(strokes_of(shown, Seq::<Deposit>::empty().push(deposit)) =~= seq![active]);
    }
}

proof fn lemma_strokes_of_both(layers: Seq<LayerView>, a: Seq<Deposit>, b: Seq<Deposit>)
    ensures
        strokes_of(layers, a + b) == strokes_of(layers, a) + strokes_of(layers, b),
{
    assert(strokes_of(layers, a + b) =~= strokes_of(layers, a) + strokes_of(layers, b));
}

proof fn lemma_shown_deposits(
    shown: Seq<LayerView>,
    layers: Seq<LayerView>,
    active: StrokeView,
    t: int,
    m: int,
)
    requires
        holds_active_in(shown, layers, active, t),
        countable(shown),
        in_no_layer(layers, Some(active.id)),
        0 <= m <= layers.len(),
    ensures
        strokes_of(shown, deposits_below(shown, m, Some(active.id), false)) == with_samples(
            visible_strokes(layers.take(m)),
        ),
        strokes_of(shown, deposits_below(shown, m, Some(active.id), true)) == (if t < m
            && active.samples.len() > 0 {
            seq![active]
        } else {
            seq![]
        }),
    decreases m,
{
    let id = Some(active.id);
    if m == 0 {
        assert(strokes_of(shown, Seq::<Deposit>::empty()) =~= seq![]);
        assert(layers.take(0) =~= seq![]);
    } else {
        let k = m - 1;
        let n = shown[k].strokes.len() as int;
        lemma_shown_deposits(shown, layers, active, t, k);
        lemma_shown_layer_deposits(shown, layers, active, t, k);
        lemma_strokes_of_both(
            shown,
            deposits_below(shown, k, id, false),
            layer_deposits(k, shown[k], n, id, false),
        );
        lemma_strokes_of_both(
            shown,
            deposits_below(shown, k, id, true),
            layer_deposits(k, shown[k], n, id, true),
        );
        assert(layers.take(m).drop_last() =~= layers.take(k));
        assert(layers.take(m).last() == layers[k]);
        let below = visible_strokes(layers.take(k));
        if layers[k].visible {
            lemma_with_samples_of_both(below, layers[k].strokes);
        } else {
            assert(below + Seq::<StrokeView>::empty() =~= below);
            assert(with_samples(below) + Seq::<StrokeView>::empty() =~= with_samples(below));
        }
        assert(Seq::<StrokeView>::empty() + seq![active] =~= seq![active]);
        assert(seq![active] + Seq::<StrokeView>::empty() =~= seq![active]);
        assert(Seq::<StrokeView>::empty() + Seq::<StrokeView>::empty() =~= seq![]);
    }
}

proof fn lemma_still_deposits(layers: Seq<LayerView>, m: int)
    requires
        countable(layers),
        0 <= m <= layers.len(),
    ensures
        strokes_of(layers, deposits_below(layers, m, None, false)) == with_samples(
            visible_strokes(layers.take(m)),
        ),
        deposits_below(layers, m, None, true) == Seq::<Deposit>::empty(),
    decreases m,
{
    if m == 0 {
        assert(strokes_of(layers, Seq::<Deposit>::empty()) =~= seq![]);
        assert(layers.take(0) =~= seq![]);
    } else {
        let k = m - 1;
        let n = layers[k].strokes.len() as int;
        lemma_still_deposits(layers, k);
        assert(layers[k].strokes.len() <= usize::MAX);
        lemma_layer_deposits(layers, k, n, None);
        lemma_strokes_of_both(
            layers,
            deposits_below(layers, k, None, false),
            layer_deposits(k, layers[k], n, None, false),
        );
        assert(layers[k].strokes.take(n) =~= layers[k].strokes);
        assert(layers.take(m).drop_last() =~= layers.take(k));
        assert(layers.take(m).last() == layers[k]);
        let below = visible_strokes(layers.take(k));
        if layers[k].visible {
            lemma_with_samples_of_both(below, layers[k].strokes);
        } else {
            assert(below + Seq::<StrokeView>::empty() =~= below);
            assert(with_samples(below) + Seq::<StrokeView>::empty() =~= with_samples(below));
        }
        assert(Seq::<Deposit>::empty() + Seq::<Deposit>::empty() =~= Seq::<Deposit>::empty());
    }
}

/// A frame deposits the strokes that its scene shows: each one that has a sample exactly once,
/// in the order of the scene, and nothing else. A hidden layer deposits nothing but the stroke
/// being drawn.
pub proof fn lemma_frame_deposits_what_the_scene_shows(doc: DocumentView)
    requires
        doc.active is Some ==> crate::document::has_layer(doc.layers, doc.stroke_target())
            && in_no_layer(doc.layers, drawn(doc)),
        countable(doc.scene().layers),
    ensures
        strokes_of(doc.scene().layers, all_deposits(doc.scene().layers, drawn(doc)))
            == with_samples(doc.scene().strokes),
{
    let shown = doc.scene().layers;
    let len = shown.len() as int;
    lemma_strokes_of_both(
        shown,
        deposits_below(shown, len, drawn(doc), false),
        deposits_below(shown, len, drawn(doc), true),
    );
    assert(doc.layers.take(doc.layers.len() as int) =~= doc.layers);
    match doc.active {
        Some(active) => {
            let t = crate::document::layer_index(doc.layers, doc.stroke_target());
            crate::document::lemma_layer_index_exists(doc.layers, doc.stroke_target());
            lemma_shown_deposits(shown, doc.layers, active, t, len);
            let visible = visible_strokes(doc.layers);
            assert(visible.push(active).drop_last() =~= visible);
            assert(with_samples(visible) + Seq::<StrokeView>::empty() =~= with_samples(visible));
            assert(with_samples(visible) + seq![active] =~= with_samples(visible).push(active));
        },
        None => {
            lemma_still_deposits(shown, len);
            assert(strokes_of(shown, Seq::<Deposit>::empty()) =~= seq![]);
            let visible = with_samples(visible_strokes(doc.layers));
            assert(visible + Seq::<StrokeView>::empty() =~= visible);
        },
    }
}

} // verus!
