//! The layers panel: the order of its rows, what its controls are called and which actions
//! they stand for.

use crate::brush::ONE;
use crate::float32::Float32;
use crate::ids::LayerId;
use crate::layer::{BlendMode, Layer};
use crate::ui::LayerAction;
use vstd::prelude::*;
use vstd::string::*;

verus! {

/// The name of a blend mode.
pub fn blend_mode_label(mode: BlendMode) -> (res: &'static str)
    ensures
        res@ == (match mode {
            BlendMode::Normal => "Normal"@,
            BlendMode::OklabMix => "Oklab Mix"@,
            BlendMode::Unknown => "Unknown (fallback)"@,
        }),
{
    match mode {
        BlendMode::Normal => "Normal",
        BlendMode::OklabMix => "Oklab Mix",
        BlendMode::Unknown => "Unknown (fallback)",
    }
}

/// What a blend mode does.
pub fn blend_mode_tooltip(mode: BlendMode) -> (res: &'static str)
    ensures
        res@ == (match mode {
            BlendMode::Normal => "Standard alpha-over: layer on top of below in linear RGB. The default."@,
            BlendMode::OklabMix => "Lerp in Oklab — perceptually-uniform colour midpoints. Two saturated layers blend to a midpoint that 'looks right' instead of the muddy linear-RGB lerp."@,
            BlendMode::Unknown => "Forward-compat fallback. This document was written by a newer build that introduced a blend mode this binary doesn't recognise; it renders as Normal."@,
        }),
{
    match mode {
        BlendMode::Normal => "Standard alpha-over: layer on top of below in linear RGB. The default.",
        BlendMode::OklabMix => "Lerp in Oklab — perceptually-uniform colour midpoints. Two saturated layers blend to a midpoint that 'looks right' instead of the muddy linear-RGB lerp.",
        BlendMode::Unknown => "Forward-compat fallback. This document was written by a newer build that introduced a blend mode this binary doesn't recognise; it renders as Normal.",
    }
}

/// The blend modes that can be chosen, in order. `Unknown` only shows where a document
/// carries it.
pub fn selectable_blend_modes() -> (res: Vec<BlendMode>)
    ensures
        res@ == seq![BlendMode::Normal, BlendMode::OklabMix],
{
    let mut res: Vec<BlendMode> = Vec::new();
    res.push(BlendMode::Normal);
    res.push(BlendMode::OklabMix);
    assert(res@ =~= seq![BlendMode::Normal, BlendMode::OklabMix]);
    res
}

/// The layer that row `row` shows. The first row shows the top of the stack, which is the
/// last layer.
pub fn layer_of_row(layers: &Vec<Layer>, row: usize) -> (res: &Layer)
    requires
        row < layers@.len(),
    ensures
        *res == layers@.reverse()[row as int],
{
    &layers[layers.len() - 1 - row]
}

/// The name of the layer that is added to a stack of `count` layers.
pub open spec fn added_name(count: nat) -> Seq<char> {
    "Layer "@ + crate::text::decimal(count + 1)
}

/// The first layer with the given id.
pub open spec fn is_position(layers: Seq<Layer>, id: LayerId, i: int) -> bool {
    &&& 0 <= i < layers.len()
    &&& layers[i].id == id
    &&& forall|j: int| 0 <= j < i ==> (#[trigger] layers[j]).id != id
}

/// Whether no layer has the given id.
pub open spec fn is_absent(layers: Seq<Layer>, id: LayerId) -> bool {
    forall|j: int| 0 <= j < layers.len() ==> (#[trigger] layers[j]).id != id
}

/// The position of the first layer with the given id.
pub fn position(layers: &Vec<Layer>, id: LayerId) -> (res: Option<usize>)
    ensures
        match res {
            Some(i) => is_position(layers@, id, i as int),
            None => is_absent(layers@, id),
        },
{
    let mut i: usize = 0;
    while i < layers.len()
        invariant
            i <= layers@.len(),
            forall|j: int| 0 <= j < i ==> (#[trigger] layers@[j]).id != id,
        decreases layers@.len() - i,
    {
        if layers[i].id == id {
            return Some(i);
        }
        i += 1;
    }
    None
}

/// The actions behind the buttons of the toolbar; a button without one is disabled.
#[derive(Debug, PartialEq)]
pub struct Toolbar {
    pub add: LayerAction,
    pub remove: Option<LayerAction>,
    pub move_up: Option<LayerAction>,
    pub move_down: Option<LayerAction>,
}

impl Toolbar {
    /// Adding names the new layer by the number that it has in the stack.
    pub open spec fn adds(self, layers: Seq<Layer>) -> bool {
        &&& self.add is AddLayer
        &&& self.add->name@ == added_name(layers.len())
    }

    /// The active layer can be removed unless it is the only one.
    pub open spec fn removes(self, layers: Seq<Layer>, active: LayerId) -> bool {
        self.remove == if layers.len() > 1 {
            Some(LayerAction::RemoveLayer(active))
        } else {
            None
        }
    }

    /// The active layer, at index `i`, moves one up unless it is on top, and one down unless
    /// it is at the bottom.
    pub open spec fn moves(self, layers: Seq<Layer>, active: LayerId, i: int) -> bool {
        &&& self.move_up == if i + 1 < layers.len() {
            Some(LayerAction::MoveLayer { id: active, new_index: (i + 1) as usize })
        } else {
            None
        }
        &&& self.move_down == if i > 0 {
            Some(LayerAction::MoveLayer { id: active, new_index: (i - 1) as usize })
        } else {
            None
        }
    }
}

/// What the buttons of the toolbar do for the given stack. Without the active layer in the
/// stack nothing can be moved.
pub fn toolbar(layers: &Vec<Layer>, active: LayerId) -> (res: Toolbar)
    requires
        layers@.len() < usize::MAX,
    ensures
        res.adds(layers@),
        res.removes(layers@, active),
        forall|i: int| is_position(layers@, active, i) ==> #[trigger] res.moves(layers@, active, i),
        is_absent(layers@, active) ==> res.move_up is None && res.move_down is None,
{
    let mut name = "Layer ".to_owned();
    crate::text::push_decimal(&mut name, layers.len() + 1);
    let add = LayerAction::AddLayer { name };
    let remove = if layers.len() > 1 {
        Some(LayerAction::RemoveLayer(active))
    } else {
        None
    };
    let place = position(layers, active);
    let move_up = match place {
        Some(i) => if i + 1 < layers.len() {
            Some(LayerAction::MoveLayer { id: active, new_index: i + 1 })
        } else {
            None
        },
        None => None,
    };
    let move_down = match place {
        Some(i) => if i > 0 {
            Some(LayerAction::MoveLayer { id: active, new_index: i - 1 })
        } else {
            None
        },
        None => None,
    };
    let res = Toolbar { add, remove, move_up, move_down };
    proof {
        assert forall|i: int| is_position(layers@, active, i) implies #[trigger] res.moves(
            layers@,
            active,
            i,
        ) by {
            if let Some(k) = place {
                assert(k as int == i) by {
                    if k < i {
                        assert(layers@[k as int].id != active);
                    }
                    if i < k {
                        assert(layers@[i].id != active);
                    }
                }
            } else {
                assert(layers@[i].id != active);
            }
        }
        if is_absent(layers@, active) {
            if let Some(k) = place {
                assert(layers@[k as int].id != active);
            }
        }
    }
    res
}

/// What a click on the eye of a layer does.
pub open spec fn eye_click(layer: Layer) -> LayerAction {
    LayerAction::SetLayerVisible { id: layer.id, visible: !layer.visible }
}

/// What a click on the name of a layer does.
pub open spec fn name_click(layer: Layer, active: LayerId) -> Option<LayerAction> {
    if layer.id == active {
        None
    } else {
        Some(LayerAction::SetActiveLayer(layer.id))
    }
}

/// What setting the opacity of a layer does.
pub open spec fn opacity_choice(layer: Layer, opacity: Float32) -> LayerAction {
    LayerAction::SetLayerOpacity {
        id: layer.id,
        opacity: opacity.clamped(Float32(0), Float32(ONE)),
    }
}

/// What a click on a blend mode does.
pub open spec fn mode_choice(layer: Layer, clicked: BlendMode) -> Option<LayerAction> {
    if clicked == layer.blend_mode {
        None
    } else {
        Some(LayerAction::SetLayerBlendMode { id: layer.id, mode: clicked })
    }
}

/// Clicking the eye of a layer shows it where it is hidden and hides it where it is shown.
pub fn toggle_visible(layer: &Layer) -> (res: LayerAction)
    ensures
        res == eye_click(*layer),
        res == (LayerAction::SetLayerVisible { id: layer.id, visible: !layer.visible }),
{
    LayerAction::SetLayerVisible { id: layer.id, visible: !layer.visible }
}

/// Clicking the name of a layer makes it the active one, unless it is.
pub fn choose_layer(layer: &Layer, active: LayerId) -> (res: Option<LayerAction>)
    ensures
        res == name_click(*layer, active),
        res == (if layer.id == active {
            None::<LayerAction>
        } else {
            Some(LayerAction::SetActiveLayer(layer.id))
        }),
{
    if layer.id == active {
        None
    } else {
        Some(LayerAction::SetActiveLayer(layer.id))
    }
}

/// Setting the opacity of a layer, within 0 and 1.
pub fn choose_opacity(layer: &Layer, opacity: Float32) -> (res: LayerAction)
    ensures
        res == opacity_choice(*layer, opacity),
        res == (LayerAction::SetLayerOpacity {
            id: layer.id,
            opacity: opacity.clamped(Float32(0), Float32(ONE)),
        }),
{
    LayerAction::SetLayerOpacity {
        id: layer.id,
        opacity: opacity.clamp(Float32(0), Float32(ONE)),
    }
}

/// A click on a blend mode acts only where it is not the layer's own.
pub fn choose_blend_mode(layer: &Layer, clicked: BlendMode) -> (res: Option<LayerAction>)
    ensures
        res == mode_choice(*layer, clicked),
        res == (if clicked == layer.blend_mode {
            None::<LayerAction>
        } else {
            Some(LayerAction::SetLayerBlendMode { id: layer.id, mode: clicked })
        }),
{
    if clicked == layer.blend_mode {
        None
    } else {
        Some(LayerAction::SetLayerBlendMode { id: layer.id, mode: clicked })
    }
}

/// Layers added to stacks of different heights get different names.
pub proof fn lemma_added_names_differ(m: nat, n: nat)
    requires
        m != n,
    ensures
        added_name(m) != added_name(n),
{
    if added_name(m) == added_name(n) {
        let k = "Layer "@.len() as int;
        assert(added_name(m).skip(k) =~= crate::text::decimal(m + 1));
        assert(added_name(n).skip(k) =~= crate::text::decimal(n + 1));
        crate::text::lemma_decimal_is_injective(m + 1, n + 1);
    }
}

} // verus!
