//! What holds of the engine over whole runs of commands.

use crate::brush::{lemma_max_width_keeps_order, lemma_min_width_keeps_order};
use crate::document::EditView;
use crate::document_laws::lemma_command_keeps_wf;
use crate::engine::{accepts_all, after_all, after_next, Command, EngineView};
use crate::history_laws::{
    coherent, lemma_command_keeps_coherence, lemma_new_engine_is_coherent,
    lemma_step_is_undone_and_redone, makes_step, mints_fresh,
};
use crate::layer_laws::{lemma_counter_steps_by_one, lemma_every_state_has_distinct_layers};
use vstd::prelude::*;

verus! {

/// A width or a ratio that the command sets is a number.
pub open spec fn sets_numbers(cmd: Command) -> bool {
    match cmd {
        Command::SetBrushMaxWidth(v) => !v.nan(),
        Command::SetBrushMinWidth(v) => !v.nan(),
        Command::SetBrushMinRatio(v) => !v.nan(),
        _ => true,
    }
}

/// Edits are of layers and strokes: the brush stays as it is.
proof fn lemma_edits_keep_brush(state: EngineView, edit: EditView)
    ensures
        crate::document::edited(edit, state.doc).brush == state.doc.brush,
        state.committed(edit).doc.brush == state.doc.brush,
{
}

/// While the widths of the brush are in order and the counter for layers lasts every command
/// can be carried out, and as long as the widths that it sets are numbers it leaves them in
/// order.
pub proof fn lemma_command_keeps_widths(state: EngineView, cmd: Command)
    requires
        state.doc.brush.widths_in_order(),
        sets_numbers(cmd),
    ensures
        state.next_layer < u64::MAX ==> state.accepts(cmd),
        state.after(cmd).doc.brush.widths_in_order(),
{
    match cmd {
        Command::SetBrushMaxWidth(v) => {
            lemma_max_width_keeps_order(state.doc.brush, v);
        },
        Command::SetBrushMinWidth(v) => {
            lemma_min_width_keeps_order(state.doc.brush, v);
        },
        Command::SetBrushMinRatio(v) => {
            lemma_min_width_keeps_order(state.doc.brush, v);
        },
        Command::Undo => {
            if state.history.past.len() > 0 {
                lemma_edits_keep_brush(state, state.history.past.last());
            }
        },
        Command::Redo => {
            if state.history.future.len() > 0 {
                lemma_edits_keep_brush(state, state.history.future.last());
            }
        },
        _ => {},
    }
}

/// The widths of a new engine's brush are in order.
pub proof fn lemma_new_widths_are_in_order()
    ensures
        EngineView::fresh().doc.brush.widths_in_order(),
{
}

/// Whole runs of commands whose widths are numbers can be carried out, as long as the counter
/// for layers lasts.
pub proof fn lemma_runs_are_accepted(state: EngineView, cmds: Seq<Command>)
    requires
        state.next_layer + cmds.len() <= u64::MAX,
        state.doc.brush.widths_in_order(),
        forall|i: int| 0 <= i < cmds.len() ==> sets_numbers(#[trigger] cmds[i]),
    ensures
        accepts_all(state, cmds),
        after_all(state, cmds).doc.brush.widths_in_order(),
        after_all(state, cmds).next_layer <= state.next_layer + cmds.len(),
    decreases cmds.len(),
{
    reveal(accepts_all);
    if cmds.len() > 0 {
        let front = cmds.drop_last();
        lemma_runs_are_accepted(state, front);
        let before = after_all(state, front);
        lemma_command_keeps_widths(before, cmds.last());
        lemma_counter_steps_by_one(before, cmds.last());
        reveal(after_next);
        assert forall|i: int| 0 <= i < cmds.len() implies after_all(state, cmds.take(i)).accepts(
            #[trigger] cmds[i],
        ) by {
            if i < front.len() {
                assert(cmds.take(i) =~= front.take(i));
                assert(front[i] == cmds[i]);
            } else {
                assert(cmds.take(i) =~= front);
            }
        }
    }
}

/// Each command of the run mints fresh identifiers when its turn comes.
pub open spec fn run_mints_fresh(state: EngineView, cmds: Seq<Command>) -> bool {
    forall|i: int|
        0 <= i < cmds.len() ==> mints_fresh(after_all(state, cmds.take(i)), #[trigger] cmds[i])
}

/// Whatever run of commands a new engine has carried out, its state is well-formed and its
/// history coherent, as long as stroke identifiers are not reused and the layer counter lasts:
/// so undo and redo are never refused.
pub proof fn lemma_every_state_is_coherent(cmds: Seq<Command>)
    requires
        run_mints_fresh(EngineView::fresh(), cmds),
    ensures
        after_all(EngineView::fresh(), cmds).wf(),
        coherent(after_all(EngineView::fresh(), cmds)),
    decreases cmds.len(),
{
    let start = EngineView::fresh();
    if cmds.len() == 0 {
        lemma_new_engine_is_coherent();
        assert(start.doc.layers[0].id == start.doc.active_layer);
    } else {
        let front = cmds.drop_last();
        assert forall|i: int| 0 <= i < front.len() implies mints_fresh(
            after_all(start, front.take(i)),
            #[trigger] front[i],
        ) by {
            assert(cmds.take(i) =~= front.take(i));
            assert(front[i] == cmds[i]);
        }
        lemma_every_state_is_coherent(front);
        let before = after_all(start, front);
        assert(cmds.take(cmds.len() - 1) =~= front);
        assert(mints_fresh(before, cmds[cmds.len() - 1]));
        lemma_command_keeps_wf(before, cmds.last());
        lemma_command_keeps_coherence(before, cmds.last());
        reveal(after_next);
    }
}

/// A step that a command made in any state that a new engine can reach can be undone and redone:
/// undo gives back the layers that were there before it, redo those that it made, and what the
/// history allows is then what it allowed before the undo. The one exception is a stroke whose
/// identifier its layer already holds: undo takes away the earlier of the two.
pub proof fn lemma_every_step_is_undone_and_redone(cmds: Seq<Command>, step: Command)
    requires
        cmds.len() + 3 <= u64::MAX,
        mints_fresh(after_all(EngineView::fresh(), cmds), step),
        makes_step(after_all(EngineView::fresh(), cmds), step),
        after_all(EngineView::fresh(), cmds).after(step).doc.active is None,
    ensures
        ({
            let before = after_all(EngineView::fresh(), cmds);
            let changed = before.after(step);
            let undone = changed.after(Command::Undo);
            let redone = undone.after(Command::Redo);
            &&& undone.doc.layers == before.doc.layers
            &&& undone.history.status().can_redo
            &&& redone.doc.layers == changed.doc.layers
            &&& redone.history.status() == changed.history.status()
        }),
{
    broadcast use crate::ids::lemma_layer_id_has_number;

    let before = after_all(EngineView::fresh(), cmds);
    lemma_every_state_has_distinct_layers(cmds);
    lemma_every_state_is_well_formed(cmds);
    assert(!crate::document::has_layer(
        before.doc.layers,
        crate::ids::LayerId::numbered(before.next_layer),
    )) by {
        reveal(crate::layer_laws::layers_in_order);
    }
    lemma_step_is_undone_and_redone(before, step);
}

/// Whatever run of commands a new engine has carried out, as long as the widths that it set are
/// numbers and the counter for layers lasts: no command was refused, there is a layer, no two
/// have the same identifier, the active one is among them, and so is the one that a stroke being
/// drawn is bound for.
pub proof fn lemma_every_state_is_sound(cmds: Seq<Command>)
    requires
        cmds.len() + 2 <= u64::MAX,
        forall|i: int| 0 <= i < cmds.len() ==> sets_numbers(#[trigger] cmds[i]),
    ensures
        ({
            let state = after_all(EngineView::fresh(), cmds);
            &&& accepts_all(EngineView::fresh(), cmds)
            &&& state.doc.layers.len() > 0
            &&& crate::document_laws::layers_are_distinct(state.doc.layers)
            &&& crate::document::has_layer(state.doc.layers, state.doc.active_layer)
            &&& state.doc.active is Some ==> crate::document::has_layer(
                state.doc.layers,
                state.doc.stroke_target(),
            )
        }),
{
    let start = EngineView::fresh();
    lemma_new_widths_are_in_order();
    lemma_runs_are_accepted(start, cmds);
    lemma_every_state_has_distinct_layers(cmds);
    lemma_every_state_is_well_formed(cmds);
}

/// Whatever run of commands a new engine has carried out, its state is well-formed.
pub proof fn lemma_every_state_is_well_formed(cmds: Seq<Command>)
    ensures
        after_all(EngineView::fresh(), cmds).wf(),
    decreases cmds.len(),
{
    let start = EngineView::fresh();
    if cmds.len() == 0 {
        assert(start.doc.layers[0].id == start.doc.active_layer);
    } else {
        lemma_every_state_is_well_formed(cmds.drop_last());
        lemma_command_keeps_wf(after_all(start, cmds.drop_last()), cmds.last());
        reveal(after_next);
    }
}

} // verus!
