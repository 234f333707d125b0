use vstd::prelude::*;

use crate::connection::GateId;
use crate::gate::GateType;

verus! {

/// What a click on the canvas of a circuit editor asks for.
#[derive(PartialEq, Eq, Structural, Debug, Clone, Copy)]
pub enum CanvasAction {
    /// The circuit stays as it is.
    Nothing,
    /// Connect the output of `from` to slot 0 of `to`, then evaluate.
    Connect { from: GateId, to: GateId },
    /// Add a gate of this kind where the click fell, then evaluate.
    Place { gate_type: GateType },
}

/// The number of input slots that an editor gives a gate of each kind: none
/// to an input gate, one to `Not`, two to every other kind.
pub open spec fn spec_default_input_count(gate_type: GateType) -> usize {
    match gate_type {
        GateType::Input => 0,
        GateType::Not => 1,
        _ => 2,
    }
}

/// The number of input slots that an editor gives a gate of each kind.
#[verifier::when_used_as_spec(spec_default_input_count)]
pub fn default_input_count(gate_type: GateType) -> (count: usize)
    ensures
        count == spec_default_input_count(gate_type),
{
    match gate_type {
        GateType::Input => 0,
        GateType::Not => 1,
        _ => 2,
    }
}

/// The kind that is selected after a click on `clicked` in the palette: a
/// click on the selected kind clears the selection, a click on another kind
/// selects it.
pub fn toggle_selection(selected: Option<GateType>, clicked: GateType) -> (next: Option<GateType>)
    ensures
        next == if selected == Some(clicked) {
            None
        } else {
            Some(clicked)
        },
{
    match selected {
        Some(kind) => if kind == clicked {
            None
        } else {
            Some(clicked)
        },
        None => Some(clicked),
    }
}

/// What a click on the canvas leads to: where a connection is being drawn
/// from afterwards, and what is to be done to the circuit.
///
/// - A click on a gate while no connection is being drawn starts one there.
/// - A click on a gate while one is being drawn from `from` ends it: `from`
///   is to be connected to slot 0 of the clicked gate.
/// - A click beside every gate places a gate of the selected kind, if a kind
///   is selected and the spot is free; a connection that is being drawn
///   stays so.
pub open spec fn spec_canvas_click(
    connect_from: Option<GateId>,
    selected_gate: Option<GateType>,
    clicked_gate: Option<GateId>,
    position_free: bool,
) -> (Option<GateId>, CanvasAction) {
    match (clicked_gate, connect_from, selected_gate) {
        (Some(to), Some(from), _) => (None, CanvasAction::Connect { from, to }),
        (Some(to), None, _) => (Some(to), CanvasAction::Nothing),
        (None, _, Some(gate_type)) => if position_free {
            (connect_from, CanvasAction::Place { gate_type })
        } else {
            (connect_from, CanvasAction::Nothing)
        },
        (None, _, None) => (connect_from, CanvasAction::Nothing),
    }
}

/// Decides what a click on the canvas leads to.
///
/// `clicked_gate` is what lies under the pointer, if a gate does; `position_free`
/// says whether a new gate would fit where the click fell.
#[verifier::when_used_as_spec(spec_canvas_click)]
pub fn canvas_click(
    connect_from: Option<GateId>,
    selected_gate: Option<GateType>,
    clicked_gate: Option<GateId>,
    position_free: bool,
) -> (outcome: (Option<GateId>, CanvasAction))
    ensures
        outcome == spec_canvas_click(connect_from, selected_gate, clicked_gate, position_free),
{
    match clicked_gate {
        Some(to) => match connect_from {
            Some(from) => (None, CanvasAction::Connect { from, to }),
            None => (Some(to), CanvasAction::Nothing),
        },
        None => match selected_gate {
            Some(gate_type) => if position_free {
                (connect_from, CanvasAction::Place { gate_type })
            } else {
                (connect_from, CanvasAction::Nothing)
            },
            None => (connect_from, CanvasAction::Nothing),
        },
    }
}

} // verus!
