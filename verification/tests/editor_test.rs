use digital_logic_simulator::circuit::Circuit;
use digital_logic_simulator::editor::{
    canvas_click, default_input_count, toggle_selection, CanvasAction,
};
use digital_logic_simulator::gate::GateType;

#[test]
fn slot_counts_by_kind() {
    assert_eq!(default_input_count(GateType::Input), 0);
    assert_eq!(default_input_count(GateType::Not), 1);
    assert_eq!(default_input_count(GateType::And), 2);
    assert_eq!(default_input_count(GateType::Or), 2);
    assert_eq!(default_input_count(GateType::Xor), 2);
}

#[test]
fn palette_click_selects_and_clears() {
    assert_eq!(toggle_selection(None, GateType::Or), Some(GateType::Or));
    assert_eq!(toggle_selection(Some(GateType::Or), GateType::Or), None);
    assert_eq!(toggle_selection(Some(GateType::Or), GateType::Xor), Some(GateType::Xor));
}

#[test]
fn first_click_on_a_gate_starts_a_connection() {
    for selected in [None, Some(GateType::And)] {
        for free in [false, true] {
            assert_eq!(
                canvas_click(None, selected, Some(4), free),
                (Some(4), CanvasAction::Nothing)
            );
        }
    }
}

#[test]
fn second_click_on_a_gate_ends_the_connection() {
    for selected in [None, Some(GateType::Not)] {
        for free in [false, true] {
            assert_eq!(
                canvas_click(Some(1), selected, Some(4), free),
                (None, CanvasAction::Connect { from: 1, to: 4 })
            );
            assert_eq!(
                canvas_click(Some(4), selected, Some(4), free),
                (None, CanvasAction::Connect { from: 4, to: 4 })
            );
        }
    }
}

#[test]
fn click_beside_the_gates_places_the_selected_kind() {
    for pending in [None, Some(2)] {
        assert_eq!(
            canvas_click(pending, Some(GateType::Xor), None, true),
            (pending, CanvasAction::Place { gate_type: GateType::Xor })
        );
        assert_eq!(
            canvas_click(pending, Some(GateType::Xor), None, false),
            (pending, CanvasAction::Nothing)
        );
        assert_eq!(canvas_click(pending, None, None, true), (pending, CanvasAction::Nothing));
        assert_eq!(canvas_click(pending, None, None, false), (pending, CanvasAction::Nothing));
    }
}

#[test]
fn drawn_connection_is_evaluated() {
    let mut circuit = Circuit::new();
    let input = circuit.add_gate(GateType::Input, default_input_count(GateType::Input));
    let not = circuit.add_gate(GateType::Not, default_input_count(GateType::Not));
    circuit.evaluate();
    assert_eq!(circuit.get_output(not), true);
    circuit.set_primary_input_value(input, true);

    let (pending, action) = canvas_click(None, None, Some(input), false);
    assert_eq!(action, CanvasAction::Nothing);
    let (pending, action) = canvas_click(pending, None, Some(not), false);
    assert_eq!(pending, None);
    match action {
        CanvasAction::Connect { from, to } => {
            circuit.connect(from, to, 0);
            assert!(circuit.can_evaluate());
            circuit.evaluate();
        }
        other => panic!("expected a connection, got {:?}", other),
    }
    assert_eq!(circuit.connections(), vec![(input, not, 0)]);
    assert_eq!(circuit.get_output(not), false);
}

#[test]
fn earliest_connection_to_a_slot() {
    let mut circuit = Circuit::new();
    let a = circuit.add_gate(GateType::Input, 0);
    let b = circuit.add_gate(GateType::Input, 0);
    let and = circuit.add_gate(GateType::And, 2);
    assert_eq!(circuit.earliest_source(and, 0), None);
    circuit.connect(b, and, 1);
    circuit.connect(a, and, 0);
    circuit.connect(b, and, 0);
    circuit.connect(a, a, 0);
    assert_eq!(circuit.earliest_source(and, 0), Some(a));
    assert_eq!(circuit.earliest_source(and, 1), Some(b));
    assert_eq!(circuit.earliest_source(and, 2), None);
    assert_eq!(circuit.earliest_source(a, 0), Some(a));
    assert_eq!(circuit.earliest_source(b, 0), None);
}
