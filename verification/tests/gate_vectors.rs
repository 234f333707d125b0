use digital_logic_simulator::gate::{Gate, GateType};

// A gate is evaluated against one input vector after another; it holds no
// inputs itself and is not changed by any of it.

#[test]
fn gate_test_test_and_gate() {
    let gate = Gate::new(GateType::And, 2);
    let mut inputs = vec![true, true];
    assert_eq!(gate.evaluate_with_inputs(&inputs), true);

    inputs = vec![true, false];
    assert_eq!(gate.evaluate_with_inputs(&inputs), false);

    inputs = vec![false, false];
    assert_eq!(gate.evaluate_with_inputs(&inputs), false);

    assert_eq!(gate.output, false);
    assert_eq!(gate.input_count, 2);
}

#[test]
fn gate_test_test_or_gate() {
    let gate = Gate::new(GateType::Or, 2);
    let mut inputs = vec![false, false];
    assert_eq!(gate.evaluate_with_inputs(&inputs), false);

    inputs = vec![true, false];
    assert_eq!(gate.evaluate_with_inputs(&inputs), true);

    inputs = vec![true, true];
    assert_eq!(gate.evaluate_with_inputs(&inputs), true);

    assert_eq!(gate.output, false);
    assert_eq!(gate.input_count, 2);
}

#[test]
fn gate_test_test_xor_gate() {
    let gate = Gate::new(GateType::Xor, 2);
    let mut inputs = vec![false, false];
    assert_eq!(gate.evaluate_with_inputs(&inputs), false);

    inputs = vec![true, false];
    assert_eq!(gate.evaluate_with_inputs(&inputs), true);

    inputs = vec![true, true];
    assert_eq!(gate.evaluate_with_inputs(&inputs), false);

    assert_eq!(gate.output, false);
    assert_eq!(gate.input_count, 2);
}

#[test]
fn gate_test_test_not_gate() {
    let gate = Gate::new(GateType::Not, 1);
    let mut inputs = vec![false];
    assert_eq!(gate.evaluate_with_inputs(&inputs), true);

    inputs = vec![true];
    assert_eq!(gate.evaluate_with_inputs(&inputs), false);

    assert_eq!(gate.output, false);
    assert_eq!(gate.input_count, 1);
}
