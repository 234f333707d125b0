use vstd::prelude::*;

verus! {

/// The kinds of logic element.
///
/// `Input` is a source: it has no input slots and its output is set from
/// outside, never computed.
#[derive(PartialEq, Eq, Structural, Debug, Clone, Copy)]
pub enum GateType {
    And,
    Or,
    Not,
    Xor,
    Input,
}

/// A logic element: its kind, its number of input slots and the signal it
/// currently puts out.
#[derive(Debug, Clone, Copy)]
pub struct Gate {
    pub gate_type: GateType,
    pub input_count: usize,
    pub output: bool,
}

/// Every entry of `inputs` is `true`; holds of the empty sequence.
pub open spec fn all_true(inputs: Seq<bool>) -> bool {
    forall|i: int| 0 <= i < inputs.len() ==> inputs[i]
}

/// Some entry of `inputs` is `true`; fails of the empty sequence.
pub open spec fn any_true(inputs: Seq<bool>) -> bool {
    exists|i: int| 0 <= i < inputs.len() && inputs[i]
}

/// The number of entries of `inputs` that are `true`.
pub open spec fn count_true(inputs: Seq<bool>) -> nat
    decreases inputs.len(),
{
    if inputs.len() == 0 {
        0
    } else {
        count_true(inputs.drop_last()) + if inputs.last() { 1nat } else { 0nat }
    }
}

impl Gate {
    /// The signal this gate answers to an input vector.
    ///
    /// - `Input` answers its stored output, whatever the vector.
    /// - `And` answers `true` exactly when no entry is `false`.
    /// - `Or` answers `true` exactly when some entry is `true`.
    /// - `Xor` answers the parity of the number of `true` entries.
    /// - `Not` negates a vector of length one and answers `false` to any
    ///   other length.
    pub open spec fn response(self, inputs: Seq<bool>) -> bool {
        match self.gate_type {
            GateType::Input => self.output,
            GateType::And => all_true(inputs),
            GateType::Or => any_true(inputs),
            GateType::Xor => count_true(inputs) % 2 == 1,
            GateType::Not => inputs.len() == 1 && !inputs[0],
        }
    }

    /// A gate of the given kind and slot count whose output is `false`.
    pub fn new(gate_type: GateType, input_count: usize) -> (gate: Self)
        ensures
            gate == (Gate { gate_type, input_count, output: false }),
    {
        Gate { gate_type, input_count, output: false }
    }

    /// Computes this gate's answer to `inputs`; nothing is stored.
    pub fn evaluate_with_inputs(&self, inputs: &[bool]) -> (out: bool)
        ensures
            out == self.response(inputs@),
    {
        match self.gate_type {
            GateType::Input => self.output,
            GateType::And => {
                let mut i: usize = 0;
                while i < inputs.len()
                    invariant
                        self.gate_type == GateType::And,
                        i <= inputs.len(),
                        forall|j: int| 0 <= j < i ==> inputs@[j],
                    decreases inputs.len() - i,
                {
                    if !inputs[i] {
                        assert(!inputs@[i as int]);
                        return false;
                    }
                    i += 1;
                }
                true
            },
            GateType::Or => {
                let mut i: usize = 0;
                while i < inputs.len()
                    invariant
                        self.gate_type == GateType::Or,
                        i <= inputs.len(),
                        forall|j: int| 0 <= j < i ==> !inputs@[j],
                    decreases inputs.len() - i,
                {
                    if inputs[i] {
                        assert(inputs@[i as int]);
                        return true;
                    }
                    i += 1;
                }
                false
            },
            GateType::Not => {
                if inputs.len() != 1 {
                    false
                } else {
                    !inputs[0]
                }
            },
            GateType::Xor => {
                let mut count: usize = 0;
                let mut i: usize = 0;
                while i < inputs.len()
                    invariant
                        i <= inputs.len(),
                        count <= i,
                        count == count_true(inputs@.take(i as int)),
                    decreases inputs.len() - i,
                {
                    proof {
                        assert(inputs@.take(i + 1).drop_last() == inputs@.take(i as int));
                    }
                    if inputs[i] {
                        count += 1;
                    }
                    i += 1;
                }
                proof {
                    assert(inputs@.take(i as int) == inputs@);
                }
                count % 2 == 1
            },
        }
    }
}

} // verus!
