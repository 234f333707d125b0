use std::collections::HashMap;
use vstd::prelude::*;

use crate::connection::{Connection, GateId};
use crate::gate::{Gate, GateType};
use crate::model::{extends, CircuitModel};

verus! {

broadcast use vstd::std_specs::hash::group_hash_axioms;

/// Why an output could not be set.
#[derive(PartialEq, Eq, Structural, Debug, Clone, Copy)]
pub enum InputError {
    /// The id names no gate of the circuit.
    NoSuchGate,
    /// A computing gate: only an input gate's output can be set.
    NotAnInput,
}

/// A logic circuit: gates, the connections between them, and the signal each
/// gate currently puts out.
///
/// Gates and connections are only ever added. A gate is known by its
/// `GateId`, the number of gates that were added before it.
pub struct Circuit {
    gates: Vec<Gate>,
    connections: Vec<Connection>,
}

impl View for Circuit {
    type V = CircuitModel;

    closed spec fn view(&self) -> CircuitModel {
        CircuitModel { gates: self.gates@, connections: self.connections@ }
    }
}

impl Circuit {
    /// An empty circuit.
    pub fn new() -> (circuit: Self)
        ensures
            circuit@ == CircuitModel::empty(),
    {
        Circuit { gates: Vec::new(), connections: Vec::new() }
    }

    /// Resolves one gate against the cache of the current pass and returns
    /// its signal.
    ///
    /// A gate that has an entry in the cache reads as that entry. Any other
    /// gate is computed, from its stored output if it is an input gate and
    /// else from the signals of the gates that drive it, which are resolved
    /// first, and is entered in the cache. No entry that the cache held is
    /// changed. `CircuitModel::resolve` says what is found and entered, step
    /// by step.
    pub fn evaluate_gate(&self, gate_id: GateId, cache: &mut HashMap<GateId, bool>) -> (out: bool)
        requires
            self@.wired(),
            old(cache)@.contains_key(gate_id) || self@.has_gate(gate_id),
        ensures
            (out, final(cache)@) == self@.resolve(gate_id, old(cache)@),
            extends(final(cache)@, old(cache)@),
            final(cache)@.contains_key(gate_id) && final(cache)@[gate_id] == out,
        decreases self@.unresolved(old(cache)@),
    {
        proof {
            self@.lemma_resolve_extends(gate_id, old(cache)@);
        }
        if let Some(cached_output) = cache.get(&gate_id) {
            return *cached_output;
        }
        let gate = self.gates[gate_id];
        if gate.gate_type == GateType::Input {
            cache.insert(gate_id, gate.output);
            return gate.output;
        }
        cache.insert(gate_id, false);
        let ghost marked = cache@;
        proof {
            crate::model::lemma_entry_resolves(self@.gates.len(), old(cache)@, gate_id, false);
        }
        let mut inputs = vec![false; gate.input_count];
        assert(inputs@ == self@.blank_inputs(gate_id));
        let mut k: usize = 0;
        while k < self.connections.len()
            invariant
                self@.wired(),
                self@.computes(gate_id),
                gate == self@.gates[gate_id as int],
                k <= self.connections.len(),
                (inputs@, cache@) == self@.gather(gate_id, k as nat, marked),
                self@.unresolved(marked) < self@.unresolved(old(cache)@),
            decreases self.connections.len() - k,
        {
            let wire = self.connections[k];
            proof {
                self@.lemma_gather_extends(gate_id, k as nat, marked);
                self@.lemma_gather_fills_slots(gate_id, k as nat, marked);
            }
            if wire.to == gate_id {
                let signal = self.evaluate_gate(wire.from, cache);
                inputs[wire.input_index] = signal;
            }
            k += 1;
        }
        let output = gate.evaluate_with_inputs(inputs.as_slice());
        cache.insert(gate_id, output);
        output
    }

    /// Evaluates the circuit: one pass that resolves every gate, in ascending
    /// order of id and from an empty cache, and then stores each signal found
    /// as the output of its gate.
    ///
    /// Every gate with no feedback loop upstream of it ends up with its
    /// signal; an input gate keeps the output it has. On a feedback loop the
    /// pass still ends, and what it leaves there is what `evaluated` says.
    pub fn evaluate(&mut self)
        requires
            old(self)@.wired(),
        ensures
            final(self)@ == old(self)@.evaluated(),
            forall|gate: GateId, depth: nat| #[trigger]
                old(self)@.grounded(gate, depth) ==> final(self)@.gates[gate as int].output
                    == old(self)@.signal(gate, depth),
    {
        let mut cache: HashMap<GateId, bool> = HashMap::new();
        let count = self.gates.len();
        let mut gate_id: usize = 0;
        while gate_id < count
            invariant
                self@ == old(self)@,
                self@.wired(),
                count == self.gates.len(),
                gate_id <= count,
                cache@ == self@.sweep(gate_id as nat),
            decreases count - gate_id,
        {
            self.evaluate_gate(gate_id, &mut cache);
            gate_id += 1;
        }
        proof {
            self@.lemma_sweep_covers(count as nat);
        }
        let mut gate_id: usize = 0;
        while gate_id < count
            invariant
                count == self.gates.len(),
                count == old(self)@.gates.len(),
                gate_id <= count,
                self.connections == old(self).connections,
                cache@ == old(self)@.sweep(count as nat),
                forall|gate: GateId| gate < count ==> #[trigger] cache@.contains_key(gate),
                forall|gate: int|
                    0 <= gate < gate_id ==> #[trigger] self.gates@[gate] == (Gate {
                        output: cache@[gate as usize],
                        ..old(self)@.gates[gate]
                    }),
                forall|gate: int|
                    gate_id <= gate < count ==> #[trigger] self.gates@[gate] == old(
                        self,
                    )@.gates[gate],
            decreases count - gate_id,
        {
            assert(cache@.contains_key(gate_id));
            if let Some(signal) = cache.get(&gate_id) {
                let mut gate = self.gates[gate_id];
                gate.output = *signal;
                self.gates[gate_id] = gate;
            }
            gate_id += 1;
        }
        assert(self@.gates =~= old(self)@.evaluated().gates);
        assert forall|gate: GateId, depth: nat| #[trigger]
            old(self)@.grounded(gate, depth) implies self@.gates[gate as int].output == old(
            self,
        )@.signal(gate, depth) by {
            old(self)@.lemma_evaluation_is_sound(gate, depth);
        }
    }

    /// Adds a gate of the given kind and slot count, with output `false`, and
    /// returns its id.
    pub fn add_gate(&mut self, gate_type: GateType, input_count: usize) -> (id: GateId)
        ensures
            id == old(self)@.gates.len(),
            final(self)@ == old(self)@.with_gate(gate_type, input_count),
    {
        let gate = Gate::new(gate_type, input_count);
        self.gates.push(gate);
        self.gates.len() - 1
    }

    /// Adds a connection from the output of `from` to slot `input_index` of
    /// `to`. Nothing is checked.
    pub fn add_connection(&mut self, from: GateId, to: GateId, input_index: usize)
        ensures
            final(self)@ == old(self)@.with_connection(from, to, input_index),
    {
        self.connections.push(Connection { from, to, input_index });
    }

    /// Sets the output of an input gate.
    ///
    /// Only an input gate's output can be set: to call this on another gate,
    /// or on an id that names none, breaks the contract.
    pub fn set_primary_input_value(&mut self, gate_id: GateId, value: bool)
        requires
            old(self)@.is_input(gate_id),
        ensures
            final(self)@ == old(self)@.with_output(gate_id, value),
    {
        let mut gate = self.gates[gate_id];
        vstd::pervasive::runtime_assert(gate.gate_type == GateType::Input);
        gate.output = value;
        self.gates[gate_id] = gate;
    }

    /// Sets the output of an input gate, or says why it cannot be set and
    /// leaves the circuit as it is.
    pub fn try_set_primary_input_value(&mut self, gate_id: GateId, value: bool) -> (done: Result<
        (),
        InputError,
    >)
        ensures
            match done {
                Ok(()) => old(self)@.is_input(gate_id) && final(self)@ == old(self)@.with_output(
                    gate_id,
                    value,
                ),
                Err(InputError::NoSuchGate) => !old(self)@.has_gate(gate_id) && final(self)@ == old(
                    self,
                )@,
                Err(InputError::NotAnInput) => old(self)@.computes(gate_id) && final(self)@ == old(
                    self,
                )@,
            },
    {
        if gate_id >= self.gates.len() {
            Err(InputError::NoSuchGate)
        } else if self.gates[gate_id].gate_type == GateType::Input {
            self.set_primary_input_value(gate_id, value);
            Ok(())
        } else {
            Err(InputError::NotAnInput)
        }
    }

    /// The output that a gate currently holds: what the last evaluation
    /// found, or what was set since, or `false` if neither has happened.
    pub fn get_output(&self, gate_id: GateId) -> (out: bool)
        requires
            self@.has_gate(gate_id),
        ensures
            out == self@.gates[gate_id as int].output,
    {
        self.gates[gate_id].output
    }

    /// Adds a connection from the output of `from` to slot `input_index` of
    /// `to`: another name for `add_connection`.
    pub fn connect(&mut self, from: GateId, to: GateId, input_index: usize)
        ensures
            final(self)@ == old(self)@.with_connection(from, to, input_index),
    {
        self.connections.push(Connection { from, to, input_index });
    }

    /// The number of gates. The ids in use are the numbers below it.
    pub fn gate_count(&self) -> (count: usize)
        ensures
            count == self@.gates.len(),
    {
        self.gates.len()
    }

    /// A copy of what the circuit holds under the given id, if it is a gate id.
    pub fn gate(&self, gate_id: GateId) -> (found: Option<Gate>)
        ensures
            match found {
                Some(gate) => self@.has_gate(gate_id) && gate == self@.gates[gate_id as int],
                None => !self@.has_gate(gate_id),
            },
    {
        if gate_id < self.gates.len() {
            Some(self.gates[gate_id])
        } else {
            None
        }
    }

    /// Whether the circuit can be evaluated as it is wired.
    pub fn can_evaluate(&self) -> (ok: bool)
        ensures
            ok == self@.wired(),
    {
        let mut k: usize = 0;
        while k < self.connections.len()
            invariant
                k <= self.connections.len(),
                forall|j: int|
                    #![trigger self@.connections[j]]
                    0 <= j < k && self@.computes(self@.connections[j].to) ==> {
                        &&& self@.has_gate(self@.connections[j].from)
                        &&& self@.connections[j].input_index < self@.gates[self@.connections[j].to as int].input_count
                    },
            decreases self.connections.len() - k,
        {
            let wire = self.connections[k];
            if wire.to < self.gates.len() {
                let target = self.gates[wire.to];
                if target.gate_type != GateType::Input && (wire.from >= self.gates.len()
                    || wire.input_index >= target.input_count) {
                    assert(self@.computes(self@.connections[k as int].to));
                    return false;
                }
            }
            k += 1;
        }
        true
    }

    /// The source of the earliest connection that ends on slot `slot` of
    /// `gate_id`, if there is one.
    pub fn earliest_source(&self, gate_id: GateId, slot: usize) -> (source: Option<GateId>)
        ensures
            source == self@.earliest_source(gate_id, slot, 0),
    {
        let mut k: usize = 0;
        while k < self.connections.len()
            invariant
                k <= self.connections.len(),
                self@.earliest_source(gate_id, slot, 0) == self@.earliest_source(
                    gate_id,
                    slot,
                    k as nat,
                ),
            decreases self.connections.len() - k,
        {
            let wire = self.connections[k];
            if wire.to == gate_id && wire.input_index == slot {
                return Some(wire.from);
            }
            k += 1;
        }
        None
    }

    /// The connections in order of insertion, each as `(from, to, input_index)`.
    pub fn connections(&self) -> (list: Vec<(GateId, GateId, usize)>)
        ensures
            list@.len() == self@.connections.len(),
            forall|k: int|
                0 <= k < list@.len() ==> #[trigger] list@[k] == (
                    self@.connections[k].from,
                    self@.connections[k].to,
                    self@.connections[k].input_index,
                ),
    {
        let mut list: Vec<(GateId, GateId, usize)> = Vec::new();
        let mut k: usize = 0;
        while k < self.connections.len()
            invariant
                k <= self.connections.len(),
                list@.len() == k,
                forall|j: int|
                    0 <= j < k ==> #[trigger] list@[j] == (
                        self@.connections[j].from,
                        self@.connections[j].to,
                        self@.connections[j].input_index,
                    ),
            decreases self.connections.len() - k,
        {
            let wire = self.connections[k];
            list.push((wire.from, wire.to, wire.input_index));
            k += 1;
        }
        list
    }
}

} // verus!
