use vstd::prelude::*;

use crate::connection::GateId;
use crate::gate::GateType;
use crate::model::CircuitModel;

verus! {

impl CircuitModel {
    /// Which gate drives slot `slot` of `gate`, going by the first `upto`
    /// connections: the source of the last of them that ends on that slot.
    /// `None` where no connection does.
    pub open spec fn driver(self, gate: GateId, slot: int, upto: nat) -> Option<GateId>
        decreases upto,
    {
        if upto == 0 {
            None
        } else {
            let wire = self.connections[upto - 1];
            if wire.to == gate && wire.input_index == slot {
                Some(wire.from)
            } else {
                self.driver(gate, slot, (upto - 1) as nat)
            }
        }
    }

    /// No feedback loop lies upstream of `gate`: every chain of connections
    /// that is followed back from it ends, after at most `depth` connections,
    /// at an input gate or at a gate without incoming connections.
    pub open spec fn grounded(self, gate: GateId, depth: nat) -> bool
        decreases depth,
    {
        &&& self.has_gate(gate)
        &&& self.gates[gate as int].gate_type != GateType::Input ==> {
            &&& depth > 0
            &&& forall|k: int|
                #![trigger self.connections[k]]
                0 <= k < self.connections.len() && self.connections[k].to == gate
                    ==> self.grounded(self.connections[k].from, (depth - 1) as nat)
        }
    }

    /// The signal of `gate` as its wiring defines it, followed `depth`
    /// connections back.
    ///
    /// An input gate has its stored output. A computing gate has its answer
    /// to the signals that arrive at its slots. At depth zero a computing
    /// gate counts as `false`; for a gate that is `grounded` at `depth` that
    /// case is never reached, and the signal is the same at every greater
    /// depth.
    pub open spec fn signal(self, gate: GateId, depth: nat) -> bool
        decreases depth, 0nat,
    {
        if self.gates[gate as int].gate_type == GateType::Input {
            self.gates[gate as int].output
        } else if depth == 0 {
            false
        } else {
            self.gates[gate as int].response(self.arriving(gate, (depth - 1) as nat))
        }
    }

    /// The signals that arrive at the slots of `gate`, each driver followed
    /// `depth` connections back: for each slot the signal of its driver, and
    /// `false` where nothing drives it.
    pub open spec fn arriving(self, gate: GateId, depth: nat) -> Seq<bool>
        decreases depth, 1nat,
    {
        Seq::new(
            self.gates[gate as int].input_count as nat,
            |slot: int|
                match self.driver(gate, slot, self.connections.len()) {
                    Some(source) => self.signal(source, depth),
                    None => false,
                },
        )
    }

    /// The output of `source` can make its way to `gate` over at most `steps`
    /// connections that an evaluation follows.
    pub open spec fn reaches_within(self, source: GateId, gate: GateId, steps: nat) -> bool
        decreases steps,
    {
        ||| source == gate
        ||| steps > 0 && exists|k: int|
            #![trigger self.connections[k]]
            0 <= k < self.connections.len() && self.connections[k].to == gate && self.computes(gate)
                && self.reaches_within(source, self.connections[k].from, (steps - 1) as nat)
    }

    /// `gate` lies downstream of `source`: it is `source` itself or a chain
    /// of connections leads from `source` to it.
    pub open spec fn reaches(self, source: GateId, gate: GateId) -> bool {
        exists|steps: nat| self.reaches_within(source, gate, steps)
    }
}

} // verus!
