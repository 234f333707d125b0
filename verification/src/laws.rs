use vstd::prelude::*;

use crate::connection::GateId;
use crate::gate::GateType;
use crate::model::{Cache, CircuitModel};

verus! {

/// Two circuits are wired alike, and their input gates outside `apart` hold
/// the same outputs. What their computing gates hold is left open.
pub open spec fn alike(a: CircuitModel, b: CircuitModel, apart: Set<GateId>) -> bool {
    &&& a.connections == b.connections
    &&& a.gates.len() == b.gates.len()
    &&& forall|gate: GateId|
        #![trigger a.gates[gate as int]]
        a.has_gate(gate) ==> {
            &&& a.gates[gate as int].gate_type == b.gates[gate as int].gate_type
            &&& a.gates[gate as int].input_count == b.gates[gate as int].input_count
            &&& a.is_input(gate) && !apart.contains(gate) ==> a.gates[gate as int].output
                == b.gates[gate as int].output
        }
}

/// Whatever a gate in `apart` drives is in `apart` too.
spec fn closed_downstream(a: CircuitModel, apart: Set<GateId>) -> bool {
    forall|k: int|
        #![trigger a.connections[k]]
        0 <= k < a.connections.len() && a.computes(a.connections[k].to) && apart.contains(
            a.connections[k].from,
        ) ==> apart.contains(a.connections[k].to)
}

/// Two caches hold entries for the same gates, with the same signal for each
/// gate outside `apart`.
spec fn agree(left: Cache, right: Cache, apart: Set<GateId>) -> bool {
    forall|gate: GateId|
        #![trigger left.contains_key(gate)]
        #![trigger right.contains_key(gate)]
        {
            &&& left.contains_key(gate) <==> right.contains_key(gate)
            &&& left.contains_key(gate) && !apart.contains(gate) ==> left[gate] == right[gate]
        }
}

/// Resolving a gate in two circuits that are alike, from caches that agree,
/// leaves caches that agree, and finds the same signal unless `gate` is in
/// `apart`.
proof fn lemma_resolve_alike(
    a: CircuitModel,
    b: CircuitModel,
    apart: Set<GateId>,
    gate: GateId,
    left: Cache,
    right: Cache,
)
    requires
        alike(a, b, apart),
        closed_downstream(a, apart),
        agree(left, right, apart),
    ensures
        agree(a.resolve(gate, left).1, b.resolve(gate, right).1, apart),
        !apart.contains(gate) ==> a.resolve(gate, left).0 == b.resolve(gate, right).0,
    decreases a.unresolved(left), 0nat,
{
    assert(left.contains_key(gate) <==> right.contains_key(gate));
    if !left.contains_key(gate) && a.has_gate(gate) {
        assert(a.gates[gate as int].gate_type == b.gates[gate as int].gate_type);
        if a.gates[gate as int].gate_type != GateType::Input {
            let upto = a.connections.len();
            crate::model::lemma_entry_resolves(a.gates.len(), left, gate, false);
            let left_marked = left.insert(gate, false);
            let right_marked = right.insert(gate, false);
            assert(agree(left_marked, right_marked, apart));
            lemma_gather_alike(a, b, apart, gate, upto, left_marked, right_marked);
            let left_done = a.gather(gate, upto, left_marked);
            let right_done = b.gather(gate, upto, right_marked);
            let left_out = a.gates[gate as int].response(left_done.0);
            let right_out = b.gates[gate as int].response(right_done.0);
            assert(agree(left_done.1.insert(gate, left_out), right_done.1.insert(gate, right_out), apart));
        } else {
            assert(agree(
                left.insert(gate, a.gates[gate as int].output),
                right.insert(gate, b.gates[gate as int].output),
                apart,
            ));
        }
    }
}

/// Gathering the inputs of a gate in two circuits that are alike, from caches
/// that agree, leaves caches that agree, and gathers the same input vector
/// unless `gate` is in `apart`.
proof fn lemma_gather_alike(
    a: CircuitModel,
    b: CircuitModel,
    apart: Set<GateId>,
    gate: GateId,
    upto: nat,
    left: Cache,
    right: Cache,
)
    requires
        alike(a, b, apart),
        closed_downstream(a, apart),
        agree(left, right, apart),
        a.computes(gate),
        upto <= a.connections.len(),
    ensures
        agree(a.gather(gate, upto, left).1, b.gather(gate, upto, right).1, apart),
        !apart.contains(gate) ==> a.gather(gate, upto, left).0 == b.gather(gate, upto, right).0,
    decreases a.unresolved(left), upto + 1,
{
    assert(a.gates[gate as int].input_count == b.gates[gate as int].input_count);
    if upto > 0 {
        let wire = a.connections[upto - 1];
        lemma_gather_alike(a, b, apart, gate, (upto - 1) as nat, left, right);
        let left_before = a.gather(gate, (upto - 1) as nat, left);
        let right_before = b.gather(gate, (upto - 1) as nat, right);
        if wire.to == gate {
            a.lemma_gather_extends(gate, (upto - 1) as nat, left);
            b.lemma_gather_extends(gate, (upto - 1) as nat, right);
            lemma_resolve_alike(a, b, apart, wire.from, left_before.1, right_before.1);
        }
    } else {
        assert(a.blank_inputs(gate) =~= b.blank_inputs(gate));
    }
}

/// Sweeps over two circuits that are alike leave caches that agree.
proof fn lemma_sweep_alike(a: CircuitModel, b: CircuitModel, apart: Set<GateId>, upto: nat)
    requires
        alike(a, b, apart),
        closed_downstream(a, apart),
    ensures
        agree(a.sweep(upto), b.sweep(upto), apart),
    decreases upto,
{
    if upto > 0 {
        lemma_sweep_alike(a, b, apart, (upto - 1) as nat);
        lemma_resolve_alike(
            a,
            b,
            apart,
            (upto - 1) as usize,
            a.sweep((upto - 1) as nat),
            b.sweep((upto - 1) as nat),
        );
    }
}

impl CircuitModel {
    /// Every entry of `cache` for an input gate is that gate's output.
    spec fn inputs_kept(self, cache: Cache) -> bool {
        forall|gate: GateId| #[trigger]
            cache.contains_key(gate) && self.is_input(gate) ==> cache[gate]
                == self.gates[gate as int].output
    }

    /// Resolving a gate enters input gates with their outputs.
    proof fn lemma_resolve_keeps_inputs(self, gate: GateId, cache: Cache)
        requires
            self.inputs_kept(cache),
        ensures
            self.inputs_kept(self.resolve(gate, cache).1),
        decreases self.unresolved(cache), 0nat,
    {
        if !cache.contains_key(gate) && self.computes(gate) {
            crate::model::lemma_entry_resolves(self.gates.len(), cache, gate, false);
            self.lemma_gather_keeps_inputs(gate, self.connections.len(), cache.insert(gate, false));
        }
    }

    /// Gathering inputs enters input gates with their outputs.
    proof fn lemma_gather_keeps_inputs(self, gate: GateId, upto: nat, cache: Cache)
        requires
            self.inputs_kept(cache),
        ensures
            self.inputs_kept(self.gather(gate, upto, cache).1),
        decreases self.unresolved(cache), upto + 1,
    {
        if upto > 0 {
            self.lemma_gather_keeps_inputs(gate, (upto - 1) as nat, cache);
            if self.connections[upto - 1].to == gate {
                self.lemma_gather_extends(gate, (upto - 1) as nat, cache);
                self.lemma_resolve_keeps_inputs(
                    self.connections[upto - 1].from,
                    self.gather(gate, (upto - 1) as nat, cache).1,
                );
            }
        }
    }

    /// Every entry that a sweep makes for an input gate is that gate's output.
    proof fn lemma_sweep_keeps_inputs(self, upto: nat)
        ensures
            self.inputs_kept(self.sweep(upto)),
        decreases upto,
    {
        if upto > 0 {
            self.lemma_sweep_keeps_inputs((upto - 1) as nat);
            self.lemma_resolve_keeps_inputs((upto - 1) as usize, self.sweep((upto - 1) as nat));
        }
    }

    /// An evaluation leaves an input gate with the output it had: what was
    /// set is what is read back.
    pub proof fn lemma_input_settles(self, gate: GateId)
        requires
            self.is_input(gate),
        ensures
            self.settled(gate) == self.gates[gate as int].output,
            self.evaluated().gates[gate as int].output == self.gates[gate as int].output,
    {
        self.lemma_sweep_keeps_inputs(self.gates.len());
        self.lemma_sweep_covers(self.gates.len());
        assert(self.sweep(self.gates.len()).contains_key(gate));
    }

    /// What an evaluation finds does not depend on the outputs that computing
    /// gates held before it: two circuits with the same wiring, the same
    /// kinds of gate and the same outputs of their input gates settle on the
    /// same signals.
    pub proof fn lemma_evaluation_reads_inputs_only(self, other: CircuitModel, gate: GateId)
        requires
            alike(self, other, Set::empty()),
        ensures
            self.settled(gate) == other.settled(gate),
    {
        let apart = Set::<GateId>::empty();
        lemma_sweep_alike(self, other, apart, self.gates.len());
        assert(self.sweep(self.gates.len()) =~= other.sweep(other.gates.len()));
    }

    /// An evaluation changes neither the wiring, nor the kinds and slot
    /// counts of the gates, nor the outputs of the input gates.
    proof fn lemma_evaluated_is_alike(self)
        ensures
            alike(self.evaluated(), self, Set::empty()),
    {
        let once = self.evaluated();
        assert forall|other: GateId| once.has_gate(other) implies {
            &&& (#[trigger] once.gates[other as int]).gate_type == self.gates[other as int].gate_type
            &&& once.gates[other as int].input_count == self.gates[other as int].input_count
            &&& once.is_input(other) ==> once.gates[other as int].output
                == self.gates[other as int].output
        } by {
            if self.is_input(other) {
                self.lemma_input_settles(other);
            }
        }
    }

    /// Evaluating twice in a row, with nothing changed in between, leaves
    /// every gate with the output that the first evaluation gave it.
    pub proof fn lemma_evaluate_idempotent(self, gate: GateId)
        requires
            self.has_gate(gate),
        ensures
            self.evaluated().evaluated().gates[gate as int].output
                == self.evaluated().gates[gate as int].output,
    {
        let once = self.evaluated();
        self.lemma_evaluated_is_alike();
        once.lemma_evaluation_reads_inputs_only(self, gate);
    }

    /// Reaching a gate over at most `steps` connections depends on the wiring
    /// and the kinds of gate alone.
    proof fn lemma_reaches_alike(self, other: CircuitModel, source: GateId, gate: GateId, steps: nat)
        requires
            alike(self, other, Set::empty()),
            self.reaches_within(source, gate, steps),
        ensures
            other.reaches_within(source, gate, steps),
        decreases steps,
    {
        if source != gate {
            let k = choose|k: int|
                #![trigger self.connections[k]]
                0 <= k < self.connections.len() && self.connections[k].to == gate && self.computes(
                    gate,
                ) && self.reaches_within(source, self.connections[k].from, (steps - 1) as nat);
            self.lemma_reaches_alike(other, source, self.connections[k].from, (steps - 1) as nat);
            assert(self.gates[gate as int].gate_type == other.gates[gate as int].gate_type);
            assert(other.connections[k].to == gate);
        }
    }

    /// Changing the output of one input gate changes what an evaluation finds
    /// only downstream of it: every gate that the input does not reach comes
    /// out as it would have without the change. In a circuit that has been
    /// evaluated, such a gate therefore keeps its output when the input is
    /// changed and the circuit evaluated again.
    pub proof fn lemma_reevaluation_is_local(self, input: GateId, value: bool, gate: GateId)
        requires
            self.is_input(input),
            self.has_gate(gate),
            !self.reaches(input, gate),
        ensures
            self.with_output(input, value).evaluated().gates[gate as int].output
                == self.evaluated().gates[gate as int].output,
            self.evaluated().with_output(input, value).evaluated().gates[gate as int].output
                == self.evaluated().gates[gate as int].output,
    {
        self.lemma_change_stays_downstream(input, value, gate);
        let once = self.evaluated();
        self.lemma_evaluated_is_alike();
        if once.reaches(input, gate) {
            let steps = choose|steps: nat| once.reaches_within(input, gate, steps);
            once.lemma_reaches_alike(self, input, gate, steps);
        }
        once.lemma_change_stays_downstream(input, value, gate);
        self.lemma_evaluate_idempotent(gate);
    }

    /// A gate that a changed input does not reach comes out as it would have
    /// without the change.
    proof fn lemma_change_stays_downstream(self, input: GateId, value: bool, gate: GateId)
        requires
            self.is_input(input),
            self.has_gate(gate),
            !self.reaches(input, gate),
        ensures
            self.with_output(input, value).evaluated().gates[gate as int].output
                == self.evaluated().gates[gate as int].output,
    {
        let apart = Set::<GateId>::new(|other: GateId| self.reaches(input, other));
        let changed = self.with_output(input, value);
        assert(self.reaches_within(input, input, 0));
        assert(alike(self, changed, apart));
        assert forall|k: int|
            #![trigger self.connections[k]]
            0 <= k < self.connections.len() && self.computes(self.connections[k].to)
                && apart.contains(self.connections[k].from) implies apart.contains(
                self.connections[k].to,
            ) by {
            let steps = choose|steps: nat|
                self.reaches_within(input, self.connections[k].from, steps);
            assert(self.reaches_within(input, self.connections[k].to, steps + 1));
        }
        lemma_sweep_alike(self, changed, apart, self.gates.len());
        self.lemma_sweep_covers(self.gates.len());
        assert(self.sweep(self.gates.len()).contains_key(gate));
        assert(!apart.contains(gate));
        assert(changed.settled(gate) == self.settled(gate));
    }
}

} // verus!
