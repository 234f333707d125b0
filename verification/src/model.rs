use vstd::prelude::*;

use crate::connection::{Connection, GateId};
use crate::gate::{Gate, GateType};

verus! {

/// The evaluation cache of one pass: the signals resolved so far, by gate id.
pub type Cache = Map<GateId, bool>;

/// What a circuit is made of: its gates in order of creation, so that a gate's
/// id is its index, and its connections in order of insertion.
pub struct CircuitModel {
    pub gates: Seq<Gate>,
    pub connections: Seq<Connection>,
}

/// How many ids below `upto` have no entry in `cache`.
pub open spec fn unresolved_below(upto: nat, cache: Cache) -> nat
    decreases upto,
{
    if upto == 0 {
        0
    } else {
        unresolved_below((upto - 1) as nat, cache) + if cache.contains_key((upto - 1) as usize) {
            0nat
        } else {
            1nat
        }
    }
}

/// `large` keeps every entry of `small`.
pub open spec fn extends(large: Cache, small: Cache) -> bool {
    forall|gate: GateId| #[trigger]
        small.contains_key(gate) ==> large.contains_key(gate) && large[gate] == small[gate]
}

impl CircuitModel {
    /// The circuit without gates or connections.
    pub open spec fn empty() -> Self {
        CircuitModel { gates: Seq::empty(), connections: Seq::empty() }
    }

    /// `gate` is the id of a gate of this circuit.
    pub open spec fn has_gate(self, gate: GateId) -> bool {
        gate < self.gates.len()
    }

    /// `gate` is an input gate of this circuit.
    pub open spec fn is_input(self, gate: GateId) -> bool {
        self.has_gate(gate) && self.gates[gate as int].gate_type == GateType::Input
    }

    /// `gate` is a gate of this circuit that computes its output from its
    /// input slots: any gate but an input gate.
    pub open spec fn computes(self, gate: GateId) -> bool {
        self.has_gate(gate) && self.gates[gate as int].gate_type != GateType::Input
    }

    /// The circuit can be evaluated: every connection into a computing gate
    /// comes from a gate of the circuit and lands on one of the target's slots.
    ///
    /// Connections into an input gate, or into a gate that does not exist, are
    /// never followed and may hold anything.
    pub open spec fn wired(self) -> bool {
        forall|k: int|
            #![trigger self.connections[k]]
            0 <= k < self.connections.len() && self.computes(self.connections[k].to) ==> {
                &&& self.has_gate(self.connections[k].from)
                &&& self.connections[k].input_index < self.gates[self.connections[k].to as int].input_count
            }
    }

    /// This circuit with one more gate, of the given kind and slot count,
    /// whose output is `false`.
    pub open spec fn with_gate(self, gate_type: GateType, input_count: usize) -> Self {
        CircuitModel {
            gates: self.gates.push(Gate { gate_type, input_count, output: false }),
            connections: self.connections,
        }
    }

    /// This circuit with one more connection, inserted last.
    pub open spec fn with_connection(self, from: GateId, to: GateId, input_index: usize) -> Self {
        CircuitModel {
            gates: self.gates,
            connections: self.connections.push(Connection { from, to, input_index }),
        }
    }

    /// This circuit with the output of `gate` set to `value`.
    pub open spec fn with_output(self, gate: GateId, value: bool) -> Self {
        CircuitModel {
            gates: self.gates.update(
                gate as int,
                Gate { output: value, ..self.gates[gate as int] },
            ),
            connections: self.connections,
        }
    }

    /// The source of the earliest connection, from the one at `start` on, that
    /// ends on slot `slot` of `gate`. `None` where there is no such connection.
    pub open spec fn earliest_source(self, gate: GateId, slot: usize, start: nat) -> Option<GateId>
        decreases self.connections.len() - start,
    {
        if start >= self.connections.len() {
            None
        } else if self.connections[start as int].to == gate
            && self.connections[start as int].input_index == slot {
            Some(self.connections[start as int].from)
        } else {
            self.earliest_source(gate, slot, start + 1)
        }
    }

    /// How many gates of the circuit have no entry in `cache`.
    pub open spec fn unresolved(self, cache: Cache) -> nat {
        unresolved_below(self.gates.len(), cache)
    }

    /// The input vector of `gate` before any connection is followed: every
    /// slot `false`.
    pub open spec fn blank_inputs(self, gate: GateId) -> Seq<bool> {
        Seq::new(self.gates[gate as int].input_count as nat, |slot: int| false)
    }

    /// Resolving `gate` against `cache`: the signal found and the cache left
    /// behind.
    ///
    /// - A gate with an entry reads as that entry; the cache stays as it is.
    /// - An input gate reads as its stored output, which is entered.
    /// - A computing gate is first entered as `false`; then its input
    ///   vector is gathered, which resolves the gates that drive it; then its
    ///   answer to that vector replaces the entry. A gate that is reached
    ///   again while its own inputs are being gathered, as happens on a
    ///   feedback loop, therefore reads as `false`.
    pub open spec fn resolve(self, gate: GateId, cache: Cache) -> (bool, Cache)
        decreases self.unresolved(cache), 0nat,
    {
        if cache.contains_key(gate) {
            (cache[gate], cache)
        } else if !self.has_gate(gate) {
            (false, cache)
        } else if self.gates[gate as int].gate_type == GateType::Input {
            (self.gates[gate as int].output, cache.insert(gate, self.gates[gate as int].output))
        } else {
            proof {
                lemma_entry_resolves(self.gates.len(), cache, gate, false);
            }
            let gathered = self.gather(gate, self.connections.len(), cache.insert(gate, false));
            let out = self.gates[gate as int].response(gathered.0);
            (out, gathered.1.insert(gate, out))
        }
    }

    /// Gathering the inputs of `gate` from the first `upto` connections,
    /// starting from `cache`: the input vector and the cache left behind.
    ///
    /// The connections are taken in order of insertion. Each one that ends at
    /// `gate` resolves its source and writes the signal into its slot, so a
    /// later connection to the same slot overwrites an earlier one. Slots that
    /// no connection reaches stay `false`.
    ///
    /// Resolving never removes an entry, so the condition on `unresolved`
    /// always holds (`lemma_gather_step`); it is there to make the definition
    /// well-founded by itself.
    pub open spec fn gather(self, gate: GateId, upto: nat, cache: Cache) -> (Seq<bool>, Cache)
        decreases self.unresolved(cache), upto + 1,
    {
        if upto == 0 {
            (self.blank_inputs(gate), cache)
        } else {
            let before = self.gather(gate, (upto - 1) as nat, cache);
            let wire = self.connections[upto - 1];
            if wire.to == gate && self.unresolved(before.1) <= self.unresolved(cache) {
                let driven = self.resolve(wire.from, before.1);
                (before.0.update(wire.input_index as int, driven.0), driven.1)
            } else {
                before
            }
        }
    }

    /// The cache after the gates below `upto` have been resolved in ascending
    /// order of id, starting from an empty cache.
    pub open spec fn sweep(self, upto: nat) -> Cache
        decreases upto,
    {
        if upto == 0 {
            Map::empty()
        } else {
            self.resolve((upto - 1) as usize, self.sweep((upto - 1) as nat)).1
        }
    }

    /// The signal that one evaluation pass finds for `gate`.
    pub open spec fn settled(self, gate: GateId) -> bool {
        self.sweep(self.gates.len())[gate]
    }

    /// This circuit after one evaluation pass: every gate puts out the signal
    /// that the pass found for it, and nothing else has changed.
    pub open spec fn evaluated(self) -> Self {
        CircuitModel {
            gates: Seq::new(
                self.gates.len(),
                |gate: int| Gate { output: self.settled(gate as usize), ..self.gates[gate] },
            ),
            connections: self.connections,
        }
    }
}

/// An entry for a missing id below `upto` leaves fewer ids unresolved.
pub proof fn lemma_entry_resolves(upto: nat, cache: Cache, gate: GateId, signal: bool)
    requires
        gate < upto,
        !cache.contains_key(gate),
    ensures
        unresolved_below(upto, cache.insert(gate, signal)) < unresolved_below(upto, cache),
    decreases upto,
{
    if upto - 1 == gate {
        lemma_growth_resolves((upto - 1) as nat, cache, cache.insert(gate, signal));
    } else {
        lemma_entry_resolves((upto - 1) as nat, cache, gate, signal);
    }
}

/// A cache with more entries leaves no more ids unresolved.
pub proof fn lemma_growth_resolves(upto: nat, small: Cache, large: Cache)
    requires
        forall|gate: GateId| #[trigger] small.contains_key(gate) ==> large.contains_key(gate),
    ensures
        unresolved_below(upto, large) <= unresolved_below(upto, small),
    decreases upto,
{
    if upto > 0 {
        lemma_growth_resolves((upto - 1) as nat, small, large);
    }
}

impl CircuitModel {
    /// Resolving a gate keeps every entry of the cache, adds entries for gates
    /// of the circuit only, and leaves the resolved gate entered with the
    /// signal that was found.
    pub proof fn lemma_resolve_extends(self, gate: GateId, cache: Cache)
        ensures
            extends(self.resolve(gate, cache).1, cache),
            self.unresolved(self.resolve(gate, cache).1) <= self.unresolved(cache),
            forall|other: GateId| #[trigger]
                self.resolve(gate, cache).1.contains_key(other) ==> cache.contains_key(other)
                    || self.has_gate(other),
            cache.contains_key(gate) || self.has_gate(gate) ==> {
                &&& self.resolve(gate, cache).1.contains_key(gate)
                &&& self.resolve(gate, cache).1[gate] == self.resolve(gate, cache).0
            },
        decreases self.unresolved(cache), 0nat,
    {
        if !cache.contains_key(gate) && self.computes(gate) {
            let marked = cache.insert(gate, false);
            lemma_entry_resolves(self.gates.len(), cache, gate, false);
            self.lemma_gather_extends(gate, self.connections.len(), marked);
            let gathered = self.gather(gate, self.connections.len(), marked);
            let out = self.gates[gate as int].response(gathered.0);
            let done = gathered.1.insert(gate, out);
            assert forall|other: GateId| #[trigger]
                cache.contains_key(other) implies done.contains_key(other) && done[other]
                == cache[other] by {
                assert(marked.contains_key(other));
            }
            lemma_growth_resolves(self.gates.len(), cache, done);
        } else if !cache.contains_key(gate) && self.has_gate(gate) {
            lemma_growth_resolves(
                self.gates.len(),
                cache,
                cache.insert(gate, self.gates[gate as int].output),
            );
        }
    }

    /// Gathering inputs keeps every entry of the cache and adds entries for
    /// gates of the circuit only.
    pub proof fn lemma_gather_extends(self, gate: GateId, upto: nat, cache: Cache)
        ensures
            extends(self.gather(gate, upto, cache).1, cache),
            self.unresolved(self.gather(gate, upto, cache).1) <= self.unresolved(cache),
            forall|other: GateId| #[trigger]
                self.gather(gate, upto, cache).1.contains_key(other) ==> cache.contains_key(other)
                    || self.has_gate(other),
        decreases self.unresolved(cache), upto + 1,
    {
        if upto > 0 {
            self.lemma_gather_extends(gate, (upto - 1) as nat, cache);
            let before = self.gather(gate, (upto - 1) as nat, cache);
            let wire = self.connections[upto - 1];
            if wire.to == gate {
                self.lemma_resolve_extends(wire.from, before.1);
                let driven = self.resolve(wire.from, before.1);
                assert forall|other: GateId| #[trigger]
                    cache.contains_key(other) implies driven.1.contains_key(other)
                    && driven.1[other] == cache[other] by {
                    assert(before.1.contains_key(other));
                }
            }
        }
    }

    /// One more connection that ends at `gate` resolves its source against
    /// the cache gathered so far and writes the signal into its slot; any
    /// other connection changes nothing.
    pub proof fn lemma_gather_step(self, gate: GateId, upto: nat, cache: Cache)
        requires
            upto > 0,
        ensures
            ({
                let before = self.gather(gate, (upto - 1) as nat, cache);
                let wire = self.connections[upto - 1];
                let driven = self.resolve(wire.from, before.1);
                self.gather(gate, upto, cache) == if wire.to == gate {
                    (before.0.update(wire.input_index as int, driven.0), driven.1)
                } else {
                    before
                }
            }),
    {
        self.lemma_gather_extends(gate, (upto - 1) as nat, cache);
    }

    /// In a circuit that can be evaluated, the gathered input vector of a
    /// computing gate has one entry for each of its slots.
    pub proof fn lemma_gather_fills_slots(self, gate: GateId, upto: nat, cache: Cache)
        requires
            self.wired(),
            self.computes(gate),
            upto <= self.connections.len(),
        ensures
            self.gather(gate, upto, cache).0.len() == self.gates[gate as int].input_count,
        decreases upto,
    {
        if upto > 0 {
            self.lemma_gather_fills_slots(gate, (upto - 1) as nat, cache);
            assert(self.connections[upto - 1].to == gate ==> self.connections[upto
                - 1].input_index < self.gates[gate as int].input_count);
        }
    }

    /// A sweep over the gates below `upto` leaves each of them entered, and
    /// enters gates of the circuit only.
    pub proof fn lemma_sweep_covers(self, upto: nat)
        requires
            upto <= self.gates.len(),
        ensures
            forall|gate: GateId| gate < upto ==> #[trigger] self.sweep(upto).contains_key(gate),
            forall|gate: GateId| #[trigger]
                self.sweep(upto).contains_key(gate) ==> self.has_gate(gate),
        decreases upto,
    {
        if upto > 0 {
            let before = self.sweep((upto - 1) as nat);
            self.lemma_sweep_covers((upto - 1) as nat);
            self.lemma_resolve_extends((upto - 1) as usize, before);
            assert forall|gate: GateId| gate < upto implies #[trigger] self.sweep(
                upto,
            ).contains_key(gate) by {
                if gate < upto - 1 {
                    assert(before.contains_key(gate));
                }
            }
        }
    }
}

} // verus!
