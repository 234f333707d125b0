use vstd::prelude::*;

use crate::connection::GateId;
use crate::gate::GateType;
use crate::model::{Cache, CircuitModel};

verus! {

impl CircuitModel {
    /// The driver of a slot of `gate` is the source of a connection that ends
    /// at `gate`.
    proof fn lemma_driver_is_wire(self, gate: GateId, slot: int, upto: nat)
        requires
            upto <= self.connections.len(),
        ensures
            self.driver(gate, slot, upto) matches Some(source) ==> exists|k: int|
                #![trigger self.connections[k]]
                0 <= k < upto && self.connections[k].to == gate && self.connections[k].from
                    == source,
        decreases upto,
    {
        if upto > 0 {
            let wire = self.connections[upto - 1];
            if !(wire.to == gate && wire.input_index == slot) {
                self.lemma_driver_is_wire(gate, slot, (upto - 1) as nat);
            }
        }
    }

    /// A gate that is grounded at one depth is grounded at every greater
    /// depth, and has the same signal there.
    pub proof fn lemma_grounded_deeper(self, gate: GateId, depth: nat, deeper: nat)
        requires
            self.grounded(gate, depth),
            depth <= deeper,
        ensures
            self.grounded(gate, deeper),
            self.signal(gate, deeper) == self.signal(gate, depth),
        decreases depth,
    {
        if self.computes(gate) {
            assert forall|k: int|
                #![trigger self.connections[k]]
                0 <= k < self.connections.len() && self.connections[k].to
                    == gate implies self.grounded(self.connections[k].from, (deeper - 1) as nat) by {
                self.lemma_grounded_deeper(
                    self.connections[k].from,
                    (depth - 1) as nat,
                    (deeper - 1) as nat,
                );
            }
            let shallow = self.arriving(gate, (depth - 1) as nat);
            let deep = self.arriving(gate, (deeper - 1) as nat);
            assert forall|slot: int| 0 <= slot < shallow.len() implies shallow[slot]
                == deep[slot] by {
                self.lemma_driver_is_wire(gate, slot, self.connections.len());
                match self.driver(gate, slot, self.connections.len()) {
                    Some(source) => {
                        self.lemma_grounded_deeper(
                            source,
                            (depth - 1) as nat,
                            (deeper - 1) as nat,
                        );
                    },
                    None => {},
                }
            }
            assert(shallow =~= deep);
        }
    }

    /// `gate` is grounded at some depth: no feedback loop lies upstream of it.
    spec fn combinational(self, gate: GateId) -> bool {
        exists|depth: nat| self.grounded(gate, depth)
    }

    /// `gate` is grounded at `depth` and at no lesser depth.
    spec fn grounded_first(self, gate: GateId, depth: nat) -> bool {
        self.grounded(gate, depth) && (depth == 0 || !self.grounded(gate, (depth - 1) as nat))
    }

    /// The least depth at which `gate` is grounded.
    spec fn rank(self, gate: GateId) -> nat {
        choose|depth: nat| self.grounded_first(gate, depth)
    }

    /// The signal of a gate that is grounded at some depth.
    spec fn value(self, gate: GateId) -> bool {
        self.signal(gate, self.rank(gate))
    }

    /// The values that arrive at the slots of `gate`.
    spec fn arriving_values(self, gate: GateId) -> Seq<bool> {
        Seq::new(
            self.gates[gate as int].input_count as nat,
            |slot: int|
                match self.driver(gate, slot, self.connections.len()) {
                    Some(source) => self.value(source),
                    None => false,
                },
        )
    }

    /// Below a depth at which a gate is grounded lies a least one.
    proof fn lemma_least_depth(self, gate: GateId, depth: nat)
        requires
            self.grounded(gate, depth),
        ensures
            exists|least: nat| self.grounded_first(gate, least),
        decreases depth,
    {
        if depth > 0 && self.grounded(gate, (depth - 1) as nat) {
            self.lemma_least_depth(gate, (depth - 1) as nat);
        } else {
            assert(self.grounded_first(gate, depth));
        }
    }

    /// A gate that is grounded at `depth` has a rank, no greater than
    /// `depth`, and its signal at `depth` is its value.
    proof fn lemma_rank(self, gate: GateId, depth: nat)
        requires
            self.grounded(gate, depth),
        ensures
            self.combinational(gate),
            self.rank(gate) <= depth,
            self.grounded(gate, self.rank(gate)),
            self.signal(gate, depth) == self.value(gate),
    {
        self.lemma_least_depth(gate, depth);
        let rank = self.rank(gate);
        if depth < rank {
            self.lemma_grounded_deeper(gate, depth, (rank - 1) as nat);
        }
        self.lemma_grounded_deeper(gate, rank, depth);
    }

    /// Whatever feeds a combinational gate is combinational, at a lower rank.
    proof fn lemma_rank_of_source(self, gate: GateId, k: int)
        requires
            self.computes(gate),
            self.combinational(gate),
            0 <= k < self.connections.len(),
            self.connections[k].to == gate,
        ensures
            self.combinational(self.connections[k].from),
            self.rank(self.connections[k].from) < self.rank(gate),
    {
        let depth = choose|depth: nat| self.grounded(gate, depth);
        self.lemma_rank(gate, depth);
        self.lemma_rank(self.connections[k].from, (self.rank(gate) - 1) as nat);
    }

    /// The value of a combinational computing gate is its answer to the
    /// values that arrive at its slots.
    proof fn lemma_value(self, gate: GateId)
        requires
            self.computes(gate),
            self.combinational(gate),
        ensures
            self.value(gate) == self.gates[gate as int].response(self.arriving_values(gate)),
    {
        let depth = choose|depth: nat| self.grounded(gate, depth);
        self.lemma_rank(gate, depth);
        let rank = self.rank(gate);
        let arriving = self.arriving(gate, (rank - 1) as nat);
        let values = self.arriving_values(gate);
        assert forall|slot: int| 0 <= slot < arriving.len() implies arriving[slot]
            == values[slot] by {
            self.lemma_driver_is_wire(gate, slot, self.connections.len());
            match self.driver(gate, slot, self.connections.len()) {
                Some(source) => {
                    self.lemma_rank(source, (rank - 1) as nat);
                },
                None => {},
            }
        }
        assert(arriving =~= values);
    }

    /// Every entry of `cache` for a combinational gate outside `busy` is that
    /// gate's value.
    spec fn sound(self, cache: Cache, busy: Set<GateId>) -> bool {
        forall|gate: GateId|
            #![trigger cache.contains_key(gate)]
            cache.contains_key(gate) && !busy.contains(gate) && self.combinational(gate)
                ==> cache[gate] == self.value(gate)
    }

    /// The gates of `busy` are computing gates with an entry in `cache`.
    spec fn entered(self, cache: Cache, busy: Set<GateId>) -> bool {
        forall|gate: GateId|
            #![trigger busy.contains(gate)]
            busy.contains(gate) ==> cache.contains_key(gate) && self.computes(gate)
    }

    /// `gate` lies upstream of every gate of `busy`: where one of them is
    /// combinational, so is `gate`, at a lower rank.
    spec fn above(self, busy: Set<GateId>, gate: GateId) -> bool {
        forall|other: GateId|
            #![trigger busy.contains(other)]
            busy.contains(other) && self.combinational(other) ==> self.combinational(gate)
                && self.rank(gate) < self.rank(other)
    }

    /// Resolving a gate, while the inputs of the gates of `busy` are being
    /// gathered, keeps the cache sound and finds, for a combinational gate,
    /// its value.
    proof fn lemma_resolve_sound(self, gate: GateId, cache: Cache, busy: Set<GateId>)
        requires
            self.wired(),
            self.sound(cache, busy),
            self.entered(cache, busy),
            self.above(busy, gate),
        ensures
            self.sound(self.resolve(gate, cache).1, busy),
            self.entered(self.resolve(gate, cache).1, busy),
            self.combinational(gate) ==> self.resolve(gate, cache).0 == self.value(gate),
        decreases self.unresolved(cache), 0nat,
    {
        if cache.contains_key(gate) {
        } else if self.computes(gate) {
            let upto = self.connections.len();
            let marked = cache.insert(gate, false);
            crate::model::lemma_entry_resolves(self.gates.len(), cache, gate, false);
            assert(!busy.contains(gate));
            self.lemma_gather_sound(gate, upto, marked, busy);
            self.lemma_gather_fills_slots(gate, upto, marked);
            let gathered = self.gather(gate, upto, marked);
            let gathering = busy.insert(gate);
            assert forall|other: GateId| #[trigger] busy.contains(other) implies gathered.1.contains_key(
                other,
            ) && self.computes(other) by {
                assert(gathering.contains(other));
            }
            if self.combinational(gate) {
                self.lemma_value(gate);
                assert(gathered.0 =~= self.arriving_values(gate));
            }
        } else if self.has_gate(gate) {
            if self.combinational(gate) {
                let depth = choose|depth: nat| self.grounded(gate, depth);
                self.lemma_rank(gate, depth);
            }
        } else {
            assert forall|depth: nat| !self.grounded(gate, depth) by {}
        }
    }

    /// Gathering the inputs of `gate`, while its own inputs and those of the
    /// gates of `busy` are being gathered, keeps the cache sound and, where
    /// `gate` is combinational, fills each slot with the value of its driver.
    proof fn lemma_gather_sound(self, gate: GateId, upto: nat, cache: Cache, busy: Set<GateId>)
        requires
            self.wired(),
            self.computes(gate),
            upto <= self.connections.len(),
            self.sound(cache, busy.insert(gate)),
            self.entered(cache, busy.insert(gate)),
            self.above(busy, gate),
        ensures
            self.sound(self.gather(gate, upto, cache).1, busy.insert(gate)),
            self.entered(self.gather(gate, upto, cache).1, busy.insert(gate)),
            self.combinational(gate) ==> forall|slot: int|
                #![trigger self.gather(gate, upto, cache).0[slot]]
                0 <= slot < self.gates[gate as int].input_count ==> self.gather(
                    gate,
                    upto,
                    cache,
                ).0[slot] == match self.driver(gate, slot, upto) {
                    Some(source) => self.value(source),
                    None => false,
                },
        decreases self.unresolved(cache), upto + 1,
    {
        if upto > 0 {
            let wire = self.connections[upto - 1];
            self.lemma_gather_sound(gate, (upto - 1) as nat, cache, busy);
            self.lemma_gather_extends(gate, (upto - 1) as nat, cache);
            self.lemma_gather_fills_slots(gate, (upto - 1) as nat, cache);
            let before = self.gather(gate, (upto - 1) as nat, cache);
            if wire.to == gate {
                let gathering = busy.insert(gate);
                assert forall|other: GateId|
                    #![trigger gathering.contains(other)]
                    gathering.contains(other) && self.combinational(
                        other,
                    ) implies self.combinational(wire.from) && self.rank(wire.from) < self.rank(
                    other,
                ) by {
                    if other != gate {
                        assert(busy.contains(other));
                    }
                    self.lemma_rank_of_source(gate, upto - 1);
                }
                self.lemma_resolve_sound(wire.from, before.1, gathering);
                if self.combinational(gate) {
                    self.lemma_rank_of_source(gate, upto - 1);
                }
            }
        }
    }

    /// A sweep leaves a sound cache.
    proof fn lemma_sweep_sound(self, upto: nat)
        requires
            self.wired(),
        ensures
            self.sound(self.sweep(upto), Set::empty()),
        decreases upto,
    {
        if upto > 0 {
            self.lemma_sweep_sound((upto - 1) as nat);
            self.lemma_resolve_sound(
                (upto - 1) as usize,
                self.sweep((upto - 1) as nat),
                Set::empty(),
            );
        }
    }

    /// An evaluation is right wherever the circuit is combinational: a gate
    /// with no feedback loop upstream of it comes out with its signal, the
    /// answer of its kind to the signals of the gates that drive it.
    pub proof fn lemma_evaluation_is_sound(self, gate: GateId, depth: nat)
        requires
            self.wired(),
            self.grounded(gate, depth),
        ensures
            self.settled(gate) == self.signal(gate, depth),
            self.evaluated().gates[gate as int].output == self.signal(gate, depth),
    {
        self.lemma_sweep_sound(self.gates.len());
        self.lemma_sweep_covers(self.gates.len());
        self.lemma_rank(gate, depth);
        assert(self.sweep(self.gates.len()).contains_key(gate));
    }

    /// A slot of a gate at which no connection ends has no driver.
    proof fn lemma_unconnected_has_no_driver(self, gate: GateId, slot: int, upto: nat)
        requires
            upto <= self.connections.len(),
            forall|k: int|
                0 <= k < self.connections.len() ==> (#[trigger] self.connections[k]).to != gate,
        ensures
            self.driver(gate, slot, upto) is None,
        decreases upto,
    {
        if upto > 0 {
            self.lemma_unconnected_has_no_driver(gate, slot, (upto - 1) as nat);
        }
    }

    /// A computing gate at which no connection ends comes out with its answer
    /// to a vector of `false`, one entry per slot. For an `And` gate with at
    /// least one slot that answer is `false`.
    pub proof fn lemma_unconnected_slots_read_false(self, gate: GateId)
        requires
            self.wired(),
            self.computes(gate),
            forall|k: int|
                0 <= k < self.connections.len() ==> (#[trigger] self.connections[k]).to != gate,
        ensures
            self.evaluated().gates[gate as int].output == self.gates[gate as int].response(
                self.blank_inputs(gate),
            ),
            self.gates[gate as int].gate_type == GateType::And && self.gates[gate as int].input_count
                > 0 ==> !self.evaluated().gates[gate as int].output,
    {
        assert(self.grounded(gate, 1));
        self.lemma_evaluation_is_sound(gate, 1);
        let arriving = self.arriving(gate, 0);
        let blank = self.blank_inputs(gate);
        assert forall|slot: int| 0 <= slot < arriving.len() implies arriving[slot]
            == blank[slot] by {
            self.lemma_unconnected_has_no_driver(gate, slot, self.connections.len());
        }
        assert(arriving =~= blank);
        if self.gates[gate as int].input_count > 0 {
            assert(!blank[0]);
        }
    }
}

} // verus!
