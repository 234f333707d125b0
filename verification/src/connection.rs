use vstd::prelude::*;

verus! {

/// Handle of a gate within a circuit: its position in the order of creation.
pub type GateId = usize;

/// A wire: the output of gate `from` drives input slot `input_index` of gate `to`.
///
/// A connection is a plain record. Nothing is checked when one is built; a
/// circuit says which connections it can evaluate.
#[derive(Debug, Clone, Copy)]
pub struct Connection {
    pub from: GateId,
    pub to: GateId,
    pub input_index: usize,
}

} // verus!
