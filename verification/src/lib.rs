//! Simulation of small combinational logic circuits.
//!
//! A circuit is a list of gates wired together by point-to-point connections.
//! Every gate carries a single boolean output; evaluating the circuit settles
//! all outputs from the values of its input gates.
//!
//! - `gate`: the kinds of gate and what each answers to an input vector.
//! - `connection`: a wire from one gate's output to an input slot of another.
//! - `circuit`: the circuit itself: building it, setting inputs, evaluating,
//!   reading outputs.
//! - `model`: what a circuit is in mathematical terms, and what an evaluation
//!   pass does to it, step by step.
//! - `logic`: the signal of a gate as its wiring defines it, and which gates
//!   lie downstream of which.
//! - `soundness`: an evaluation finds the signal of every gate that has no
//!   feedback loop upstream of it.
//! - `laws`: evaluating twice changes nothing; a changed input is felt
//!   downstream only.
//! - `editor`: the decisions of a graphical editor that do not depend on
//!   where things are drawn.
pub mod circuit;
pub mod connection;
pub mod editor;
pub mod gate;
pub mod laws;
pub mod logic;
pub mod model;
pub mod soundness;
