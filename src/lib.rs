//! A fixed-capacity dataflow graph: node registration, cycle-safe wiring with
//! a topological schedule, and the chunk plan that drives execution.
pub mod collections;
pub mod graph;

pub use collections::MAX_NODES;
pub use graph::{
    ConnectionGraph, Handle, Wire, MAX_DATA_IN, MAX_DATA_OUT, MAX_SIGNAL_IN, MAX_SIGNAL_OUT,
};

use vstd::prelude::*;

verus! {

/// Input polling offered to a gadget when it handles user input.
pub trait InputCtx {
    /// Polls the mouse button.
    fn mouse_pressed(&mut self);

    /// The key pressed, as a byte.
    fn get_key(&mut self) -> u8;
}

} // verus!
