//! A gate-level digital logic simulator over tri-state signal lines.
//!
//! Networks of primitive and composite devices (gates, latches, flip-flops,
//! multiplexers, RAM) are assembled inside a [`circuit::Circuit`], wired
//! through shared output cells, and settled by repeated synchronous
//! evaluation passes. Circuits can in turn be grouped on a
//! [`board::Board`] and wired to each other across circuit boundaries.

pub mod board;
pub mod circuit;
pub mod compose;
pub mod gate;
pub mod line;
pub mod registry;

pub use board::Board;
pub use circuit::Circuit;
pub use gate::Gate;
pub use gate::GateKind;
pub use gate::Slot;
pub use line::Line;
pub use registry::LineRegistry;
