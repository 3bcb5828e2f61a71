//! The integer core of a two-dimensional short-range particle simulator: the uniform
//! cell grid that particles are binned into, the half-neighbourhood enumeration of
//! candidate pairs, the Verlet lists built from the pairs that pass the distance test,
//! and the stopping rules of the step loop.

pub mod linked_cells;
pub mod run_control;
pub mod stencil;
pub mod verlet_lists;

pub use linked_cells::{Cell, LinkedCells};
pub use run_control::RunState;
pub use stencil::candidate_pairs;
pub use verlet_lists::{VLIter, VerletLists};
