//! Net connectivity for a schematic editor: wires as a graph of grid points
//! and axis-aligned segments, with a name for every connected group.

pub mod devices;
pub mod edge;
pub mod follow;
pub mod geometry;
pub mod graph;
pub mod labels;
pub mod laws;
pub mod nets;
pub mod prune;
pub mod relabel;
pub mod seqs;
pub mod shape;
pub mod tools;
pub mod vertex;
pub mod wiring;
