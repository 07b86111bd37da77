//! Grids, dual grids and `.obj` reading for the medial-axis computation.
pub mod text;
pub mod obj;
pub mod edges;
pub mod mesh;
pub mod index;
pub mod regular;
pub mod traverse;
pub mod lattice;
pub mod block_obj;
pub mod grid_obj;
pub mod laws;
pub mod walk;
pub mod checks;
pub mod read_back;
pub mod counting;
pub mod report;
pub mod line_endings;
