//! Layout intelligence and compilation resource budgets for a typesetting
//! pipeline: budget parsing and escalation phases, a page graph laid out on
//! the hexagonal Eisenstein lattice, and the integer graph analysis behind
//! the spectral layout report.

pub mod text;
pub mod number_text;
pub mod budget;
pub mod guardian;
pub mod lattice;
pub mod grid_snap;
pub mod spiral;
pub mod page_graph;
pub mod structure;
pub mod sweep_cut;
pub mod report;
