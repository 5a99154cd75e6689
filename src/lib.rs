//! And-Inverter Graphs with structural hashing, and k-feasible cut enumeration.

pub mod signal;
pub mod aig;
pub mod cut;
pub mod cut_enumerator;
pub mod read_aiger;
pub mod visualizer;
