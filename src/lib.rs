//! Adding query sequences to a backbone alignment through an ensemble of
//! profile HMMs: tree decomposition, score ranking, weight accumulation,
//! monotone matching and output assembly.
pub mod adder;
pub mod bitset;
pub mod compact_printer;
pub mod fast_map;
pub mod grid;
pub mod matching;
pub mod melt;
pub mod score_calc;
pub mod structures;
pub mod search_output;
