//! Data structures and algorithms for competitive programming, with
//! machine-checked contracts.
//!
//! Positions are counted from 1 throughout: index 0 of every backing array
//! is a buffer slot and never a logical element.
pub mod data_structure;
pub mod general;
pub mod graph;
pub mod num;
pub mod number_theory;
pub mod utils;
