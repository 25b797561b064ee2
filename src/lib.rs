//! Basic-block construction and local value numbering with dead-code
//! elimination for a small label/branch intermediate representation.
pub mod ir;
pub mod cfg;
pub mod lvn;
pub mod laws;
