//! Pen-and-paper geometric mean estimation, human-like guess generation and
//! a practice game that scores mental estimates.
//!
//! Numbers are exact: values and estimates are decimals with twelve places
//! (`fixed::Fixed`), and every rule is stated over integers.
pub mod digits;
pub mod fixed;
pub mod trivia;
pub mod estimate;
pub mod table_based;
pub mod log_linear;
pub mod practice;
pub mod evaluation;
pub mod display;
