//! A calculator for one arithmetic expression, evaluated into a signed
//! Q32.32 fixed-point value in a single left-to-right pass.
pub mod fixed;
pub mod ops;
pub mod literal;
pub mod parser;
pub mod format;
pub mod laws;
