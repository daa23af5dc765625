//! Parsing and resolution of single-variable polynomial equations of degree at most two.
//!
//! The text side of the pipeline (terms, factors, powers, the two sides of an
//! equation) is verified here, as is the case analysis of the solver; the real
//! arithmetic runs on top of what they return.
pub mod number;
pub mod parsing;
pub mod solver;
