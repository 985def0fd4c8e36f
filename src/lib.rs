//! Parsing, normalising and solving polynomial equations of degree at most
//! two in the variable `X`, with coefficients held as exact fixed-point
//! decimals.
pub mod text;
pub mod number;
pub mod equation;
pub mod solve;
