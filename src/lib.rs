//! Exact row reduction over rational numbers.
//!
//! Every matrix entry is a sign/numerator/denominator fraction kept in lowest
//! terms, so row echelon and reduced row echelon forms are computed without
//! rounding error. Magnitudes are machine words: an operation whose exact
//! intermediate values do not fit reports `RationalError::ArithmeticOverflow`.

pub mod rational;
pub mod matrix;
pub mod rowops;
pub mod echelon;
pub mod notation;
