//! Arbitrary-position bytes of the binary expansion of tau (2 pi), computed with
//! Bellard's formula over outward-rounded interval arithmetic.

pub mod cli;
pub mod numbers;
pub mod rational;
pub mod float;
pub mod model;
pub mod text;
