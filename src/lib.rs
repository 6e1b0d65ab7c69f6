//! Deterministic fixed-point arithmetic: `Fix` holds a number as a 64-bit
//! integer scaled by `2^30`, so every operation gives the same bits on every
//! machine. Operators ask for representable results in their preconditions;
//! parsing and square roots report their failures as values.

pub mod fix;
pub mod laws;
pub mod math;
pub mod parse;
pub mod sqrt;

pub use fix::{ArithmeticError, Fix};
pub use parse::ParseError;
pub use sqrt::DomainError;
