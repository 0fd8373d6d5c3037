//! Floating-point numbers as bit patterns.
//!
//! The control vectors carry IEEE-754 numbers. Here they are held as the
//! integers that encode them, so that every comparison, conversion and
//! arithmetic step has an exact meaning over the integers.

pub mod accuracy;
pub mod binary32;
pub mod binary64;
pub mod bounded_text;
pub mod decimal;
pub mod double_accuracy;
pub mod fixed_text;
pub mod magnitudes;
pub mod roots;
pub mod mirror;
pub mod nearest_decimal;
pub mod parse_text;
pub mod reread;
pub mod rounding;
pub mod whole;
