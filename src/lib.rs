//! Sprague-Grundy values of octal games, computed with a rare-values
//! accelerated mex.

pub mod bits;
pub mod octal;
pub mod rules;
pub mod tags;

pub use crate::bits::Bin;
pub use crate::octal::Octal;
pub use crate::rules::{rules_from_str, Rules};
pub use crate::tags::{from_nimpos, to_nimpos, xor, Nimber, Nimpos, NIMBER_LIMIT};
