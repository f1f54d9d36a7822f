//! Parsing of textual range expressions such as `1-3,5-8` or `-5--1,0-3`
//! into the explicit, ordered list of the values they denote.

pub mod laws;
pub mod numeric;
pub mod range;
pub mod text;

pub use numeric::Steppable;
pub use range::{parse, parse_with, part_shape, PartShape, RangeError, RangeResult};
