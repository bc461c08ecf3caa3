//! Numbers by name: the English words for a non-negative integer, so that
//! numbers can be put in the order of their names.

pub mod groups;
pub mod namer;
pub mod number;
pub mod order;
pub mod shape;
pub mod spelling;
pub mod unique;
pub mod words;

pub use namer::{spell, RangeError};
pub use number::LexicalNumber;
