//! Streaming aggregation of `key;value` text: the byte span of each
//! line up to the first `;` is a key, the rest of the line a fixed-point
//! decimal in tenths, and the engine folds every line into a per-key
//! {min, max, sum, count} summary, either in one pass or in line-aligned
//! spans whose per-span tables merge into the same result.

pub mod engine;
pub mod lines;
pub mod model;
pub mod scanner;
pub mod table;
pub mod timing;
pub mod value;

use vstd::prelude::*;

verus! {

/// A value field that could not be decoded as a fixed-point decimal,
/// or a line without a delimiter before its terminator.
#[derive(Clone, Copy, PartialEq, Eq, Structural, Debug)]
pub struct DecodeError;

} // verus!
