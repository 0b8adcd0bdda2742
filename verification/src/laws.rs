//! What the operations are for, stated on their inputs and results alone.
//!
//! Each law relates the outcome of an operation to the values that went into
//! it: to the bits of a word, to the numbers that a float stands for, to the
//! number of coordinates that have a property, or to the outcome of the same
//! operation on inputs that differ in one place.

pub mod bitmaps;
pub mod counts;
pub mod files;
pub mod floats;
pub mod ranks;
pub mod refusals;
pub mod searches;
pub mod selection;
pub mod tables;
pub mod texts;
