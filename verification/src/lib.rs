//! Decoding of binary-partitioned seat codes and the search for the one seat
//! id that is missing from an otherwise contiguous range.
//!
//! A seat code is a string of up to ten letters. Each letter selects the lower
//! (`F`, `L`) or upper (`B`, `R`) half of what is left, so a code reads as a
//! ten-bit number, most significant bit first.
//!
//! - [`decode`] turns the letters of a code into its id.
//! - [`seat`] pairs ids with their codes and decodes the lines of an input.
//! - [`analysis`] puts the ids in ascending order and finds the lowest, the
//!   highest and the missing one.
//! - [`survey`] is a whole run, from lines to the three ids.
//! - [`error`] is the error that every stage reports; [`decimal`] writes the
//!   text of its messages.

pub mod analysis;
pub mod decimal;
pub mod decode;
pub mod error;
pub mod seat;
pub mod survey;
