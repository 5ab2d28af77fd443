//! The wire protocol: the decimal digit helpers shared by both engines, the
//! decoder, the encoder, and the round-trip theorems relating them.

pub mod decode;
pub mod digits;
pub mod encode;
pub mod roundtrip;

pub use decode::decode;
pub use encode::encode;

use vstd::prelude::*;

verus! {

/// The dispatch byte of an integer: `i`.
pub const INTEGER_START: u8 = 105;

/// The dispatch byte of a list: `l`.
pub const LIST_START: u8 = 108;

/// The dispatch byte of a dictionary: `d`.
pub const DICTIONARY_START: u8 = 100;

/// The terminator byte of integers, lists and dictionaries: `e`.
pub const VALUE_END: u8 = 101;

/// The byte between a byte string's length prefix and its payload: `:`.
pub const LENGTH_DELIMITER: u8 = 58;

/// The sign byte of a negative integer: `-`.
pub const MINUS: u8 = 45;

/// An explicit positive sign, accepted by the length parser: `+`.
pub const PLUS: u8 = 43;

/// The lowest ASCII digit: `0`.
pub const DIGIT_ZERO: u8 = 48;

/// The highest ASCII digit: `9`.
pub const DIGIT_NINE: u8 = 57;

} // verus!
