//! The ASCII bytes that bencode is written with.

use vstd::prelude::*;

verus! {

/// `0`, the first digit.
pub const ZERO: u8 = 48;

/// `9`, the last digit.
pub const NINE: u8 = 57;

/// `-`, the sign of a negative integer.
pub const MINUS: u8 = 45;

/// `:`, which ends the length of a byte-string.
pub const COLON: u8 = 58;

/// `i`, which starts an integer.
pub const INTEGER: u8 = 105;

/// `l`, which starts a list.
pub const LIST: u8 = 108;

/// `d`, which starts a dictionary.
pub const DICT: u8 = 100;

/// `e`, which ends an integer, a list or a dictionary.
pub const END: u8 = 101;

} // verus!
