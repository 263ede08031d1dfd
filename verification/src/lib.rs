//! The prefix-code layer of a Brotli-style decoder: a bit cursor over a byte
//! buffer, prefix trees built from code tables, and the decoding of the
//! code-length alphabet, of the data alphabet's code lengths, and of the
//! symbol stream, each with its meaning stated over the bits of the buffer.

use vstd::prelude::*;

pub mod bit_reader;
pub mod canonical;
pub mod code_table;
pub mod decoder;
pub mod error;
pub mod huffman_tree;
pub mod length_state;
pub mod round_trip;

verus! {

/// Number of symbols in the code-length alphabet.
pub const CODE_LENGTH_CODES: usize = 18;

/// The order in which the stream lists the lengths of the code-length
/// alphabet: the symbol whose length comes first, second, and so on.
pub const CODE_LENGTH_CODE_ORDER: [u8; 18] = [
    1, 2, 3, 4, 0, 5, 17, 6, 16, 7, 8, 9, 10, 11, 12, 13, 14, 15,
];

/// Largest number of symbols the data alphabet may hold.
pub const ALPHABET_SIZE_LIMIT: usize = 256;

/// Code length that a repeat of the previous length falls back on
/// before any nonzero length has been seen.
pub const DEFAULT_CODE_LENGTH: u8 = 8;

} // verus!
