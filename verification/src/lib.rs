//! A Keccak-256 circuit front end: the combinatorial bit-part splitter, the
//! sparse word codec, the instance packing codec, and the binding layer that
//! checks witness rows and selects the cells bound to public inputs.

use vstd::prelude::*;

pub mod binding;
pub mod field_element;
pub mod instance;
pub mod pipeline;
pub mod sparse;
pub mod word_parts;

verus! {

/// Bytes packed into one public-input field element.
pub const NUM_BYTES_PER_WORD: usize = 8;

/// Bits per byte.
pub const NUM_BITS_PER_BYTE: usize = 8;

/// Bits of one Keccak word.
pub const NUM_BITS_PER_WORD: usize = NUM_BYTES_PER_WORD * NUM_BITS_PER_BYTE;

/// Bits used per word bit in the sparse representation.
pub const BIT_COUNT: usize = 3;

/// The base of one digit of the sparse representation, 2 to the `BIT_COUNT`.
pub const BIT_SIZE: usize = 8;

/// Rounds of one Keccak-f[1600] permutation.
pub const NUM_ROUNDS: usize = 24;

/// Words absorbed per 1088-bit rate block.
pub const NUM_WORDS_TO_ABSORB: usize = 17;

} // verus!
