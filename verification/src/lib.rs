//! Memo128: encoding 128-bit values as three memorable sentences.
//!
//! A 128-bit value gets a 7-bit SHA-256 checksum appended; the resulting
//! 135 bits are cut into three 45-bit chunks, and each chunk selects one
//! phrase from each of five dictionaries (10, 10, 8, 9 and 8 bits).
//! Decoding parses the sentences back into dictionary indices, rebuilds the
//! 135 bits and verifies the checksum.

pub mod bits;
pub mod checksum;
pub mod dictionary;
pub mod error;
pub mod fuzzy;
pub mod hex;
pub mod memo;
pub mod parse;
pub mod text;

pub use dictionary::Dictionary;
pub use error::Memo128Error;
pub use memo::Memo128;

use vstd::prelude::*;

verus! {

/// Number of bits used for the Character component in each sentence.
pub const CHARACTER_BITS: u32 = 10;

/// Number of bits used for the Setting component in each sentence.
pub const SETTING_BITS: u32 = 10;

/// Number of bits used for the Action component in each sentence.
pub const ACTION_BITS: u32 = 8;

/// Number of bits used for the Object component in each sentence.
pub const OBJECT_BITS: u32 = 9;

/// Number of bits used for the Outcome component in each sentence.
pub const OUTCOME_BITS: u32 = 8;

/// Total number of bits per chunk/sentence.
pub const CHUNK_BITS: u32 = CHARACTER_BITS + SETTING_BITS + ACTION_BITS + OBJECT_BITS
    + OUTCOME_BITS;

/// Number of bits used for the checksum.
pub const CHECKSUM_BITS: u32 = 7;

/// Number of chunks/sentences that encode the complete payload.
pub const NUM_CHUNKS: usize = 3;

} // verus!
