//! The encryption mode: a keyed block transform, a key hardener built on
//! it, and a stream cipher that re-derives its traffic key periodically.

pub mod cipher;
pub mod entropy;
pub mod hardener;
pub mod random;
pub mod stream_laws;
pub mod transform;
pub mod utils;

use vstd::prelude::*;

verus! {

/// Word size.
pub type W = u64;

/// Quad-word.
pub type Q = [W; 4];

/// Block: two quad-words.
pub type Block = [Q; 2];

/// A key is one quad-word.
pub type Key = Q;

/// Number of rounds of the block transform.
pub const R: usize = 128;

/// Bytes per block.
pub const B: usize = 64;

/// Number of blocks that can be generated from a given traffic key before
/// it is "spent".
pub const T: usize = 256;

/// Base-two logarithm of the size of the hardener table.
pub const LG2_N: u32 = 12;

/// Number of blocks in the hardener table.
pub const N: usize = 4096;

/// Number of pointer-chasing iterations in one hardener step.
pub const H: usize = 4096;

} // verus!

pub use cipher::{Cipher, CipherState};
pub use utils::load_hex_key;
