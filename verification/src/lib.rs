//! String processing over homomorphically encrypted ASCII bytes.
//!
//! An encrypted string is a fixed, public-length vector of encrypted bytes;
//! the true content is the prefix of non-zero bytes, and trailing zero bytes
//! are padding that hides the true length. Every operation (length, equality
//! and ordering, case folding, search, trimming, stripping, splitting,
//! replacing, repeating) is computed obliviously: no branch or returned
//! length depends on a hidden byte.
//!
//! Ciphertexts are modelled by the values they carry: a [`cipher::Cipher`]
//! records the carried value together with its radix block count. Key
//! material, noise and bootstrapping belong to the underlying cryptographic
//! scheme and are outside the scope of this crate; what is implemented and
//! specified here are the string algorithms and their padding and
//! reusability bookkeeping.

use vstd::prelude::*;

pub mod case;
pub mod cipher;
pub mod ciphertext;
pub mod client_key;
pub mod contains;
pub mod laws;
pub mod model;
pub mod par;
pub mod partial_ordering;
pub mod repeat;
pub mod replace;
pub mod server_key;
pub mod split;
pub mod trim;

verus! {

/// Number of radix blocks used to encode one ASCII byte
/// (four blocks of two message bits each).
pub const NUMBER_OF_BLOCKS: usize = 4;

} // verus!
