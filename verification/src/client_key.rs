//! The client-side key wrapper: encryption of clear strings and decryption
//! of the results handed back by the server.

use vstd::prelude::*;

use crate::cipher::{Cipher, RadixClientKey};
use crate::ciphertext::FheString;

verus! {

/// Wrapper around the client key of the homomorphic integer layer.
pub struct ClientKey {
    pub key: RadixClientKey,
}

impl Clone for ClientKey {
    fn clone(&self) -> (r: Self)
        ensures
            r == *self,
    {
        ClientKey { key: self.key.clone() }
    }
}

impl ClientKey {
    pub fn new(key: RadixClientKey) -> (r: Self)
        ensures
            r.key == key,
    {
        ClientKey { key }
    }

    /// Encrypt a clear `String`, appending `padding` zero bytes.
    pub fn encrypt_string(&self, string: &String, padding: usize) -> (r: FheString)
        requires
            forall|i: int|
                0 <= i < string@.len() ==> '\u{1}' <= #[trigger] string@[i] <= '\u{7f}',
        ensures
            r.wf(),
            r.encrypted(),
            r.padded() == (padding > 0),
            r.reusable(),
            r.bytes() == string@.map_values(|c: char| c as u8) + crate::model::zeros(
                padding as nat,
            ),
    {
        FheString::from_string(string).encrypt(&self.key, padding)
    }

    /// Encrypt a clear `&str`, appending `padding` zero bytes.
    pub fn encrypt_str(&self, string: &str, padding: usize) -> (r: FheString)
        requires
            forall|i: int| 0 <= i < string@.len() ==> '\u{1}' <= #[trigger] string@[i] <= '\u{7f}',
        ensures
            r.wf(),
            r.encrypted(),
            r.padded() == (padding > 0),
            r.reusable(),
            r.bytes() == string@.map_values(|c: char| c as u8) + crate::model::zeros(
                padding as nat,
            ),
    {
        FheString::from_str(string).encrypt(&self.key, padding)
    }

    /// Encrypt a clear string value, appending `padding` zero bytes.
    pub fn encrypt_fhe_string(&self, fhe_string: &FheString, padding: usize) -> (r: FheString)
        requires
            fhe_string.wf(),
            !fhe_string.encrypted(),
        ensures
            r.wf(),
            r.encrypted(),
            r.padded() == (padding > 0),
            r.reusable(),
            r.bytes() == fhe_string.bytes() + crate::model::zeros(padding as nat),
    {
        fhe_string.encrypt(&self.key, padding)
    }

    /// Decrypt an encrypted string to a clear one; reveals exactly the
    /// hidden content.
    pub fn decrypt_fhe_string(&self, fhe_string: &FheString) -> (r: FheString)
        requires
            fhe_string.wf(),
            fhe_string.encrypted(),
        ensures
            r.wf(),
            !r.encrypted(),
            r.bytes() == fhe_string.hidden(),
    {
        fhe_string.decrypt(&self.key)
    }

    /// Decrypt an encrypted string straight to a `String`.
    pub fn decrypt_to_string(&self, fhe_string: &FheString) -> (r: String)
        requires
            fhe_string.wf(),
            fhe_string.encrypted(),
        ensures
            r@ == fhe_string.hidden().map_values(|b: u8| b as char),
    {
        fhe_string.decrypt(&self.key).to_string()
    }

    /// Decrypt a single-bit ciphertext: one means true.
    pub fn decrypt_bool(&self, fhe_boolean: &Cipher) -> (r: bool)
        requires
            fhe_boolean.wf(),
        ensures
            r == fhe_boolean.as_bool(),
    {
        self.key.decrypt_u64(fhe_boolean) == 1
    }

    /// Encrypt one byte.
    pub fn encrypt_u8(&self, integer: &u8) -> (r: Cipher)
        ensures
            r.wf(),
            r.val == integer,
            r.blocks == crate::NUMBER_OF_BLOCKS,
    {
        self.key.encrypt(*integer)
    }

    /// Decrypt a ciphertext carrying one byte.
    pub fn decrypt_u8(&self, integer: &Cipher) -> (r: u8)
        requires
            integer.wf(),
            integer.val <= 255,
        ensures
            r == integer.val,
    {
        self.key.decrypt_u8(integer)
    }

    /// Decrypt a ciphertext to its full carried value.
    pub fn decrypt_u64(&self, integer: &Cipher) -> (r: u64)
        requires
            integer.wf(),
        ensures
            r == integer.val,
    {
        self.key.decrypt_u64(integer)
    }
}

} // verus!
