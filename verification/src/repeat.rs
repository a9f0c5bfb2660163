//! Repetition of encrypted strings, with optional reusability repair.

use vstd::prelude::*;

use crate::ciphertext::FheString;
use crate::model::content;
use crate::server_key::ServerKey;

verus! {

impl ServerKey {
    /// Repeat the string `n` times. If the string is padded, the copies
    /// leave padding in the middle and the result is not reusable.
    pub fn repeat(&self, fhe_string: &FheString, n: usize) -> (r: FheString)
        requires
            fhe_string.wf(),
        ensures
            r.wf(),
            r.bytes() == FheString::repeat_bytes(fhe_string.bytes(), n as nat),
            r.encrypted() == fhe_string.encrypted(),
            r.padded() == (fhe_string.encrypted() && n > 0 && fhe_string.padded()),
            r.reusable() == (!fhe_string.encrypted() || n == 0 || (n == 1
                && fhe_string.reusable()) || (n > 1 && !fhe_string.padded())),
    {
        fhe_string.repeat(n)
    }

    /// Repeat the string `n` times and compact the copies' padding to the
    /// tail, so the result is reusable.
    pub fn repeat_reusable(&self, fhe_string: &FheString, n: usize) -> (r: FheString)
        requires
            fhe_string.wf(),
        ensures
            r.wf(),
            r.reusable(),
            r.encrypted() == fhe_string.encrypted(),
            r.hidden() == content(FheString::repeat_bytes(fhe_string.bytes(), n as nat)),
    {
        let repeated_string = self.repeat(fhe_string, n);
        if !repeated_string.is_reusable() {
            self.make_reusable(&repeated_string)
        } else {
            repeated_string
        }
    }
}

} // verus!
