//! Case folding over encrypted strings: per-character mask-and-add.

use vstd::prelude::*;

use crate::cipher::Cipher;
use crate::ciphertext::FheString;
use crate::model::{fold_byte_spec, fold_bytes, lemma_content_fold_commute,
    lemma_fold_preserves_padding_shape};
use crate::par::par_fold_chars;
use crate::server_key::{wf_bool, ServerKey};

verus! {

impl ServerKey {
    /// Fold the whole string through one letter range; shared by the two
    /// public casing operations.
    fn fold_case(&self, fhe_string: &FheString, low: u8, high: u8, to_lower: bool) -> (r:
        FheString)
        requires
            fhe_string.wf(),
            65 <= low <= high <= 122,
            high - low == 25,
            to_lower ==> high + 32 <= 127,
            !to_lower ==> low >= 65 + 32,
        ensures
            r.wf(),
            r.bytes() == fold_bytes(fhe_string.bytes(), low, high, to_lower),
            r.hidden() == fold_bytes(fhe_string.hidden(), low, high, to_lower),
            r.encrypted() == fhe_string.encrypted(),
            r.padded() == fhe_string.padded(),
            r.reusable() == fhe_string.reusable(),
    {
        proof {
            lemma_content_fold_commute(fhe_string.bytes(), low, high, to_lower);
            lemma_fold_preserves_padding_shape(fhe_string.bytes(), low, high, to_lower);
        }
        if !fhe_string.is_encrypted() {
            let chars = fhe_string.chars();
            let n = chars.len();
            let mut folded: Vec<u8> = Vec::new();
            let mut i: usize = 0;
            while i < n
                invariant
                    0 <= i <= n,
                    n == chars@.len(),
                    fhe_string.wf(),
                    !fhe_string.encrypted(),
                    chars@ == fhe_string.bytes(),
                    65 <= low <= high <= 122,
                    folded@.len() == i,
                    forall|j: int|
                        0 <= j < i ==> folded@[j] == fold_byte_spec(
                            fhe_string.bytes()[j],
                            low,
                            high,
                            to_lower,
                        ),
                    to_lower ==> high + 32 <= 127,
                    !to_lower ==> low >= 65 + 32,
                decreases n - i,
            {
                let b = chars[i];
                let f: u8 = if low <= b && b <= high {
                    if to_lower {
                        b + 32
                    } else {
                        b - 32
                    }
                } else {
                    b
                };
                folded.push(f);
                i += 1;
            }
            let r = FheString {
                chars: folded,
                fhe_chars: Vec::new(),
                is_encrypted: false,
                is_padded: false,
                is_reusable: true,
            };
            proof {
                assert(r.bytes() =~= fold_bytes(fhe_string.bytes(), low, high, to_lower));
            }
            r
        } else {
            let fhe_chars = fhe_string.fhe_chars();
            let folded = par_fold_chars(&self.key, fhe_chars, low as u64, high as u64, to_lower);
            let r = FheString {
                chars: Vec::new(),
                fhe_chars: folded,
                is_encrypted: true,
                is_padded: fhe_string.is_padded(),
                is_reusable: fhe_string.is_reusable(),
            };
            proof {
                assert(r.bytes() =~= fold_bytes(fhe_string.bytes(), low, high, to_lower));
            }
            r
        }
    }

    /// Lower-case the string: add 32 to every byte in `b'A'..=b'Z'`; other
    /// bytes, padding included, pass through.
    pub fn to_lowercase(&self, fhe_string: &FheString) -> (r: FheString)
        requires
            fhe_string.wf(),
        ensures
            r.wf(),
            r.bytes() == fold_bytes(fhe_string.bytes(), 65, 90, true),
            r.hidden() == fold_bytes(fhe_string.hidden(), 65, 90, true),
            r.encrypted() == fhe_string.encrypted(),
            r.padded() == fhe_string.padded(),
            r.reusable() == fhe_string.reusable(),
    {
        self.fold_case(fhe_string, 65, 90, true)
    }

    /// Upper-case the string: subtract 32 from every byte in `b'a'..=b'z'`;
    /// other bytes, padding included, pass through.
    pub fn to_uppercase(&self, fhe_string: &FheString) -> (r: FheString)
        requires
            fhe_string.wf(),
        ensures
            r.wf(),
            r.bytes() == fold_bytes(fhe_string.bytes(), 97, 122, false),
            r.hidden() == fold_bytes(fhe_string.hidden(), 97, 122, false),
            r.encrypted() == fhe_string.encrypted(),
            r.padded() == fhe_string.padded(),
            r.reusable() == fhe_string.reusable(),
    {
        self.fold_case(fhe_string, 97, 122, false)
    }

    /// Whether two strings hide the same content up to ASCII case.
    /// Requires reusable inputs.
    pub fn eq_ignore_case(&self, fhe_string_1: &FheString, fhe_string_2: &FheString) -> (r: Cipher)
        requires
            fhe_string_1.wf(),
            fhe_string_2.wf(),
            fhe_string_1.reusable(),
            fhe_string_2.reusable(),
        ensures
            wf_bool(r),
            r.as_bool() == (fold_bytes(fhe_string_1.hidden(), 65, 90, true) == fold_bytes(
                fhe_string_2.hidden(),
                65,
                90,
                true,
            )),
    {
        self.eq(&self.to_lowercase(fhe_string_1), &self.to_lowercase(fhe_string_2))
    }
}

} // verus!
