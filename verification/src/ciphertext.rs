//! Clear and encrypted ASCII strings: the `FheAsciiChar` and `FheString`
//! wrappers and their invariants.

use vstd::prelude::*;
use vstd::string::StrSliceExecFns;

use crate::cipher::{lemma_block_cap_byte, Cipher, IntegerKey, RadixClientKey};
use crate::model::{
    ascii_content, content, lemma_content_take_succ, no_zero, zeros, zeros_in_tail,
};
use crate::NUMBER_OF_BLOCKS;

verus! {

/// A single encrypted ASCII byte: a radix ciphertext of byte width whose
/// carried value is ASCII (at most 127); zero is reserved for padding.
pub struct FheAsciiChar {
    /// The wrapped byte-wide ciphertext.
    pub fhe_ascii_char: Cipher,
}

impl Clone for FheAsciiChar {
    fn clone(&self) -> (r: Self)
        ensures
            r == *self,
    {
        FheAsciiChar { fhe_ascii_char: self.fhe_ascii_char.clone() }
    }
}

impl FheAsciiChar {
    /// An encrypted character is byte-wide and carries an ASCII-or-padding
    /// value.
    pub open spec fn wf(&self) -> bool {
        &&& self.fhe_ascii_char.wf()
        &&& self.fhe_ascii_char.blocks == NUMBER_OF_BLOCKS
        &&& self.fhe_ascii_char.val <= 127
    }

    /// The byte carried by this encrypted character.
    pub open spec fn byte(&self) -> u8 {
        self.fhe_ascii_char.val as u8
    }

    /// Build directly from a ciphertext known to carry an ASCII-or-padding
    /// byte in byte width.
    pub(crate) fn from_encrypted(crt: Cipher) -> (r: Self)
        requires
            crt.wf(),
            crt.blocks == NUMBER_OF_BLOCKS,
            crt.val <= 127,
        ensures
            r.wf(),
            r.byte() == crt.val,
            r.fhe_ascii_char == crt,
    {
        FheAsciiChar { fhe_ascii_char: crt }
    }

    /// Encrypt one ASCII byte under the client key.
    pub(crate) fn encrypt(byte: u8, client_key: &RadixClientKey) -> (r: Self)
        requires
            byte <= 127,
        ensures
            r.wf(),
            r.byte() == byte,
    {
        FheAsciiChar { fhe_ascii_char: client_key.encrypt(byte) }
    }

    /// Trivially (publicly) encrypt one ASCII byte.
    pub(crate) fn trivial_encrypt(byte: u8, server_key: &IntegerKey) -> (r: Self)
        requires
            byte <= 127,
        ensures
            r.wf(),
            r.byte() == byte,
    {
        proof {
            lemma_block_cap_byte();
        }
        FheAsciiChar { fhe_ascii_char: server_key.create_trivial(byte as u64, NUMBER_OF_BLOCKS) }
    }

    /// Decrypt one encrypted character to its byte.
    pub(crate) fn decrypt(&self, client_key: &RadixClientKey) -> (r: u8)
        requires
            self.wf(),
        ensures
            r == self.byte(),
    {
        client_key.decrypt_u8(&self.fhe_ascii_char)
    }

    /// The wrapped ciphertext.
    pub fn unwrap(&self) -> (r: &Cipher)
        ensures
            r == &self.fhe_ascii_char,
    {
        &self.fhe_ascii_char
    }
}

/// Bytes carried by a sequence of encrypted characters.
pub open spec fn fhe_bytes(s: Seq<FheAsciiChar>) -> Seq<u8> {
    s.map_values(|c: FheAsciiChar| c.byte())
}

/// A clear or encrypted ASCII string. The byte sequence has public length;
/// in an encrypted, padded string the true content is hidden: it is the
/// subsequence of non-zero bytes, and zero bytes are padding.
pub struct FheString {
    /// The bytes when clear; empty otherwise.
    pub chars: Vec<u8>,
    /// The encrypted bytes when encrypted; empty otherwise.
    pub fhe_chars: Vec<FheAsciiChar>,
    /// Whether the string is encrypted.
    pub is_encrypted: bool,
    /// Whether the tail may contain zero (padding) bytes. May conservatively
    /// be true on a string that has none.
    pub is_padded: bool,
    /// Whether every zero byte sits in the trailing padding, so the value
    /// can be fed back into further operations. Never true unless it holds.
    pub is_reusable: bool,
}

impl Clone for FheString {
    fn clone(&self) -> (r: Self)
        ensures
            r.chars@ == self.chars@,
            r.fhe_chars@ == self.fhe_chars@,
            r.is_encrypted == self.is_encrypted,
            r.is_padded == self.is_padded,
            r.is_reusable == self.is_reusable,
            r.bytes() == self.bytes(),
            r.wf() == self.wf(),
    {
        FheString {
            chars: self.chars.clone(),
            fhe_chars: self.fhe_chars.clone(),
            is_encrypted: self.is_encrypted,
            is_padded: self.is_padded,
            is_reusable: self.is_reusable,
        }
    }
}

impl FheString {
    /// The byte sequence of the string: carried bytes when encrypted, plain
    /// bytes when clear.
    pub open spec fn bytes(&self) -> Seq<u8> {
        if self.is_encrypted {
            fhe_bytes(self.fhe_chars@)
        } else {
            self.chars@
        }
    }

    /// Spec view of the `is_encrypted` flag.
    pub open spec fn encrypted(&self) -> bool {
        self.is_encrypted
    }

    /// Spec view of the `is_padded` flag.
    pub open spec fn padded(&self) -> bool {
        self.is_padded
    }

    /// Spec view of the `is_reusable` flag.
    pub open spec fn reusable(&self) -> bool {
        self.is_reusable
    }

    /// The hidden content of the string: its bytes with the padding and any
    /// interior zeros removed. Decryption reveals exactly this.
    pub open spec fn hidden(&self) -> Seq<u8> {
        content(self.bytes())
    }

    /// Invariants of a string value:
    /// exactly one of the clear and encrypted sides is populated; clear
    /// strings are unpadded, reusable and hold proper ASCII; encrypted
    /// characters are well formed; an unpadded string holds no zero byte;
    /// a reusable string keeps all its zeros in the tail.
    pub open spec fn wf(&self) -> bool {
        &&& (if self.is_encrypted {
            self.chars@.len() == 0
        } else {
            self.fhe_chars@.len() == 0
        })
        &&& (!self.is_encrypted ==> !self.is_padded && self.is_reusable)
        &&& (!self.is_encrypted ==> ascii_content(self.chars@))
        &&& (self.is_encrypted ==> forall|i: int|
            0 <= i < self.fhe_chars@.len() ==> (#[trigger] self.fhe_chars@[i]).wf())
        &&& (!self.is_padded ==> no_zero(self.bytes()))
        &&& (self.is_reusable ==> zeros_in_tail(self.bytes()))
    }

    /// Whether the string is encrypted.
    pub fn is_encrypted(&self) -> (r: bool)
        ensures
            r == self.encrypted(),
    {
        self.is_encrypted
    }

    /// Whether the string is clear.
    pub fn is_clear(&self) -> (r: bool)
        ensures
            r == !self.encrypted(),
    {
        !self.is_encrypted
    }

    /// Whether the string may carry trailing zero padding.
    pub fn is_padded(&self) -> (r: bool)
        ensures
            r == self.padded(),
    {
        self.is_padded
    }

    /// Whether every zero byte is known to sit in the trailing padding.
    pub fn is_reusable(&self) -> (r: bool)
        ensures
            r == self.reusable(),
    {
        self.is_reusable
    }

    /// Visible length of the string: the public number of positions,
    /// padding included. The hidden length, `hidden().len()`, never exceeds
    /// it.
    pub fn len(&self) -> (r: usize)
        requires
            self.wf(),
        ensures
            r == self.bytes().len(),
    {
        if self.is_encrypted {
            self.fhe_chars.len()
        } else {
            self.chars.len()
        }
    }

    /// Build a clear string from a `String` of non-zero ASCII characters.
    pub fn from_string(string: &String) -> (r: FheString)
        requires
            forall|i: int|
                0 <= i < string@.len() ==> '\u{1}' <= #[trigger] string@[i] <= '\u{7f}',
        ensures
            r.wf(),
            !r.encrypted(),
            !r.padded(),
            r.reusable(),
            r.bytes() == string@.map_values(|c: char| c as u8),
    {
        let s: &str = string.as_str();
        FheString::from_str(s)
    }

    /// Build a clear string from a `&str` of non-zero ASCII characters.
    pub fn from_str(str: &str) -> (r: FheString)
        requires
            forall|i: int| 0 <= i < str@.len() ==> '\u{1}' <= #[trigger] str@[i] <= '\u{7f}',
        ensures
            r.wf(),
            !r.encrypted(),
            !r.padded(),
            r.reusable(),
            r.bytes() == str@.map_values(|c: char| c as u8),
    {
        proof {
            broadcast use vstd::string::is_ascii_spec_bytes;

            assert(vstd::string::is_ascii(str));
        }
        let chars = str.as_bytes_vec();
        let r = FheString {
            chars,
            fhe_chars: Vec::new(),
            is_encrypted: false,
            is_padded: false,
            is_reusable: true,
        };
        proof {
            assert(r.chars@ =~= str@.map_values(|c: char| c as u8));
        }
        r
    }

    /// Build an encrypted string from byte-wide ciphertexts carrying
    /// ASCII-or-padding values; `is_padded` and `is_reusable` must be sound
    /// for the carried bytes.
    pub(crate) fn from_encrypted(ct_vec: Vec<Cipher>, is_padded: bool, is_reusable: bool) -> (r:
        Self)
        requires
            forall|i: int|
                0 <= i < ct_vec@.len() ==> {
                    &&& (#[trigger] ct_vec@[i]).wf()
                    &&& ct_vec@[i].blocks == NUMBER_OF_BLOCKS
                    &&& ct_vec@[i].val <= 127
                },
            !is_padded ==> forall|i: int| 0 <= i < ct_vec@.len() ==> (#[trigger] ct_vec@[i]).val != 0,
            is_reusable ==> zeros_in_tail(ct_vec@.map_values(|c: Cipher| c.val as u8)),
        ensures
            r.wf(),
            r.encrypted(),
            r.padded() == is_padded,
            r.reusable() == is_reusable,
            r.bytes() == ct_vec@.map_values(|c: Cipher| c.val as u8),
    {
        let ghost target = ct_vec@.map_values(|c: Cipher| c.val as u8);
        let mut fhe_chars: Vec<FheAsciiChar> = Vec::new();
        let mut i: usize = 0;
        while i < ct_vec.len()
            invariant
                0 <= i <= ct_vec@.len(),
                fhe_chars@.len() == i,
                forall|j: int| 0 <= j < i ==> (#[trigger] fhe_chars@[j]).wf(),
                forall|j: int| 0 <= j < i ==> fhe_chars@[j].fhe_ascii_char == ct_vec@[j],
                forall|j: int|
                    0 <= j < ct_vec@.len() ==> {
                        &&& (#[trigger] ct_vec@[j]).wf()
                        &&& ct_vec@[j].blocks == NUMBER_OF_BLOCKS
                        &&& ct_vec@[j].val <= 127
                    },
            decreases ct_vec@.len() - i,
        {
            let c = ct_vec[i].clone();
            fhe_chars.push(FheAsciiChar::from_encrypted(c));
            i += 1;
        }
        let r = FheString {
            chars: Vec::new(),
            fhe_chars,
            is_encrypted: true,
            is_padded,
            is_reusable,
        };
        proof {
            assert(r.bytes() =~= target);
        }
        r
    }

    /// An empty encrypted string: no positions, no padding, reusable.
    pub fn empty_encrypted() -> (r: Self)
        ensures
            r.wf(),
            r.encrypted(),
            !r.padded(),
            r.reusable(),
            r.bytes() == Seq::<u8>::empty(),
    {
        let r = FheString {
            chars: Vec::new(),
            fhe_chars: Vec::new(),
            is_encrypted: true,
            is_padded: false,
            is_reusable: true,
        };
        proof {
            assert(r.bytes() =~= Seq::<u8>::empty());
        }
        r
    }

    /// Copy the positions `index_start..=index_end` into a fresh string. The
    /// copy of an encrypted string is conservatively marked padded.
    pub fn sub_string(&self, index_start: usize, index_end: usize) -> (r: FheString)
        requires
            self.wf(),
            index_end < self.bytes().len(),
            index_start <= index_end + 1,
        ensures
            r.wf(),
            r.encrypted() == self.encrypted(),
            r.bytes() == self.bytes().subrange(index_start as int, index_end + 1),
            r.encrypted() ==> r.padded(),
            r.reusable() == self.reusable(),
    {
        let ghost target = self.bytes().subrange(index_start as int, index_end + 1);
        let n = self.len();
        let end_excl = index_end + 1;
        if self.is_encrypted {
            let mut sub: Vec<FheAsciiChar> = Vec::new();
            let mut i: usize = index_start;
            while i < end_excl
                invariant
                    end_excl == index_end + 1,
                    index_start <= i <= index_end + 1,
                    index_end < self.fhe_chars@.len(),
                    self.wf(),
                    self.is_encrypted,
                    sub@.len() == i - index_start,
                    forall|j: int|
                        0 <= j < sub@.len() ==> sub@[j] == self.fhe_chars@[index_start + j],
                decreases index_end + 1 - i,
            {
                sub.push(self.fhe_chars[i].clone());
                i += 1;
            }
            let r = FheString {
                chars: Vec::new(),
                fhe_chars: sub,
                is_encrypted: true,
                is_padded: true,
                is_reusable: self.is_reusable,
            };
            proof {
                assert(r.bytes() =~= target);
                if self.is_reusable {
                    assert(zeros_in_tail(r.bytes()));
                }
            }
            r
        } else {
            let mut sub: Vec<u8> = Vec::new();
            let mut i: usize = index_start;
            while i < end_excl
                invariant
                    end_excl == index_end + 1,
                    index_start <= i <= index_end + 1,
                    index_end < self.chars@.len(),
                    self.wf(),
                    !self.is_encrypted,
                    sub@.len() == i - index_start,
                    forall|j: int| 0 <= j < sub@.len() ==> sub@[j] == self.chars@[index_start + j],
                decreases index_end + 1 - i,
            {
                sub.push(self.chars[i]);
                i += 1;
            }
            let r = FheString {
                chars: sub,
                fhe_chars: Vec::new(),
                is_encrypted: false,
                is_padded: false,
                is_reusable: true,
            };
            proof {
                assert(r.bytes() =~= target);
            }
            r
        }
    }

    /// Encrypt a clear string under the client key, appending `padding`
    /// encrypted zero bytes to hide its length.
    pub fn encrypt(&self, client_key: &RadixClientKey, padding: usize) -> (r: Self)
        requires
            self.wf(),
            !self.encrypted(),
        ensures
            r.wf(),
            r.encrypted(),
            r.padded() == (padding > 0),
            r.reusable(),
            r.bytes() == self.bytes() + zeros(padding as nat),
    {
        let mut fhe_chars: Vec<FheAsciiChar> = Vec::new();
        let mut i: usize = 0;
        while i < self.chars.len()
            invariant
                0 <= i <= self.chars@.len(),
                self.wf(),
                !self.is_encrypted,
                fhe_chars@.len() == i,
                forall|j: int| 0 <= j < i ==> (#[trigger] fhe_chars@[j]).wf(),
                forall|j: int| 0 <= j < i ==> fhe_chars@[j].byte() == self.chars@[j],
            decreases self.chars@.len() - i,
        {
            fhe_chars.push(FheAsciiChar::encrypt(self.chars[i], client_key));
            i += 1;
        }
        let content_len = self.chars.len();
        let mut p: usize = 0;
        while p < padding
            invariant
                0 <= p <= padding,
                self.wf(),
                !self.is_encrypted,
                content_len == self.chars@.len(),
                fhe_chars@.len() == content_len + p,
                forall|j: int| 0 <= j < fhe_chars@.len() ==> (#[trigger] fhe_chars@[j]).wf(),
                forall|j: int| 0 <= j < content_len ==> fhe_chars@[j].byte() == self.chars@[j],
                forall|j: int|
                    content_len <= j < fhe_chars@.len() ==> (#[trigger] fhe_chars@[j]).byte() == 0,
            decreases padding - p,
        {
            fhe_chars.push(FheAsciiChar::encrypt(0, client_key));
            p += 1;
        }
        let r = FheString {
            chars: Vec::new(),
            fhe_chars,
            is_encrypted: true,
            is_padded: padding > 0,
            is_reusable: true,
        };
        proof {
            assert(r.bytes() =~= self.bytes() + zeros(padding as nat));
        }
        r
    }

    /// Trivially (publicly) encrypt a clear string, appending `padding`
    /// trivial zero bytes.
    pub fn trivial_encrypt(&self, server_key: &IntegerKey, padding: usize) -> (r: Self)
        requires
            self.wf(),
            !self.encrypted(),
        ensures
            r.wf(),
            r.encrypted(),
            r.padded() == (padding > 0),
            r.reusable(),
            r.bytes() == self.bytes() + zeros(padding as nat),
    {
        let mut fhe_chars: Vec<FheAsciiChar> = Vec::new();
        let mut i: usize = 0;
        while i < self.chars.len()
            invariant
                0 <= i <= self.chars@.len(),
                self.wf(),
                !self.is_encrypted,
                fhe_chars@.len() == i,
                forall|j: int| 0 <= j < i ==> (#[trigger] fhe_chars@[j]).wf(),
                forall|j: int| 0 <= j < i ==> fhe_chars@[j].byte() == self.chars@[j],
            decreases self.chars@.len() - i,
        {
            fhe_chars.push(FheAsciiChar::trivial_encrypt(self.chars[i], server_key));
            i += 1;
        }
        let content_len = self.chars.len();
        let mut p: usize = 0;
        while p < padding
            invariant
                0 <= p <= padding,
                self.wf(),
                !self.is_encrypted,
                content_len == self.chars@.len(),
                fhe_chars@.len() == content_len + p,
                forall|j: int| 0 <= j < fhe_chars@.len() ==> (#[trigger] fhe_chars@[j]).wf(),
                forall|j: int| 0 <= j < content_len ==> fhe_chars@[j].byte() == self.chars@[j],
                forall|j: int|
                    content_len <= j < fhe_chars@.len() ==> (#[trigger] fhe_chars@[j]).byte() == 0,
            decreases padding - p,
        {
            fhe_chars.push(FheAsciiChar::trivial_encrypt(0, server_key));
            p += 1;
        }
        let r = FheString {
            chars: Vec::new(),
            fhe_chars,
            is_encrypted: true,
            is_padded: padding > 0,
            is_reusable: true,
        };
        proof {
            assert(r.bytes() =~= self.bytes() + zeros(padding as nat));
        }
        r
    }

    /// Decrypt an encrypted string: reveals exactly the hidden content (all
    /// zero bytes removed) as a clear, unpadded, reusable string.
    pub fn decrypt(&self, client_key: &RadixClientKey) -> (r: FheString)
        requires
            self.wf(),
            self.encrypted(),
        ensures
            r.wf(),
            !r.encrypted(),
            !r.padded(),
            r.reusable(),
            r.bytes() == self.hidden(),
    {
        let mut chars: Vec<u8> = Vec::new();
        let mut i: usize = 0;
        while i < self.fhe_chars.len()
            invariant
                0 <= i <= self.fhe_chars@.len(),
                self.wf(),
                self.is_encrypted,
                chars@ == content(self.bytes().take(i as int)),
                ascii_content(chars@),
            decreases self.fhe_chars@.len() - i,
        {
            let byte = self.fhe_chars[i].decrypt(client_key);
            proof {
                lemma_content_take_succ(self.bytes(), i as int);
            }
            if byte != 0 {
                chars.push(byte);
            }
            i += 1;
        }
        proof {
            assert(self.bytes().take(self.bytes().len() as int) =~= self.bytes());
        }
        FheString {
            chars,
            fhe_chars: Vec::new(),
            is_encrypted: false,
            is_padded: false,
            is_reusable: true,
        }
    }

    /// Render the positions `start..end` of a clear string as a `String`.
    pub fn slice_to_string(&self, start: usize, end: usize) -> (r: String)
        requires
            self.wf(),
            !self.encrypted(),
            start <= end <= self.bytes().len(),
        ensures
            r@ == self.bytes().subrange(start as int, end as int).map_values(|b: u8| b as char),
    {
        let mut sub: Vec<u8> = Vec::new();
        let mut i: usize = start;
        while i < end
            invariant
                start <= i <= end,
                end <= self.chars@.len(),
                self.wf(),
                !self.is_encrypted,
                sub@.len() == i - start,
                forall|j: int| 0 <= j < sub@.len() ==> sub@[j] == self.chars@[start + j],
            decreases end - i,
        {
            sub.push(self.chars[i]);
            i += 1;
        }
        proof {
            assert(sub@ =~= self.bytes().subrange(start as int, end as int));
        }
        string_from_ascii(sub)
    }

    /// Render a clear string as a `String`.
    pub fn to_string(&self) -> (r: String)
        requires
            self.wf(),
            !self.encrypted(),
        ensures
            r@ == self.bytes().map_values(|b: u8| b as char),
    {
        let len = self.len();
        let r = self.slice_to_string(0, len);
        proof {
            assert(self.bytes().subrange(0, self.bytes().len() as int) =~= self.bytes());
        }
        r
    }

    /// Reverse the string in place. A padded string loses reusability: its
    /// padding moves to the front.
    pub fn reverse(&mut self)
        requires
            old(self).wf(),
        ensures
            final(self).wf(),
            final(self).encrypted() == old(self).encrypted(),
            final(self).padded() == old(self).padded(),
            final(self).reusable() == !old(self).padded(),
            final(self).bytes() == old(self).bytes().reverse(),
    {
        let ghost target = old(self).bytes().reverse();
        if self.is_encrypted {
            let n = self.fhe_chars.len();
            let mut rev: Vec<FheAsciiChar> = Vec::new();
            let mut i: usize = 0;
            while i < n
                invariant
                    0 <= i <= n,
                    n == self.fhe_chars@.len(),
                    self == old(self),
                    self.wf(),
                    self.is_encrypted,
                    rev@.len() == i,
                    forall|j: int| 0 <= j < i ==> rev@[j] == self.fhe_chars@[n - 1 - j],
                decreases n - i,
            {
                rev.push(self.fhe_chars[n - 1 - i].clone());
                i += 1;
            }
            self.fhe_chars = rev;
            self.is_reusable = !self.is_padded;
            proof {
                assert(self.bytes() =~= target);
            }
        } else {
            let n = self.chars.len();
            let mut rev: Vec<u8> = Vec::new();
            let mut i: usize = 0;
            while i < n
                invariant
                    0 <= i <= n,
                    n == self.chars@.len(),
                    self == old(self),
                    self.wf(),
                    !self.is_encrypted,
                    rev@.len() == i,
                    forall|j: int| 0 <= j < i ==> rev@[j] == self.chars@[n - 1 - j],
                decreases n - i,
            {
                rev.push(self.chars[n - 1 - i]);
                i += 1;
            }
            self.chars = rev;
            self.is_reusable = !self.is_padded;
            proof {
                assert(self.bytes() =~= target);
            }
        }
    }

    /// Append `padding` trivial zero bytes to an encrypted string. The
    /// reusability flag is left unchanged: zeros appended after a reusable
    /// value extend its tail.
    pub fn pad(&mut self, padding: usize, server_key: &IntegerKey)
        requires
            old(self).wf(),
            old(self).encrypted(),
        ensures
            final(self).wf(),
            final(self).encrypted(),
            final(self).padded() == (old(self).padded() || padding > 0),
            final(self).reusable() == old(self).reusable(),
            final(self).bytes() == old(self).bytes() + zeros(padding as nat),
    {
        if padding > 0 {
            let ghost target = old(self).bytes() + zeros(padding as nat);
            let ghost content_len = old(self).fhe_chars@.len();
            let mut p: usize = 0;
            while p < padding
                invariant
                    0 <= p <= padding,
                    old(self).wf(),
                    old(self).encrypted(),
                    self.chars@.len() == 0,
                    self.is_encrypted,
                    self.is_padded == old(self).is_padded,
                    self.is_reusable == old(self).is_reusable,
                    self.fhe_chars@.len() == content_len + p,
                    forall|j: int| 0 <= j < content_len ==> self.fhe_chars@[j] == old(self).fhe_chars@[j],
                    forall|j: int|
                        content_len <= j < self.fhe_chars@.len() ==> {
                            &&& (#[trigger] self.fhe_chars@[j]).wf()
                            &&& self.fhe_chars@[j].byte() == 0
                        },
                decreases padding - p,
            {
                self.fhe_chars.push(FheAsciiChar::trivial_encrypt(0, server_key));
                p += 1;
            }
            self.is_padded = true;
            proof {
                assert(forall|j: int|
                    0 <= j < content_len ==> (#[trigger] self.fhe_chars@[j]).wf());
                assert(self.bytes() =~= target);
                assert(forall|j: int|
                    0 <= j < content_len ==> self.bytes()[j] == old(self).bytes()[j]);
                if old(self).is_reusable {
                    assert(zeros_in_tail(self.bytes()));
                }
                if !old(self).is_padded {
                    assert(no_zero(old(self).bytes()));
                    assert(zeros_in_tail(self.bytes()));
                }
            }
        } else {
            proof {
                assert(self.bytes() =~= old(self).bytes() + zeros(0));
            }
        }
    }

    /// The concatenation of `n` copies of `b`.
    pub open spec fn repeat_bytes(b: Seq<u8>, n: nat) -> Seq<u8>
        decreases n,
    {
        if n == 0 {
            Seq::empty()
        } else {
            Self::repeat_bytes(b, (n - 1) as nat) + b
        }
    }

    /// Repeat the string `n` times. If the string is padded, the copies
    /// leave padding in the middle and the result is not reusable.
    pub fn repeat(&self, n: usize) -> (r: FheString)
        requires
            self.wf(),
        ensures
            r.wf(),
            r.bytes() == Self::repeat_bytes(self.bytes(), n as nat),
            r.encrypted() == self.encrypted(),
            r.padded() == (self.encrypted() && n > 0 && self.padded()),
            r.reusable() == (!self.encrypted() || n == 0 || (n == 1 && self.reusable()) || (n > 1
                && !self.padded())),
    {
        if !self.is_encrypted {
            let mut chars: Vec<u8> = Vec::new();
            let mut i: usize = 0;
            while i < n
                invariant
                    0 <= i <= n,
                    self.wf(),
                    !self.is_encrypted,
                    chars@ == Self::repeat_bytes(self.bytes(), i as nat),
                    ascii_content(chars@),
                decreases n - i,
            {
                let mut k: usize = 0;
                let ghost before = chars@;
                while k < self.chars.len()
                    invariant
                        0 <= k <= self.chars@.len(),
                        self.wf(),
                        !self.is_encrypted,
                        chars@ == before + self.chars@.take(k as int),
                    decreases self.chars@.len() - k,
                {
                    chars.push(self.chars[k]);
                    proof {
                        assert(chars@ =~= before + self.chars@.take(k + 1));
                    }
                    k += 1;
                }
                proof {
                    assert(self.chars@.take(self.chars@.len() as int) =~= self.chars@);
                }
                i += 1;
            }
            FheString {
                chars,
                fhe_chars: Vec::new(),
                is_encrypted: false,
                is_padded: false,
                is_reusable: true,
            }
        } else if n == 0 {
            let r = FheString::empty_encrypted();
            proof {
                assert(r.bytes() =~= Self::repeat_bytes(self.bytes(), 0));
            }
            r
        } else if n == 1 {
            let r = self.clone();
            proof {
                assert(Self::repeat_bytes(self.bytes(), 0) =~= Seq::<u8>::empty());
                assert(Self::repeat_bytes(self.bytes(), 1) =~= self.bytes());
            }
            r
        } else {
            let mut fhe_chars: Vec<FheAsciiChar> = Vec::new();
            let mut i: usize = 0;
            while i < n
                invariant
                    0 <= i <= n,
                    self.wf(),
                    self.is_encrypted,
                    fhe_bytes(fhe_chars@) == Self::repeat_bytes(self.bytes(), i as nat),
                    forall|j: int| 0 <= j < fhe_chars@.len() ==> (#[trigger] fhe_chars@[j]).wf(),
                    !self.is_padded ==> no_zero(fhe_bytes(fhe_chars@)),
                decreases n - i,
            {
                let mut k: usize = 0;
                let ghost before = fhe_chars@;
                while k < self.fhe_chars.len()
                    invariant
                        0 <= k <= self.fhe_chars@.len(),
                        self.wf(),
                        self.is_encrypted,
                        fhe_chars@ == before + self.fhe_chars@.take(k as int),
                    decreases self.fhe_chars@.len() - k,
                {
                    fhe_chars.push(self.fhe_chars[k].clone());
                    proof {
                        assert(fhe_chars@ =~= before + self.fhe_chars@.take(k + 1));
                    }
                    k += 1;
                }
                proof {
                    assert(self.fhe_chars@.take(self.fhe_chars@.len() as int) =~= self.fhe_chars@);
                    assert(fhe_bytes(fhe_chars@) =~= fhe_bytes(before) + self.bytes());
                    if !self.is_padded {
                        assert(no_zero(fhe_bytes(fhe_chars@)));
                    }
                }
                i += 1;
            }
            let r = FheString {
                chars: Vec::new(),
                fhe_chars,
                is_encrypted: true,
                is_padded: self.is_padded,
                is_reusable: !self.is_padded,
            };
            proof {
                if !self.is_padded {
                    assert(zeros_in_tail(r.bytes()));
                }
            }
            r
        }
    }

    /// The concatenation of the byte sequences of a list of strings.
    pub open spec fn concat_bytes(v: Seq<FheString>) -> Seq<u8>
        decreases v.len(),
    {
        if v.len() == 0 {
            Seq::empty()
        } else {
            Self::concat_bytes(v.drop_last()) + v.last().bytes()
        }
    }

    /// Concatenate a non-empty list of strings, all clear or all encrypted.
    /// Padding inside any string but the last leaves interior zeros, so the
    /// result is reusable only when every string but the last is unpadded
    /// and the last is reusable.
    pub fn concatenate(fhe_strings: &Vec<FheString>) -> (r: FheString)
        requires
            fhe_strings@.len() > 0,
            forall|i: int| 0 <= i < fhe_strings@.len() ==> (#[trigger] fhe_strings@[i]).wf(),
            forall|i: int|
                0 <= i < fhe_strings@.len() ==> (#[trigger] fhe_strings@[i]).encrypted()
                    == fhe_strings@[0].encrypted(),
        ensures
            r.wf(),
            r.bytes() == Self::concat_bytes(fhe_strings@),
            r.encrypted() == fhe_strings@[0].encrypted(),
            r.padded() == exists|i: int|
                0 <= i < fhe_strings@.len() && (#[trigger] fhe_strings@[i]).padded(),
            r.reusable() == if fhe_strings@.len() > 1 {
                (forall|i: int|
                    0 <= i < fhe_strings@.len() - 1 ==> !(#[trigger] fhe_strings@[i]).padded())
                    && fhe_strings@.last().reusable()
            } else {
                fhe_strings@[0].reusable()
            },
    {
        let n = fhe_strings.len();
        let encrypted = fhe_strings[0].is_encrypted();
        let mut chars: Vec<u8> = Vec::new();
        let mut fhe_chars: Vec<FheAsciiChar> = Vec::new();
        let mut any_padded: bool = false;
        let mut prefix_unpadded: bool = true;
        let mut i: usize = 0;
        while i < n
            invariant
                0 <= i <= n,
                n == fhe_strings@.len(),
                n > 0,
                forall|k: int| 0 <= k < n ==> (#[trigger] fhe_strings@[k]).wf(),
                forall|k: int|
                    0 <= k < n ==> (#[trigger] fhe_strings@[k]).encrypted() == encrypted,
                encrypted ==> chars@.len() == 0 && fhe_bytes(fhe_chars@) == Self::concat_bytes(
                    fhe_strings@.take(i as int),
                ),
                !encrypted ==> fhe_chars@.len() == 0 && chars@ == Self::concat_bytes(
                    fhe_strings@.take(i as int),
                ),
                forall|j: int| 0 <= j < fhe_chars@.len() ==> (#[trigger] fhe_chars@[j]).wf(),
                ascii_content(chars@),
                any_padded == exists|k: int|
                    0 <= k < i && (#[trigger] fhe_strings@[k]).padded(),
                prefix_unpadded == forall|k: int|
                    0 <= k < i ==> !(#[trigger] fhe_strings@[k]).padded(),
                prefix_unpadded ==> no_zero(fhe_bytes(fhe_chars@)),
            decreases n - i,
        {
            let ghost before_f = fhe_chars@;
            let ghost before_c = chars@;
            let s = &fhe_strings[i];
            if encrypted {
                let mut k: usize = 0;
                while k < s.fhe_chars.len()
                    invariant
                        0 <= k <= s.fhe_chars@.len(),
                        s.wf(),
                        s.is_encrypted,
                        fhe_chars@ == before_f + s.fhe_chars@.take(k as int),
                    decreases s.fhe_chars@.len() - k,
                {
                    fhe_chars.push(s.fhe_chars[k].clone());
                    proof {
                        assert(fhe_chars@ =~= before_f + s.fhe_chars@.take(k + 1));
                    }
                    k += 1;
                }
                proof {
                    assert(s.fhe_chars@.take(s.fhe_chars@.len() as int) =~= s.fhe_chars@);
                    assert(fhe_strings@.take(i + 1).drop_last() =~= fhe_strings@.take(i as int));
                    assert(fhe_bytes(fhe_chars@) =~= fhe_bytes(before_f) + s.bytes());
                    assert(fhe_bytes(fhe_chars@) =~= Self::concat_bytes(fhe_strings@.take(i + 1)));
                }
            } else {
                let mut k: usize = 0;
                while k < s.chars.len()
                    invariant
                        0 <= k <= s.chars@.len(),
                        s.wf(),
                        !s.is_encrypted,
                        chars@ == before_c + s.chars@.take(k as int),
                    decreases s.chars@.len() - k,
                {
                    chars.push(s.chars[k]);
                    proof {
                        assert(chars@ =~= before_c + s.chars@.take(k + 1));
                    }
                    k += 1;
                }
                proof {
                    assert(s.chars@.take(s.chars@.len() as int) =~= s.chars@);
                    assert(fhe_strings@.take(i + 1).drop_last() =~= fhe_strings@.take(i as int));
                    assert(chars@ =~= Self::concat_bytes(fhe_strings@.take(i + 1)));
                }
            }
            let padded_i = s.is_padded();
            any_padded = any_padded || padded_i;
            prefix_unpadded = prefix_unpadded && !padded_i;
            proof {
                if prefix_unpadded {
                    assert(!s.is_padded);
                    assert(no_zero(s.bytes()));
                    assert(no_zero(fhe_bytes(fhe_chars@)));
                }
            }
            i += 1;
        }
        let is_reusable = if n > 1 {
            let mut all_unpadded_but_last: bool = true;
            let mut k: usize = 0;
            while k < n - 1
                invariant
                    0 <= k <= n - 1,
                    n == fhe_strings@.len(),
                    n > 1,
                    forall|j: int| 0 <= j < n ==> (#[trigger] fhe_strings@[j]).wf(),
                    all_unpadded_but_last == forall|j: int|
                        0 <= j < k ==> !(#[trigger] fhe_strings@[j]).padded(),
                decreases n - 1 - k,
            {
                all_unpadded_but_last = all_unpadded_but_last && !fhe_strings[k].is_padded();
                k += 1;
            }
            all_unpadded_but_last && fhe_strings[n - 1].is_reusable()
        } else {
            fhe_strings[0].is_reusable()
        };
        proof {
            assert(fhe_strings@.take(n as int) =~= fhe_strings@);
        }
        let r = FheString {
            chars,
            fhe_chars,
            is_encrypted: encrypted,
            is_padded: any_padded,
            is_reusable,
        };
        proof {
            if is_reusable && r.is_encrypted {
                lemma_concat_reusable(fhe_strings@, r.bytes());
            }
            if !any_padded {
                lemma_concat_unpadded(fhe_strings@, r.bytes());
            }
            if !encrypted {
                assert(!any_padded);
                assert(is_reusable);
            }
        }
        r
    }

    /// The clear bytes of a clear string.
    pub(crate) fn chars(&self) -> (r: &Vec<u8>)
        requires
            self.wf(),
            !self.encrypted(),
        ensures
            r@ == self.bytes(),
    {
        &self.chars
    }

    /// The encrypted characters of an encrypted string.
    pub(crate) fn fhe_chars(&self) -> (r: &Vec<FheAsciiChar>)
        requires
            self.wf(),
            self.encrypted(),
        ensures
            fhe_bytes(r@) == self.bytes(),
            r@.len() == self.bytes().len(),
            forall|i: int| 0 <= i < r@.len() ==> (#[trigger] r@[i]).wf(),
            forall|i: int| 0 <= i < r@.len() ==> (#[trigger] r@[i]).byte() == self.bytes()[i],
    {
        &self.fhe_chars
    }
}

/// In a concatenation whose strings are all unpadded except possibly a
/// reusable last one, every zero sits in the tail.
proof fn lemma_concat_reusable(v: Seq<FheString>, b: Seq<u8>)
    requires
        v.len() > 0,
        forall|i: int| 0 <= i < v.len() ==> (#[trigger] v[i]).wf(),
        b == FheString::concat_bytes(v),
        v.len() > 1 ==> (forall|i: int| 0 <= i < v.len() - 1 ==> !(#[trigger] v[i]).padded())
            && v.last().reusable(),
        v.len() == 1 ==> v[0].reusable(),
    ensures
        zeros_in_tail(b),
    decreases v.len(),
{
    if v.len() == 1 {
        assert(v.drop_last().len() == 0);
        assert(FheString::concat_bytes(v.drop_last()) =~= Seq::<u8>::empty());
        assert(v.last() == v[0]);
        assert(b =~= v[0].bytes());
    } else {
        let prefix = FheString::concat_bytes(v.drop_last());
        lemma_concat_no_zero(v.drop_last(), prefix);
        assert(b == prefix + v.last().bytes());
        assert forall|i: int, j: int| 0 <= i < j < b.len() && b[i] == 0 implies b[j] == 0 by {
            assert(i >= prefix.len());
            assert(b[i] == v.last().bytes()[i - prefix.len()]);
            assert(b[j] == v.last().bytes()[j - prefix.len()]);
        }
    }
}

/// The concatenation of unpadded (hence zero-free) strings is zero-free.
proof fn lemma_concat_no_zero(v: Seq<FheString>, b: Seq<u8>)
    requires
        forall|i: int| 0 <= i < v.len() ==> (#[trigger] v[i]).wf(),
        forall|i: int| 0 <= i < v.len() ==> !(#[trigger] v[i]).padded(),
        b == FheString::concat_bytes(v),
    ensures
        no_zero(b),
    decreases v.len(),
{
    if v.len() > 0 {
        let prefix = FheString::concat_bytes(v.drop_last());
        lemma_concat_no_zero(v.drop_last(), prefix);
        assert(no_zero(v.last().bytes()));
        assert forall|i: int| 0 <= i < b.len() implies b[i] != 0 by {
            if i >= prefix.len() {
                assert(b[i] == v.last().bytes()[i - prefix.len()]);
            }
        }
    }
}

/// Same fact, stated for the flag combination used by `concatenate`.
proof fn lemma_concat_unpadded(v: Seq<FheString>, b: Seq<u8>)
    requires
        forall|i: int| 0 <= i < v.len() ==> (#[trigger] v[i]).wf(),
        !exists|i: int| 0 <= i < v.len() && (#[trigger] v[i]).padded(),
        b == FheString::concat_bytes(v),
    ensures
        no_zero(b),
{
    assert(forall|i: int| 0 <= i < v.len() ==> !(#[trigger] v[i]).padded());
    lemma_concat_no_zero(v, b);
}

/// Relies on `String::from_utf8`: a vector of ASCII bytes decodes to the
/// string whose characters are exactly those bytes.
#[verifier::external_body]
pub(crate) fn string_from_ascii(bytes: Vec<u8>) -> (r: String)
    requires
        forall|i: int| 0 <= i < bytes@.len() ==> bytes@[i] <= 127,
    ensures
        r@ == bytes@.map_values(|b: u8| b as char),
{
    String::from_utf8(bytes).unwrap_or_default()
}

} // verus!
