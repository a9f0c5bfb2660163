//! The server-side key wrapper: utility layer shared by every oblivious
//! string operation (trivial encryption, boolean reductions, block-width
//! harmonisation, hidden length, emptiness, equality, masking, selection
//! and reusability repair).

use vstd::prelude::*;

use crate::cipher::{block_cap, lemma_block_cap_byte, lemma_block_cap_fits_u64,
    lemma_block_cap_monotone, Cipher, IntegerKey, MAX_BLOCKS};
use crate::ciphertext::FheString;
use crate::model::{all_zero, content, lemma_content_take_succ, zeros_in_tail};
use crate::par::{par_mixed_cmp_chars, par_pair_cmp_chars, par_scalar_cmp_chars, PairCmp, ScalarCmp};
use crate::NUMBER_OF_BLOCKS;

verus! {

/// A single-bit ciphertext: one block carrying zero or one.
pub open spec fn wf_bool(c: Cipher) -> bool {
    &&& c.wf()
    &&& c.blocks == 1
    &&& c.val <= 1
}

/// A vector of single-bit ciphertexts.
pub open spec fn wf_bool_seq(v: Seq<Cipher>) -> bool {
    forall|i: int| 0 <= i < v.len() ==> wf_bool(#[trigger] v[i])
}

/// Wrapper around the evaluation key of the homomorphic integer layer.
pub struct ServerKey {
    pub key: IntegerKey,
}

impl Clone for ServerKey {
    fn clone(&self) -> (r: Self)
        ensures
            r == *self,
    {
        ServerKey { key: self.key.clone() }
    }
}

impl ServerKey {
    pub fn new(key: IntegerKey) -> (r: Self)
        ensures
            r.key == key,
    {
        ServerKey { key }
    }

    /// Trivially encrypt a clear string, appending `padding` zero bytes.
    pub fn trivial_encrypt_fhe_string(&self, fhe_string: &FheString, padding: usize) -> (r:
        FheString)
        requires
            fhe_string.wf(),
            !fhe_string.encrypted(),
        ensures
            r.wf(),
            r.encrypted(),
            r.padded() == (padding > 0),
            r.reusable(),
            r.bytes() == fhe_string.bytes() + crate::model::zeros(padding as nat),
    {
        fhe_string.trivial_encrypt(&self.key, padding)
    }

    /// Trivially encrypt a `String`, appending `padding` zero bytes.
    pub fn trivial_encrypt_string(&self, string: &String, padding: usize) -> (r: FheString)
        requires
            forall|i: int|
                0 <= i < string@.len() ==> '\u{1}' <= #[trigger] string@[i] <= '\u{7f}',
        ensures
            r.wf(),
            r.encrypted(),
            r.padded() == (padding > 0),
            r.reusable(),
            r.bytes() == string@.map_values(|c: char| c as u8) + crate::model::zeros(
                padding as nat,
            ),
    {
        self.trivial_encrypt_fhe_string(&FheString::from_string(string), padding)
    }

    /// Trivially encrypt a `&str`, appending `padding` zero bytes.
    pub fn trivial_encrypt_str(&self, string: &str, padding: usize) -> (r: FheString)
        requires
            forall|i: int| 0 <= i < string@.len() ==> '\u{1}' <= #[trigger] string@[i] <= '\u{7f}',
        ensures
            r.wf(),
            r.encrypted(),
            r.padded() == (padding > 0),
            r.reusable(),
            r.bytes() == string@.map_values(|c: char| c as u8) + crate::model::zeros(
                padding as nat,
            ),
    {
        self.trivial_encrypt_fhe_string(&FheString::from_str(string), padding)
    }

    /// A trivial single-bit ciphertext carrying the given truth value.
    pub fn make_trivial_bool(&self, boolean: bool) -> (r: Cipher)
        ensures
            wf_bool(r),
            r.as_bool() == boolean,
    {
        proof {
            lemma_block_cap_byte();
        }
        if boolean {
            self.key.create_trivial(1u64, 1)
        } else {
            self.key.create_trivial_zero(1)
        }
    }

    /// Boolean NOT of a single-bit ciphertext, computed as `1 - x`.
    pub fn not(&self, boolean_value: &Cipher) -> (r: Cipher)
        requires
            wf_bool(*boolean_value),
        ensures
            wf_bool(r),
            r.as_bool() == !boolean_value.as_bool(),
    {
        let mut not_value = self.make_trivial_bool(true);
        self.key.sub_assign(&mut not_value, boolean_value);
        not_value
    }

    /// Whether every single-bit ciphertext in the vector is true
    /// (conjunction with identity true).
    pub fn all(&self, values: Vec<Cipher>) -> (r: Cipher)
        requires
            wf_bool_seq(values@),
        ensures
            wf_bool(r),
            r.as_bool() == forall|i: int| 0 <= i < values@.len() ==> (#[trigger] values@[i]).as_bool(),
    {
        let mut acc = self.make_trivial_bool(true);
        let mut i: usize = 0;
        while i < values.len()
            invariant
                0 <= i <= values@.len(),
                wf_bool_seq(values@),
                wf_bool(acc),
                acc.as_bool() == forall|j: int| 0 <= j < i ==> (#[trigger] values@[j]).as_bool(),
            decreases values@.len() - i,
        {
            self.key.bitand_assign(&mut acc, &values[i]);
            i += 1;
        }
        acc
    }

    /// Whether any single-bit ciphertext in the vector is true
    /// (disjunction with identity false).
    pub fn any(&self, values: Vec<Cipher>) -> (r: Cipher)
        requires
            wf_bool_seq(values@),
        ensures
            wf_bool(r),
            r.as_bool() == exists|i: int| 0 <= i < values@.len() && (#[trigger] values@[i]).as_bool(),
    {
        let mut acc = self.make_trivial_bool(false);
        let mut i: usize = 0;
        while i < values.len()
            invariant
                0 <= i <= values@.len(),
                wf_bool_seq(values@),
                wf_bool(acc),
                acc.as_bool() == exists|j: int| 0 <= j < i && (#[trigger] values@[j]).as_bool(),
            decreases values@.len() - i,
        {
            self.key.bitor_assign(&mut acc, &values[i]);
            i += 1;
        }
        acc
    }

    /// Smallest block count whose capacity exceeds `x`: the least `k` with
    /// `4^k > x`.
    pub fn compute_blocks_for_len(x: u64) -> (r: usize)
        ensures
            1 <= r <= MAX_BLOCKS,
            block_cap(r as nat) > x,
            r > 1 ==> block_cap((r - 1) as nat) <= x,
    {
        let mut k: usize = 1;
        let mut cap: u128 = 4;
        proof {
            lemma_block_cap_byte();
        }
        while cap <= x as u128
            invariant
                1 <= k <= MAX_BLOCKS,
                cap == block_cap(k as nat),
                k > 1 ==> block_cap((k - 1) as nat) <= x,
            decreases MAX_BLOCKS - k,
        {
            proof {
                lemma_block_cap_fits_u64(k as nat);
                if k >= MAX_BLOCKS {
                    lemma_block_cap_fits_u64(MAX_BLOCKS as nat);
                    lemma_block_cap_monotone(MAX_BLOCKS as nat, k as nat);
                    assert(block_cap(MAX_BLOCKS as nat) == 0x1_0000_0000_0000_0000) by {
                        reveal_with_fuel(block_cap, 33);
                    }
                    assert(false);
                }
            }
            cap = cap * 4;
            k += 1;
        }
        k
    }

    /// Zero-extend whichever of the two ciphertexts has fewer blocks so
    /// that both end with the same block count.
    pub fn extend_equally(&self, var_1: &mut Cipher, var_2: &mut Cipher)
        requires
            old(var_1).wf(),
            old(var_2).wf(),
        ensures
            final(var_1).wf(),
            final(var_2).wf(),
            final(var_1).val == old(var_1).val,
            final(var_2).val == old(var_2).val,
            final(var_1).blocks == final(var_2).blocks,
            final(var_1).blocks == if old(var_1).blocks >= old(var_2).blocks {
                old(var_1).blocks
            } else {
                old(var_2).blocks
            },
    {
        if var_1.blocks < var_2.blocks {
            let diff = var_2.blocks - var_1.blocks;
            self.key.extend_blocks_assign(var_1, diff);
        } else if var_1.blocks > var_2.blocks {
            let diff = var_1.blocks - var_2.blocks;
            self.key.extend_blocks_assign(var_2, diff);
        }
    }

    /// The hidden length of a string: a ciphertext carrying the number of
    /// non-zero bytes. Unpadded and clear strings cost nothing; a padded
    /// encrypted string is counted homomorphically.
    pub fn len(&self, fhe_string: &FheString) -> (r: Cipher)
        requires
            fhe_string.wf(),
        ensures
            r.wf(),
            r.val == fhe_string.hidden().len(),
    {
        let visible_len = fhe_string.len();
        proof {
            crate::model::lemma_content_len(fhe_string.bytes());
        }
        if visible_len == 0 {
            proof {
                assert(fhe_string.bytes() =~= Seq::<u8>::empty());
                crate::model::lemma_content_all_zero(fhe_string.bytes());
            }
            return self.make_trivial_bool(false);
        }
        let n_blocks = Self::compute_blocks_for_len(visible_len as u64);
        if !fhe_string.is_padded() {
            proof {
                crate::model::lemma_content_no_zero(fhe_string.bytes());
            }
            return self.key.create_trivial(visible_len as u64, n_blocks);
        }
        if !fhe_string.is_encrypted() {
            proof {
                crate::model::lemma_content_no_zero(fhe_string.bytes());
            }
            return self.key.create_trivial(visible_len as u64, n_blocks);
        }
        // the string is encrypted and may hide its length: count the
        // non-zero bytes
        let fhe_chars = fhe_string.fhe_chars();
        let n = fhe_chars.len();
        let greater_than_zero = par_scalar_cmp_chars(&self.key, fhe_chars, 0, n, ScalarCmp::Ne, 0u64);
        let mut hidden_length = self.key.create_trivial_zero(n_blocks);
        let mut i: usize = 0;
        while i < n
            invariant
                0 <= i <= n,
                n == fhe_string.bytes().len(),
                fhe_string.wf(),
                fhe_string.encrypted(),
                greater_than_zero@.len() == n,
                forall|j: int|
                    0 <= j < n ==> {
                        &&& wf_bool(#[trigger] greater_than_zero@[j])
                        &&& greater_than_zero@[j].as_bool() == (fhe_string.bytes()[j] != 0)
                    },
                hidden_length.wf(),
                hidden_length.blocks == n_blocks,
                hidden_length.val == content(fhe_string.bytes().take(i as int)).len(),
                1 <= n_blocks <= MAX_BLOCKS,
                block_cap(n_blocks as nat) > n,
            decreases n - i,
        {
            proof {
                lemma_content_take_succ(fhe_string.bytes(), i as int);
                crate::model::lemma_content_len(fhe_string.bytes().take(i as int));
            }
            let wide = self.key.extend_blocks(&greater_than_zero[i], n_blocks - 1);
            self.key.add_assign(&mut hidden_length, &wide);
            i += 1;
        }
        proof {
            assert(fhe_string.bytes().take(n as int) =~= fhe_string.bytes());
        }
        hidden_length
    }

    /// Whether the slice `start..end` of the string is empty, that is,
    /// carries only zero bytes.
    pub fn is_empty_indices(&self, fhe_string: &FheString, indices: (usize, usize)) -> (r: Cipher)
        requires
            fhe_string.wf(),
            indices.0 <= indices.1 <= fhe_string.bytes().len(),
        ensures
            wf_bool(r),
            r.as_bool() == all_zero(fhe_string.bytes().subrange(indices.0 as int, indices.1 as int)),
    {
        let (start, end) = indices;
        let ghost slice = fhe_string.bytes().subrange(start as int, end as int);
        if end - start == 0 {
            proof {
                assert(slice.len() == 0);
                assert(all_zero(slice));
            }
            return self.make_trivial_bool(true);
        }
        if !fhe_string.is_encrypted() {
            proof {
                assert(slice.len() > 0);
                assert(slice[0] == fhe_string.bytes()[start as int]);
                assert(slice[0] != 0);
                assert(!all_zero(slice));
            }
            return self.make_trivial_bool(false);
        }
        let fhe_chars = fhe_string.fhe_chars();
        let equal_zero = par_scalar_cmp_chars(
            &self.key,
            fhe_chars,
            start,
            end - start,
            ScalarCmp::Eq,
            0u64,
        );
        let r = self.all(equal_zero);
        proof {
            assert(r.as_bool() == all_zero(slice)) by {
                if r.as_bool() {
                    assert forall|j: int| 0 <= j < slice.len() implies slice[j] == 0 by {
                        assert(equal_zero@[j].as_bool());
                    }
                } else {
                    let w = choose|j: int|
                        0 <= j < equal_zero@.len() && !(#[trigger] equal_zero@[j]).as_bool();
                    assert(slice[w] != 0);
                }
            }
        }
        r
    }

    /// Whether two equally long slices of two strings carry identical bytes.
    pub(crate) fn eq_same_size_indices(
        &self,
        fhe_string_1: &FheString,
        indices_1: (usize, usize),
        fhe_string_2: &FheString,
        indices_2: (usize, usize),
    ) -> (r: Cipher)
        requires
            fhe_string_1.wf(),
            fhe_string_2.wf(),
            indices_1.0 <= indices_1.1 <= fhe_string_1.bytes().len(),
            indices_2.0 <= indices_2.1 <= fhe_string_2.bytes().len(),
            indices_1.1 - indices_1.0 == indices_2.1 - indices_2.0,
        ensures
            wf_bool(r),
            r.as_bool() == (fhe_string_1.bytes().subrange(indices_1.0 as int, indices_1.1 as int)
                == fhe_string_2.bytes().subrange(indices_2.0 as int, indices_2.1 as int)),
    {
        let (start_1, end_1) = indices_1;
        let (start_2, end_2) = indices_2;
        let n = end_1 - start_1;
        let ghost sub_1 = fhe_string_1.bytes().subrange(start_1 as int, end_1 as int);
        let ghost sub_2 = fhe_string_2.bytes().subrange(start_2 as int, end_2 as int);
        if n == 0 {
            proof {
                assert(sub_1 =~= sub_2);
            }
            return self.make_trivial_bool(true);
        }
        let equalities: Vec<Cipher> = if fhe_string_1.is_encrypted() && fhe_string_2.is_encrypted() {
            par_pair_cmp_chars(
                &self.key,
                PairCmp::Eq,
                fhe_string_1.fhe_chars(),
                start_1,
                fhe_string_2.fhe_chars(),
                start_2,
                n,
            )
        } else if fhe_string_1.is_encrypted() && !fhe_string_2.is_encrypted() {
            par_mixed_cmp_chars(
                &self.key,
                ScalarCmp::Eq,
                fhe_string_1.fhe_chars(),
                start_1,
                fhe_string_2.chars(),
                start_2,
                n,
            )
        } else if !fhe_string_1.is_encrypted() && fhe_string_2.is_encrypted() {
            par_mixed_cmp_chars(
                &self.key,
                ScalarCmp::Eq,
                fhe_string_2.fhe_chars(),
                start_2,
                fhe_string_1.chars(),
                start_1,
                n,
            )
        } else {
            // both clear: compare the bytes directly
            let chars_1 = fhe_string_1.chars();
            let chars_2 = fhe_string_2.chars();
            let m_1 = chars_1.len();
            let m_2 = chars_2.len();
            let mut eqs: Vec<Cipher> = Vec::new();
            let mut i: usize = 0;
            while i < n
                invariant
                    0 <= i <= n,
                    m_1 == chars_1@.len(),
                    m_2 == chars_2@.len(),
                    start_1 + n <= m_1,
                    start_2 + n <= m_2,
                    eqs@.len() == i,
                    forall|j: int|
                        0 <= j < i ==> {
                            &&& wf_bool(#[trigger] eqs@[j])
                            &&& eqs@[j].as_bool() == (chars_1@[start_1 + j] == chars_2@[start_2
                                + j])
                        },
                decreases n - i,
            {
                eqs.push(self.make_trivial_bool(chars_1[start_1 + i] == chars_2[start_2 + i]));
                i += 1;
            }
            eqs
        };
        let r = self.all(equalities);
        proof {
            assert(sub_1.len() == n && sub_2.len() == n);
            if r.as_bool() {
                assert forall|j: int| 0 <= j < n implies sub_1[j] == sub_2[j] by {
                    assert(equalities@[j].as_bool());
                }
                assert(sub_1 =~= sub_2);
            } else {
                let w = choose|j: int|
                    0 <= j < equalities@.len() && !(#[trigger] equalities@[j]).as_bool();
                assert(sub_1[w] != sub_2[w]);
            }
        }
        r
    }

    /// Whether two strings of the same visible length carry identical bytes.
    pub(crate) fn eq_same_size(&self, fhe_string_1: &FheString, fhe_string_2: &FheString) -> (r:
        Cipher)
        requires
            fhe_string_1.wf(),
            fhe_string_2.wf(),
            fhe_string_1.bytes().len() == fhe_string_2.bytes().len(),
        ensures
            wf_bool(r),
            r.as_bool() == (fhe_string_1.bytes() == fhe_string_2.bytes()),
    {
        let len_1 = fhe_string_1.len();
        let len_2 = fhe_string_2.len();
        let r = self.eq_same_size_indices(fhe_string_1, (0, len_1), fhe_string_2, (0, len_2));
        proof {
            assert(fhe_string_1.bytes().subrange(0, fhe_string_1.bytes().len() as int)
                =~= fhe_string_1.bytes());
            assert(fhe_string_2.bytes().subrange(0, fhe_string_2.bytes().len() as int)
                =~= fhe_string_2.bytes());
        }
        r
    }

    /// Whether two strings hide the same content. Requires reusable inputs:
    /// interior zeros would be confused with padding.
    pub fn eq(&self, fhe_string_1: &FheString, fhe_string_2: &FheString) -> (r: Cipher)
        requires
            fhe_string_1.wf(),
            fhe_string_2.wf(),
            fhe_string_1.reusable(),
            fhe_string_2.reusable(),
        ensures
            wf_bool(r),
            r.as_bool() == (fhe_string_1.hidden() == fhe_string_2.hidden()),
    {
        let len_1 = fhe_string_1.len();
        let len_2 = fhe_string_2.len();
        if len_1 == len_2 {
            let r = self.eq_same_size(fhe_string_1, fhe_string_2);
            proof {
                crate::model::lemma_content_eq_iff(fhe_string_1.bytes(), fhe_string_2.bytes());
                assert(fhe_string_1.bytes().take(len_2 as int) =~= fhe_string_1.bytes());
                assert(fhe_string_1.bytes().skip(len_2 as int).len() == 0);
                assert(all_zero(fhe_string_1.bytes().skip(len_2 as int)));
            }
            r
        } else if len_1 > len_2 {
            if len_2 == 0 {
                let r = self.is_empty(fhe_string_1);
                proof {
                    crate::model::lemma_content_all_zero(fhe_string_2.bytes());
                    if fhe_string_1.hidden().len() == 0 {
                        assert(fhe_string_1.hidden() =~= fhe_string_2.hidden());
                    }
                    if fhe_string_1.hidden() == fhe_string_2.hidden() {
                        assert(fhe_string_1.hidden().len() == 0);
                    }
                }
                r
            } else {
                let substr_equal = self.eq_same_size_indices(
                    fhe_string_1,
                    (0, len_2),
                    fhe_string_2,
                    (0, len_2),
                );
                let rest_empty = self.is_empty_indices(fhe_string_1, (len_2, len_1));
                let r = self.key.bitand(&substr_equal, &rest_empty);
                proof {
                    crate::model::lemma_content_eq_iff(fhe_string_1.bytes(), fhe_string_2.bytes());
                    assert(fhe_string_1.bytes().subrange(0, len_2 as int) =~= fhe_string_1.bytes()
                        .take(len_2 as int));
                    assert(fhe_string_2.bytes().subrange(0, len_2 as int)
                        =~= fhe_string_2.bytes());
                    assert(fhe_string_1.bytes().subrange(len_2 as int, len_1 as int)
                        =~= fhe_string_1.bytes().skip(len_2 as int));
                }
                r
            }
        } else {
            if len_1 == 0 {
                let r = self.is_empty(fhe_string_2);
                proof {
                    crate::model::lemma_content_all_zero(fhe_string_1.bytes());
                    if fhe_string_2.hidden().len() == 0 {
                        assert(fhe_string_1.hidden() =~= fhe_string_2.hidden());
                    }
                    if fhe_string_1.hidden() == fhe_string_2.hidden() {
                        assert(fhe_string_2.hidden().len() == 0);
                    }
                }
                r
            } else {
                let substr_equal = self.eq_same_size_indices(
                    fhe_string_1,
                    (0, len_1),
                    fhe_string_2,
                    (0, len_1),
                );
                let rest_empty = self.is_empty_indices(fhe_string_2, (len_1, len_2));
                let r = self.key.bitand(&substr_equal, &rest_empty);
                proof {
                    crate::model::lemma_content_eq_iff(fhe_string_2.bytes(), fhe_string_1.bytes());
                    assert(fhe_string_2.bytes().subrange(0, len_1 as int) =~= fhe_string_2.bytes()
                        .take(len_1 as int));
                    assert(fhe_string_1.bytes().subrange(0, len_1 as int)
                        =~= fhe_string_1.bytes());
                    assert(fhe_string_2.bytes().subrange(len_1 as int, len_2 as int)
                        =~= fhe_string_2.bytes().skip(len_1 as int));
                }
                r
            }
        }
    }

    /// Whether two strings hide different content: the complement of `eq`.
    /// Requires reusable inputs.
    pub fn ne(&self, fhe_string_1: &FheString, fhe_string_2: &FheString) -> (r: Cipher)
        requires
            fhe_string_1.wf(),
            fhe_string_2.wf(),
            fhe_string_1.reusable(),
            fhe_string_2.reusable(),
        ensures
            wf_bool(r),
            r.as_bool() == (fhe_string_1.hidden() != fhe_string_2.hidden()),
    {
        let is_equal = self.eq(fhe_string_1, fhe_string_2);
        self.not(&is_equal)
    }

    /// Whether the string is empty: zero visible length or all padding.
    pub fn is_empty(&self, fhe_string: &FheString) -> (r: Cipher)
        requires
            fhe_string.wf(),
        ensures
            wf_bool(r),
            r.as_bool() == (fhe_string.hidden().len() == 0),
    {
        let len = fhe_string.len();
        let r = self.is_empty_indices(fhe_string, (0, len));
        proof {
            assert(fhe_string.bytes().subrange(0, fhe_string.bytes().len() as int)
                =~= fhe_string.bytes());
            crate::model::lemma_content_empty_iff(fhe_string.bytes());
        }
        r
    }

    /// The bytes of the slice `start_index..end_index`, with a zero written
    /// wherever the mask bit is set. Positions past the mask pass the string
    /// through; positions past the string yield zero.
    pub(crate) fn set_zero_where_indices(
        &self,
        fhe_string: &FheString,
        vec_where: &Vec<Cipher>,
        start_index: usize,
        end_index: usize,
    ) -> (r: Vec<Cipher>)
        requires
            fhe_string.wf(),
            fhe_string.encrypted(),
            wf_bool_seq(vec_where@),
            start_index <= end_index,
            end_index <= fhe_string.bytes().len() || end_index <= vec_where@.len(),
        ensures
            r@.len() == end_index - start_index,
            forall|j: int|
                0 <= j < r@.len() ==> {
                    &&& (#[trigger] r@[j]).wf()
                    &&& r@[j].blocks == NUMBER_OF_BLOCKS
                    &&& r@[j].val <= 127
                    &&& r@[j].val as u8 == (if start_index + j >= vec_where@.len() {
                        fhe_string.bytes()[start_index + j]
                    } else if start_index + j >= fhe_string.bytes().len() {
                        0u8
                    } else if vec_where@[start_index + j].as_bool() {
                        0u8
                    } else {
                        fhe_string.bytes()[start_index + j]
                    })
                },
    {
        proof {
            lemma_block_cap_byte();
        }
        let zero: Cipher = self.key.create_trivial_zero(NUMBER_OF_BLOCKS);
        let fhe_chars = fhe_string.fhe_chars();
        let slen = fhe_chars.len();
        let wlen = vec_where.len();
        let mut r: Vec<Cipher> = Vec::new();
        let mut i: usize = start_index;
        while i < end_index
            invariant
                start_index <= i <= end_index,
                fhe_string.wf(),
                fhe_string.encrypted(),
                wf_bool_seq(vec_where@),
                slen == fhe_string.bytes().len(),
                wlen == vec_where@.len(),
                end_index <= slen || end_index <= wlen,
                fhe_chars@ == fhe_string.fhe_chars@,
                zero.wf() && zero.blocks == NUMBER_OF_BLOCKS && zero.val == 0,
                r@.len() == i - start_index,
                forall|j: int|
                    0 <= j < r@.len() ==> {
                        &&& (#[trigger] r@[j]).wf()
                        &&& r@[j].blocks == NUMBER_OF_BLOCKS
                        &&& r@[j].val <= 127
                        &&& r@[j].val as u8 == (if start_index + j >= wlen {
                            fhe_string.bytes()[start_index + j]
                        } else if start_index + j >= slen {
                            0u8
                        } else if vec_where@[start_index + j].as_bool() {
                            0u8
                        } else {
                            fhe_string.bytes()[start_index + j]
                        })
                    },
            decreases end_index - i,
        {
            if i >= wlen {
                r.push(fhe_chars[i].unwrap().clone());
            } else if i >= slen {
                r.push(zero.clone());
            } else {
                r.push(self.key.if_then_else(&vec_where[i], &zero, fhe_chars[i].unwrap()));
            }
            i += 1;
        }
        r
    }

    /// The bytes of the whole string, with a zero written wherever the mask
    /// bit is set.
    pub(crate) fn set_zero_where(&self, fhe_string: &FheString, vec_where: &Vec<Cipher>) -> (r: Vec<
        Cipher,
    >)
        requires
            fhe_string.wf(),
            fhe_string.encrypted(),
            wf_bool_seq(vec_where@),
        ensures
            r@.len() == fhe_string.bytes().len(),
            forall|j: int|
                0 <= j < r@.len() ==> {
                    &&& (#[trigger] r@[j]).wf()
                    &&& r@[j].blocks == NUMBER_OF_BLOCKS
                    &&& r@[j].val <= 127
                    &&& r@[j].val as u8 == (if j >= vec_where@.len() {
                        fhe_string.bytes()[j]
                    } else if vec_where@[j].as_bool() {
                        0u8
                    } else {
                        fhe_string.bytes()[j]
                    })
                },
    {
        let len = fhe_string.len();
        self.set_zero_where_indices(fhe_string, vec_where, 0, len)
    }

    /// Per-position select between two encrypted strings; the shorter
    /// operand is read as extended with zeros. The result is marked padded
    /// unless both operands are unpadded and equally long.
    pub fn if_then_else_fhe_string(
        &self,
        condition: &Cipher,
        fhe_str_1: &FheString,
        fhe_str_2: &FheString,
    ) -> (r: FheString)
        requires
            wf_bool(*condition),
            fhe_str_1.wf(),
            fhe_str_2.wf(),
            fhe_str_1.encrypted(),
            fhe_str_2.encrypted(),
        ensures
            r.wf(),
            r.encrypted(),
            r.bytes().len() == if fhe_str_1.bytes().len() >= fhe_str_2.bytes().len() {
                fhe_str_1.bytes().len()
            } else {
                fhe_str_2.bytes().len()
            },
            r.bytes() == if condition.as_bool() {
                crate::model::pad_to(fhe_str_1.bytes(), r.bytes().len() as int)
            } else {
                crate::model::pad_to(fhe_str_2.bytes(), r.bytes().len() as int)
            },
            r.hidden() == if condition.as_bool() {
                fhe_str_1.hidden()
            } else {
                fhe_str_2.hidden()
            },
            r.padded() == (fhe_str_1.padded() || fhe_str_2.padded() || fhe_str_1.bytes().len()
                != fhe_str_2.bytes().len()),
            r.reusable() == (fhe_str_1.reusable() && fhe_str_2.reusable()),
    {
        proof {
            lemma_block_cap_byte();
        }
        let len_1 = fhe_str_1.len();
        let len_2 = fhe_str_2.len();
        let n = if len_1 >= len_2 {
            len_1
        } else {
            len_2
        };
        let ghost b1 = fhe_str_1.bytes();
        let ghost b2 = fhe_str_2.bytes();
        let zero: Cipher = self.key.create_trivial_zero(NUMBER_OF_BLOCKS);
        let chars_1 = fhe_str_1.fhe_chars();
        let chars_2 = fhe_str_2.fhe_chars();
        let mut values: Vec<Cipher> = Vec::new();
        let mut i: usize = 0;
        while i < n
            invariant
                0 <= i <= n,
                fhe_str_1.wf(),
                fhe_str_2.wf(),
                fhe_str_1.encrypted(),
                fhe_str_2.encrypted(),
                wf_bool(*condition),
                len_1 == b1.len(),
                len_2 == b2.len(),
                b1 == fhe_string_bytes_of(fhe_str_1),
                b2 == fhe_string_bytes_of(fhe_str_2),
                n == if len_1 >= len_2 {
                    len_1
                } else {
                    len_2
                },
                chars_1@ == fhe_str_1.fhe_chars@,
                chars_2@ == fhe_str_2.fhe_chars@,
                zero.wf() && zero.blocks == NUMBER_OF_BLOCKS && zero.val == 0,
                values@.len() == i,
                forall|j: int|
                    0 <= j < i ==> {
                        &&& (#[trigger] values@[j]).wf()
                        &&& values@[j].blocks == NUMBER_OF_BLOCKS
                        &&& values@[j].val <= 127
                        &&& values@[j].val as u8 == (if condition.as_bool() {
                            if j < b1.len() {
                                b1[j]
                            } else {
                                0u8
                            }
                        } else {
                            if j < b2.len() {
                                b2[j]
                            } else {
                                0u8
                            }
                        })
                    },
            decreases n - i,
        {
            if i >= len_1 {
                values.push(self.key.if_then_else(condition, &zero, chars_2[i].unwrap()));
            } else if i >= len_2 {
                values.push(self.key.if_then_else(condition, chars_1[i].unwrap(), &zero));
            } else {
                values.push(
                    self.key.if_then_else(condition, chars_1[i].unwrap(), chars_2[i].unwrap()),
                );
            }
            i += 1;
        }
        let is_padded = fhe_str_1.is_padded() || fhe_str_2.is_padded() || len_1 != len_2;
        let is_reusable = fhe_str_1.is_reusable() && fhe_str_2.is_reusable();
        let ghost sel = if condition.as_bool() {
            b1
        } else {
            b2
        };
        let ghost target = crate::model::pad_to(sel, n as int);
        proof {
            assert(values@.map_values(|c: Cipher| c.val as u8) =~= target);
            if is_reusable {
                if condition.as_bool() {
                    lemma_shifted_tail_padded(b1, n as int);
                } else {
                    lemma_shifted_tail_padded(b2, n as int);
                }
            }
            if !is_padded {
                assert(crate::model::no_zero(target));
            }
            crate::model::lemma_content_pad_to(sel, n as int);
        }
        let r = FheString::from_encrypted(values, is_padded, is_reusable);
        r
    }

    /// Shift an encrypted string left: with the mask bit set at position
    /// `k`, position `n` of the result carries the byte at `n + k`, and
    /// zeros enter at the tail; with no bit set the result is all zeros.
    /// The mask may carry at most one set bit.
    pub(crate) fn left_shift(
        &self,
        fhe_string: &FheString,
        vec_index: &Vec<Cipher>,
        is_reusable: bool,
    ) -> (r: FheString)
        requires
            fhe_string.wf(),
            fhe_string.encrypted(),
            wf_bool_seq(vec_index@),
            at_most_one_set(vec_index@),
            is_reusable ==> forall|k: int|
                0 <= k < vec_index@.len() && (#[trigger] vec_index@[k]).as_bool()
                    ==> zeros_in_tail(crate::model::shift_bytes(fhe_string.bytes(), k)),
        ensures
            r.wf(),
            r.encrypted(),
            r.padded(),
            r.reusable() == is_reusable,
            r.bytes().len() == fhe_string.bytes().len(),
            forall|k: int|
                0 <= k < vec_index@.len() && (#[trigger] vec_index@[k]).as_bool() ==> r.bytes()
                    == crate::model::shift_bytes(fhe_string.bytes(), k),
            (forall|k: int|
                0 <= k < vec_index@.len() ==> !(#[trigger] vec_index@[k]).as_bool()) ==> r.bytes()
                == crate::model::zeros(fhe_string.bytes().len()),
    {
        proof {
            lemma_block_cap_byte();
        }
        let ghost b = fhe_string.bytes();
        let len = fhe_string.len();
        if len == 0 {
            let r = FheString::from_encrypted(Vec::new(), true, is_reusable);
            proof {
                assert(r.bytes() =~= crate::model::zeros(0));
                assert(forall|k: int|
                    0 <= k < vec_index@.len() && (#[trigger] vec_index@[k]).as_bool() ==> r.bytes()
                        =~= crate::model::shift_bytes(b, k));
            }
            return r;
        }
        let ghost sel: int = if exists|k: int|
            0 <= k < vec_index@.len() && (#[trigger] vec_index@[k]).as_bool() {
            choose|k: int| 0 <= k < vec_index@.len() && (#[trigger] vec_index@[k]).as_bool()
        } else {
            -1
        };
        proof {
            if sel >= 0 {
                assert forall|k: int|
                    0 <= k < vec_index@.len() implies ((#[trigger] vec_index@[k]).as_bool() == (k
                    == sel)) by {
                    if vec_index@[k].as_bool() {
                        assert(k == sel);
                    }
                }
            }
        }
        let fhe_chars = fhe_string.fhe_chars();
        let wlen = vec_index.len();
        let mut shifted: Vec<Cipher> = Vec::new();
        let mut n: usize = 0;
        while n < len
            invariant
                0 <= n <= len,
                fhe_string.wf(),
                fhe_string.encrypted(),
                wf_bool_seq(vec_index@),
                len == b.len(),
                b == fhe_string_bytes_of(fhe_string),
                wlen == vec_index@.len(),
                fhe_chars@ == fhe_string.fhe_chars@,
                sel >= 0 ==> forall|k: int|
                    0 <= k < wlen ==> ((#[trigger] vec_index@[k]).as_bool() == (k == sel)),
                sel < 0 ==> forall|k: int|
                    0 <= k < wlen ==> !(#[trigger] vec_index@[k]).as_bool(),
                shifted@.len() == n,
                forall|j: int|
                    0 <= j < n ==> {
                        &&& (#[trigger] shifted@[j]).wf()
                        &&& shifted@[j].blocks == NUMBER_OF_BLOCKS
                        &&& shifted@[j].val <= 127
                        &&& shifted@[j].val as u8 == (if 0 <= sel < wlen && j + sel < len {
                            b[j + sel]
                        } else {
                            0u8
                        })
                    },
            decreases len - n,
        {
            let bound = if wlen < len - n {
                wlen
            } else {
                len - n
            };
            let mut acc: Cipher = self.key.create_trivial_zero(NUMBER_OF_BLOCKS);
            let mut k: usize = 0;
            while k < bound
                invariant
                    0 <= k <= bound,
                    0 <= n < len,
                    bound <= wlen,
                    bound <= len - n,
                    bound == if wlen < len - n {
                        wlen as int
                    } else {
                        len - n
                    },
                    fhe_string.wf(),
                    fhe_string.encrypted(),
                    wf_bool_seq(vec_index@),
                    len == b.len(),
                    b == fhe_string_bytes_of(fhe_string),
                    wlen == vec_index@.len(),
                    fhe_chars@ == fhe_string.fhe_chars@,
                    sel >= 0 ==> forall|j: int|
                        0 <= j < wlen ==> ((#[trigger] vec_index@[j]).as_bool() == (j == sel)),
                    sel < 0 ==> forall|j: int|
                        0 <= j < wlen ==> !(#[trigger] vec_index@[j]).as_bool(),
                    acc.wf(),
                    acc.blocks == NUMBER_OF_BLOCKS,
                    acc.val <= 127,
                    acc.val as u8 == (if 0 <= sel < k && n + sel < len {
                        b[n + sel]
                    } else {
                        0u8
                    }),
                decreases bound - k,
            {
                let bit_wide = self.key.extend_blocks(&vec_index[k], NUMBER_OF_BLOCKS - 1);
                proof {
                    if bit_wide.val == 0 {
                        assert(fhe_chars@[n + k].fhe_ascii_char.val * bit_wide.val == 0);
                    } else {
                        assert(bit_wide.val == 1);
                        assert(fhe_chars@[n + k].fhe_ascii_char.val * bit_wide.val == fhe_chars@[n
                            + k].fhe_ascii_char.val);
                    }
                }
                let prod = self.key.mul(fhe_chars[n + k].unwrap(), &bit_wide);
                self.key.add_assign(&mut acc, &prod);
                k += 1;
            }
            proof {
                if 0 <= sel && n + sel < len && sel >= bound {
                    assert(sel < wlen ==> bound == len - n);
                    if sel < wlen {
                        assert(n + sel >= len);
                        assert(false);
                    }
                }
            }
            shifted.push(acc);
            n += 1;
        }
        proof {
            let mapped = shifted@.map_values(|c: Cipher| c.val as u8);
            if 0 <= sel < wlen {
                assert(vec_index@[sel].as_bool());
                assert(mapped =~= crate::model::shift_bytes(b, sel));
            } else {
                assert(mapped =~= crate::model::zeros(b.len()));
                assert forall|x: int, y: int|
                    0 <= x < y < mapped.len() && mapped[x] == 0 implies mapped[y] == 0 by {}
            }
        }
        let r = FheString::from_encrypted(shifted, true, is_reusable);
        proof {
            if 0 <= sel < wlen {
                assert(r.bytes() =~= crate::model::shift_bytes(b, sel));
                assert(forall|k: int|
                    0 <= k < vec_index@.len() && (#[trigger] vec_index@[k]).as_bool() ==> k == sel);
            } else {
                assert(r.bytes() =~= crate::model::zeros(b.len()));
            }
        }
        r
    }

    /// Move every interior zero of an encrypted string to the tail: the
    /// result carries the same hidden content followed by padding only.
    pub fn make_reusable(&self, fhe_string: &FheString) -> (r: FheString)
        requires
            fhe_string.wf(),
            fhe_string.encrypted(),
            !fhe_string.reusable(),
        ensures
            r.wf(),
            r.encrypted(),
            r.padded(),
            r.reusable(),
            r.bytes().len() == fhe_string.bytes().len(),
            r.bytes() == fhe_string.hidden() + crate::model::zeros(
                (fhe_string.bytes().len() - fhe_string.hidden().len()) as nat,
            ),
            r.hidden() == fhe_string.hidden(),
    {
        proof {
            lemma_block_cap_byte();
            crate::model::lemma_content_len(fhe_string.bytes());
        }
        let ghost b = fhe_string.bytes();
        let ghost cs = fhe_string.hidden();
        let len = fhe_string.len();
        if len == 0 {
            let r = FheString::from_encrypted(Vec::new(), true, true);
            proof {
                assert(b.len() == 0);
                crate::model::lemma_content_all_zero(b);
                assert(r.bytes() =~= cs + crate::model::zeros(0));
                crate::model::lemma_content_pad_to(cs, 0);
            }
            return r;
        }
        let n_blocks = Self::compute_blocks_for_len(len as u64);
        let fhe_chars = fhe_string.fhe_chars();
        // which bytes carry content
        let non_zero = par_scalar_cmp_chars(&self.key, fhe_chars, 0, len, ScalarCmp::Ne, 0u64);
        // rank of each position: how many content bytes sit at or before it
        let mut ranks: Vec<Cipher> = Vec::new();
        let mut i: usize = 0;
        let mut running = self.key.create_trivial_zero(n_blocks);
        while i < len
            invariant
                0 <= i <= len,
                fhe_string.wf(),
                fhe_string.encrypted(),
                len == b.len(),
                b == fhe_string_bytes_of(fhe_string),
                cs == content(b),
                fhe_chars@ == fhe_string.fhe_chars@,
                non_zero@.len() == len,
                forall|j: int|
                    0 <= j < len ==> {
                        &&& wf_bool(#[trigger] non_zero@[j])
                        &&& non_zero@[j].as_bool() == (b[j] != 0)
                    },
                1 <= n_blocks <= MAX_BLOCKS,
                block_cap(n_blocks as nat) > len,
                running.wf(),
                running.blocks == n_blocks,
                running.val == content(b.take(i as int)).len(),
                ranks@.len() == i,
                forall|j: int|
                    0 <= j < i ==> {
                        &&& (#[trigger] ranks@[j]).wf()
                        &&& ranks@[j].blocks == n_blocks
                        &&& ranks@[j].val == content(b.take(j + 1)).len()
                    },
            decreases len - i,
        {
            proof {
                lemma_content_take_succ(b, i as int);
                crate::model::lemma_content_len(b.take(i as int));
            }
            let wide = self.key.extend_blocks(&non_zero[i], n_blocks - 1);
            self.key.add_assign(&mut running, &wide);
            ranks.push(running.clone());
            i += 1;
        }
        proof {
            assert(b.take(len as int) =~= b);
        }
        // select, for every output position, the content byte of that rank
        let mut tidy: Vec<Cipher> = Vec::new();
        let mut m2: usize = 0;
        while m2 < len
            invariant
                0 <= m2 <= len,
                fhe_string.wf(),
                fhe_string.encrypted(),
                len == b.len(),
                len > 0,
                b == fhe_string_bytes_of(fhe_string),
                cs == content(b),
                cs.len() <= len,
                fhe_chars@ == fhe_string.fhe_chars@,
                1 <= n_blocks <= MAX_BLOCKS,
                block_cap(n_blocks as nat) > len,
                ranks@.len() == len,
                forall|j: int|
                    0 <= j < len ==> {
                        &&& (#[trigger] ranks@[j]).wf()
                        &&& ranks@[j].blocks == n_blocks
                        &&& ranks@[j].val == content(b.take(j + 1)).len()
                    },
                tidy@.len() == m2,
                forall|j: int|
                    0 <= j < m2 ==> {
                        &&& (#[trigger] tidy@[j]).wf()
                        &&& tidy@[j].blocks == NUMBER_OF_BLOCKS
                        &&& tidy@[j].val <= 127
                        &&& tidy@[j].val as u8 == (if j < cs.len() {
                            cs[j]
                        } else {
                            0u8
                        })
                    },
            decreases len - m2,
        {
            let n = m2 + 1;
            let mut acc: Cipher = self.key.create_trivial_zero(NUMBER_OF_BLOCKS);
            let mut i: usize = n - 1;
            while i < len
                invariant
                    n - 1 <= i <= len,
                    1 <= n <= len,
                    fhe_string.wf(),
                    fhe_string.encrypted(),
                    len == b.len(),
                    b == fhe_string_bytes_of(fhe_string),
                    cs == content(b),
                    cs.len() <= len,
                    fhe_chars@ == fhe_string.fhe_chars@,
                    1 <= n_blocks <= MAX_BLOCKS,
                    block_cap(n_blocks as nat) > len,
                    ranks@.len() == len,
                    forall|j: int|
                        0 <= j < len ==> {
                            &&& (#[trigger] ranks@[j]).wf()
                            &&& ranks@[j].blocks == n_blocks
                            &&& ranks@[j].val == content(b.take(j + 1)).len()
                        },
                    acc.wf(),
                    acc.blocks == NUMBER_OF_BLOCKS,
                    acc.val <= 127,
                    acc.val as u8 == (if n <= content(b.take(i as int)).len() && n - 1 < cs.len() {
                        cs[n - 1]
                    } else {
                        0u8
                    }),
                decreases len - i,
            {
                let is_equal_n = self.key.scalar_eq(&ranks[i], n as u64);
                let bit_wide = self.key.extend_blocks(&is_equal_n, NUMBER_OF_BLOCKS - 1);
                proof {
                    lemma_content_take_succ(b, i as int);
                    crate::model::lemma_content_take_prefix(b, i as int);
                    crate::model::lemma_content_take_prefix(b, i + 1);
                    crate::model::lemma_content_len(b.take(i as int));
                    if bit_wide.val == 0 {
                        assert(fhe_chars@[i as int].fhe_ascii_char.val * bit_wide.val == 0);
                    } else {
                        assert(bit_wide.val == 1);
                        assert(fhe_chars@[i as int].fhe_ascii_char.val * bit_wide.val
                            == fhe_chars@[i as int].fhe_ascii_char.val);
                    }
                    if b[i as int] != 0 && content(b.take(i + 1)).len() == n {
                        assert(content(b.take(i + 1)) == content(b.take(i as int)).push(
                            b[i as int],
                        ));
                        assert(content(b.take(i + 1)) == cs.take(n as int));
                        assert(cs.take(n as int)[n - 1] == b[i as int]);
                        assert(cs[n - 1] == b[i as int]);
                    }
                }
                let prod = self.key.mul(fhe_chars[i].unwrap(), &bit_wide);
                self.key.add_assign(&mut acc, &prod);
                proof {
                    if b[i as int] == 0 {
                        assert(content(b.take(i + 1)).len() == content(b.take(i as int)).len());
                    }
                }
                i += 1;
            }
            proof {
                assert(b.take(len as int) =~= b);
                if n <= cs.len() {
                    assert(acc.val as u8 == cs[n - 1]);
                    crate::model::lemma_content_pred(b);
                    assert(cs[n - 1] != 0);
                }
            }
            tidy.push(acc);
            m2 += 1;
        }
        let ghost target = cs + crate::model::zeros((len - cs.len()) as nat);
        proof {
            assert(tidy@.map_values(|c: Cipher| c.val as u8) =~= target);
            crate::model::lemma_content_pred(b);
            assert forall|x: int, y: int|
                0 <= x < y < target.len() && target[x] == 0 implies target[y] == 0 by {
                assert(x >= cs.len());
            }
            crate::model::lemma_content_pad_to(cs, len as int);
            crate::model::lemma_content_no_zero(cs);
        }
        let r = FheString::from_encrypted(tidy, true, true);
        r
    }
}

/// Whether at most one bit of the mask is set.
pub open spec fn at_most_one_set(v: Seq<Cipher>) -> bool {
    forall|i: int, j: int|
        0 <= i < v.len() && 0 <= j < v.len() && (#[trigger] v[i]).as_bool() && (#[trigger] v[
            j]).as_bool() ==> i == j
}

/// Spec alias for the byte view of a string, usable inside invariants.
pub open spec fn fhe_string_bytes_of(s: &FheString) -> Seq<u8> {
    s.bytes()
}

/// A tail-padded byte string stays tail-padded after zero extension.
proof fn lemma_shifted_tail_padded(b: Seq<u8>, n: int)
    requires
        b.len() <= n,
        zeros_in_tail(b),
    ensures
        zeros_in_tail(crate::model::pad_to(b, n)),
{
    let p = crate::model::pad_to(b, n);
    assert forall|i: int, j: int| 0 <= i < j < p.len() && p[i] == 0 implies p[j] == 0 by {
        if i < b.len() && j < b.len() {
            assert(b[j] == 0);
        }
    }
}

} // verus!
