//! Replace and replacen over encrypted strings: writing a replacement over
//! the matched spans when it fits, or splitting and re-concatenating when it
//! does not; a possibly-empty padded pattern selects the per-character
//! interleaving obliviously.

use vstd::prelude::*;

use crate::cipher::{lemma_block_cap_byte, Cipher};
use crate::model::{contains_seq, lemma_content_no_zero, lemma_pad_match_iff_content, matches_at};
use crate::ciphertext::FheString;
use crate::server_key::{fhe_string_bytes_of, wf_bool, wf_bool_seq, ServerKey};
use crate::split::wf_fields;
use crate::NUMBER_OF_BLOCKS;

verus! {

impl ServerKey {
    /// Per-position select between two byte vectors; positions past the
    /// shorter side read as zero.
    fn if_then_else_vec(&self, condition: &Cipher, vec_1: &Vec<Cipher>, vec_2: &Vec<Cipher>) -> (r:
        Vec<Cipher>)
        requires
            wf_bool(*condition),
            forall|i: int|
                0 <= i < vec_1@.len() ==> {
                    &&& (#[trigger] vec_1@[i]).wf()
                    &&& vec_1@[i].blocks == NUMBER_OF_BLOCKS
                    &&& vec_1@[i].val <= 127
                },
            forall|i: int|
                0 <= i < vec_2@.len() ==> {
                    &&& (#[trigger] vec_2@[i]).wf()
                    &&& vec_2@[i].blocks == NUMBER_OF_BLOCKS
                    &&& vec_2@[i].val <= 127
                },
        ensures
            r@.len() == if vec_1@.len() >= vec_2@.len() {
                vec_1@.len()
            } else {
                vec_2@.len()
            },
            forall|i: int|
                0 <= i < r@.len() ==> {
                    &&& (#[trigger] r@[i]).wf()
                    &&& r@[i].blocks == NUMBER_OF_BLOCKS
                    &&& r@[i].val <= 127
                    &&& r@[i].val == (if condition.as_bool() {
                        if i < vec_1@.len() {
                            vec_1@[i].val as int
                        } else {
                            0int
                        }
                    } else {
                        if i < vec_2@.len() {
                            vec_2@[i].val as int
                        } else {
                            0int
                        }
                    })
                },
    {
        proof {
            lemma_block_cap_byte();
        }
        let zero_cst = self.key.create_trivial_zero(NUMBER_OF_BLOCKS);
        let n1 = vec_1.len();
        let n2 = vec_2.len();
        let n = if n1 >= n2 {
            n1
        } else {
            n2
        };
        let mut r: Vec<Cipher> = Vec::new();
        let mut i: usize = 0;
        while i < n
            invariant
                0 <= i <= n,
                n1 == vec_1@.len(),
                n2 == vec_2@.len(),
                n == if n1 >= n2 {
                    n1
                } else {
                    n2
                },
                wf_bool(*condition),
                zero_cst.wf() && zero_cst.blocks == NUMBER_OF_BLOCKS && zero_cst.val == 0,
                forall|k: int|
                    0 <= k < n1 ==> {
                        &&& (#[trigger] vec_1@[k]).wf()
                        &&& vec_1@[k].blocks == NUMBER_OF_BLOCKS
                        &&& vec_1@[k].val <= 127
                    },
                forall|k: int|
                    0 <= k < n2 ==> {
                        &&& (#[trigger] vec_2@[k]).wf()
                        &&& vec_2@[k].blocks == NUMBER_OF_BLOCKS
                        &&& vec_2@[k].val <= 127
                    },
                r@.len() == i,
                forall|k: int|
                    0 <= k < i ==> {
                        &&& (#[trigger] r@[k]).wf()
                        &&& r@[k].blocks == NUMBER_OF_BLOCKS
                        &&& r@[k].val <= 127
                        &&& r@[k].val == (if condition.as_bool() {
                            if k < n1 {
                                vec_1@[k].val as int
                            } else {
                                0int
                            }
                        } else {
                            if k < n2 {
                                vec_2@[k].val as int
                            } else {
                                0int
                            }
                        })
                    },
            decreases n - i,
        {
            if i >= n1 {
                r.push(self.key.if_then_else(condition, &zero_cst, &vec_2[i]));
            } else if i >= n2 {
                r.push(self.key.if_then_else(condition, &vec_1[i], &zero_cst));
            } else {
                r.push(self.key.if_then_else(condition, &vec_1[i], &vec_2[i]));
            }
            i += 1;
        }
        r
    }

    /// The raw ciphertexts of a string, trivially encrypting a clear one.
    fn get_encrypted_values(&self, fhe_string: &FheString) -> (r: Vec<Cipher>)
        requires
            fhe_string.wf(),
        ensures
            r@.len() == fhe_string.bytes().len(),
            forall|i: int|
                0 <= i < r@.len() ==> {
                    &&& (#[trigger] r@[i]).wf()
                    &&& r@[i].blocks == NUMBER_OF_BLOCKS
                    &&& r@[i].val <= 127
                    &&& r@[i].val as u8 == fhe_string.bytes()[i]
                },
    {
        let enc: FheString = if fhe_string.is_encrypted() {
            fhe_string.clone()
        } else {
            self.trivial_encrypt_fhe_string(fhe_string, 0)
        };
        proof {
            assert(enc.bytes() =~= fhe_string.bytes());
        }
        let chars = enc.fhe_chars();
        let n = chars.len();
        let mut r: Vec<Cipher> = Vec::new();
        let mut i: usize = 0;
        while i < n
            invariant
                0 <= i <= n,
                enc.wf(),
                enc.encrypted(),
                chars@ == enc.fhe_chars@,
                n == enc.bytes().len(),
                enc.bytes() == fhe_string_bytes_of(fhe_string),
                r@.len() == i,
                forall|k: int|
                    0 <= k < i ==> {
                        &&& (#[trigger] r@[k]).wf()
                        &&& r@[k].blocks == NUMBER_OF_BLOCKS
                        &&& r@[k].val <= 127
                        &&& r@[k].val as u8 == enc.bytes()[k]
                    },
            decreases n - i,
        {
            r.push(chars[i].unwrap().clone());
            i += 1;
        }
        r
    }

    /// The per-character interleaving used when the pattern may be empty:
    /// a copy of the replacement before every character and one after the
    /// last, with copies masked off past the hidden length (and the final
    /// one under replacen).
    fn result_from_empty_pattern(
        &self,
        fhe_string: &FheString,
        to: &FheString,
        replacen: bool,
        n_times: usize,
    ) -> (r: Vec<Cipher>)
        requires
            fhe_string.wf(),
            to.wf(),
            fhe_string.bytes().len() < 0x1000_0000,
        ensures
            forall|i: int|
                0 <= i < r@.len() ==> {
                    &&& (#[trigger] r@[i]).wf()
                    &&& r@[i].blocks == NUMBER_OF_BLOCKS
                    &&& r@[i].val <= 127
                },
            (to.bytes().len() == 0) ==> r@.map_values(|c: Cipher| c.val as u8)
                == fhe_string.bytes(),
    {
        let s_values = self.get_encrypted_values(fhe_string);
        if to.len() == 0 {
            proof {
                assert(s_values@.map_values(|c: Cipher| c.val as u8) =~= fhe_string.bytes());
            }
            return s_values;
        }
        proof {
            lemma_block_cap_byte();
            crate::model::lemma_content_len(fhe_string.bytes());
        }
        let to_values = self.get_encrypted_values(to);
        let slen = s_values.len();
        let tlen = to_values.len();
        let hidden_len = self.len(fhe_string);
        let mut replaced_values: Vec<Cipher> = Vec::new();
        let mut count: usize = 0;
        let mut i: usize = 0;
        while i < slen + 1
            invariant
                0 <= i <= slen + 1,
                slen < 0x1000_0000,
                slen == fhe_string.bytes().len(),
                tlen == to.bytes().len(),
                fhe_string.wf(),
                to.wf(),
                hidden_len.wf(),
                hidden_len.val == fhe_string.hidden().len(),
                hidden_len.val <= slen,
                s_values@.len() == slen,
                to_values@.len() == tlen,
                forall|k: int|
                    0 <= k < slen ==> {
                        &&& (#[trigger] s_values@[k]).wf()
                        &&& s_values@[k].blocks == NUMBER_OF_BLOCKS
                        &&& s_values@[k].val <= 127
                    },
                forall|k: int|
                    0 <= k < tlen ==> {
                        &&& (#[trigger] to_values@[k]).wf()
                        &&& to_values@[k].blocks == NUMBER_OF_BLOCKS
                        &&& to_values@[k].val <= 127
                    },
                count <= i,
                forall|k: int|
                    0 <= k < replaced_values@.len() ==> {
                        &&& (#[trigger] replaced_values@[k]).wf()
                        &&& replaced_values@[k].blocks == NUMBER_OF_BLOCKS
                        &&& replaced_values@[k].val <= 127
                    },
            decreases slen + 1 - i,
        {
            count += 1;
            if !replacen || count <= n_times {
                // a copy of the replacement, blanked where it would sit past
                // the hidden length (the final copy keeps only replace)
                let keep: Cipher = if fhe_string.is_padded() {
                    if i < slen {
                        self.key.scalar_gt(&hidden_len, i as u64)
                    } else {
                        self.make_trivial_bool(!replacen)
                    }
                } else {
                    self.make_trivial_bool(true)
                };
                let mut j: usize = 0;
                while j < tlen
                    invariant
                        0 <= j <= tlen,
                        to_values@.len() == tlen,
                        wf_bool(keep),
                        forall|k: int|
                            0 <= k < tlen ==> {
                                &&& (#[trigger] to_values@[k]).wf()
                                &&& to_values@[k].blocks == NUMBER_OF_BLOCKS
                                &&& to_values@[k].val <= 127
                            },
                        forall|k: int|
                            0 <= k < replaced_values@.len() ==> {
                                &&& (#[trigger] replaced_values@[k]).wf()
                                &&& replaced_values@[k].blocks == NUMBER_OF_BLOCKS
                                &&& replaced_values@[k].val <= 127
                            },
                    decreases tlen - j,
                {
                    let keep_w = self.key.extend_blocks(&keep, NUMBER_OF_BLOCKS - 1);
                    proof {
                        if keep_w.val == 0 {
                            assert(to_values@[j as int].val * keep_w.val == 0);
                        } else {
                            assert(keep_w.val == 1);
                            assert(to_values@[j as int].val * keep_w.val == to_values@[
                                j as int].val);
                        }
                    }
                    replaced_values.push(self.key.mul(&to_values[j], &keep_w));
                    j += 1;
                }
            }
            if i < slen {
                replaced_values.push(s_values[i].clone());
            }
            i += 1;
        }
        replaced_values
    }

    /// Shared engine of replace and replacen.
    fn replace_or_replacen(
        &self,
        fhe_string: &FheString,
        from: &FheString,
        to: &FheString,
        replacen: bool,
        n_times: usize,
    ) -> (r: FheString)
        requires
            fhe_string.wf(),
            from.wf(),
            to.wf(),
            fhe_string.reusable(),
            from.reusable(),
            to.reusable(),
            fhe_string.bytes().len() + from.bytes().len() < 0x1000_0000,
        ensures
            r.wf(),
            r.encrypted(),
            (!from.padded() && from.bytes().len() == 0 && to.bytes().len() == 0 && (!replacen
                || n_times > 0 || fhe_string.bytes().len() > 0)) ==> r.hidden()
                == fhe_string.hidden(),
            (!from.padded() && from.bytes().len() > 0 && from.bytes().len() >= to.bytes().len()
                && !contains_seq(fhe_string.hidden(), from.hidden())) ==> r.hidden()
                == fhe_string.hidden(),
    {
        proof {
            lemma_block_cap_byte();
        }
        let ghost b = fhe_string.bytes();
        let ghost fb = from.bytes();
        let ghost cs = fhe_string.hidden();
        let ghost cf = from.hidden();
        let ghost absent = !from.padded() && fb.len() > 0 && fb.len() >= to.bytes().len()
            && !contains_seq(cs, cf);
        let slen = fhe_string.len();
        let flen = from.len();
        let tlen = to.len();
        // an unpadded pattern longer than the string cannot occur in it
        if !from.is_padded() && flen > slen {
            let r = if fhe_string.is_encrypted() {
                fhe_string.clone()
            } else {
                self.trivial_encrypt_fhe_string(fhe_string, 0)
            };
            proof {
                assert(r.bytes() =~= fhe_string.bytes());
            }
            return r;
        }
        // an empty string is replaced by the replacement when the pattern is
        // empty, and kept otherwise
        if slen == 0 {
            proof {
                assert(fhe_string.bytes().len() == 0);
                crate::model::lemma_content_all_zero(fhe_string.bytes());
            }
            if replacen && n_times == 0 {
                let r = if fhe_string.is_encrypted() {
                    fhe_string.clone()
                } else {
                    self.trivial_encrypt_fhe_string(fhe_string, 0)
                };
                proof {
                    assert(r.bytes() =~= fhe_string.bytes());
                }
                return r;
            }
            if flen == 0 {
                let r = if to.is_encrypted() {
                    to.clone()
                } else {
                    self.trivial_encrypt_fhe_string(to, 0)
                };
                proof {
                    assert(r.bytes() =~= to.bytes());
                    if to.bytes().len() == 0 {
                        crate::model::lemma_content_all_zero(to.bytes());
                        assert(r.hidden() =~= fhe_string.hidden());
                    }
                }
                return r;
            }
            if !from.is_padded() {
                let r = if fhe_string.is_encrypted() {
                    fhe_string.clone()
                } else {
                    self.trivial_encrypt_fhe_string(fhe_string, 0)
                };
                proof {
                    assert(r.bytes() =~= fhe_string.bytes());
                }
                return r;
            }
            // the padded pattern may be empty at run time
            let is_empty_from = self.is_empty(from);
            let to_encrypted = if to.is_encrypted() {
                to.clone()
            } else {
                self.trivial_encrypt_fhe_string(to, 0)
            };
            let empty_string = FheString::empty_encrypted();
            return self.if_then_else_fhe_string(&is_empty_from, &to_encrypted, &empty_string);
        }
        // the interleaving used when the pattern may be empty at run time
        let use_empty_result = from.is_padded() || flen == 0;
        let result_from_empty: Vec<Cipher> = if use_empty_result {
            self.result_from_empty_pattern(fhe_string, to, replacen, n_times)
        } else {
            Vec::new()
        };
        // a pattern that is empty for sure: the interleaving is the answer
        if flen == 0 {
            let r = FheString::from_encrypted(result_from_empty, true, false);
            proof {
                if to.bytes().len() == 0 {
                    assert(r.bytes() == fhe_string.bytes());
                }
            }
            return r;
        }
        if !from.is_padded() && flen >= tlen {
            // the replacement fits where the pattern stood: pad it to the
            // pattern's length and write it over every occurrence
            let mut to_fhe_padded = if to.is_encrypted() {
                to.clone()
            } else {
                self.trivial_encrypt_fhe_string(to, 0)
            };
            to_fhe_padded.pad(flen - tlen, &self.key);
            let mut contains_vec = self.contains_at_index_vec(fhe_string, from);
            proof {
                if absent {
                    lemma_content_no_zero(fb);
                    assert forall|j: int|
                        0 <= j < contains_vec@.len() implies !(
                    #[trigger] contains_vec@[j]).as_bool() by {
                        if contains_vec@[j].as_bool() {
                            lemma_pad_match_iff_content(b, fb, j);
                            assert(matches_at(cs, cf, j));
                        }
                    }
                }
            }
            while contains_vec.len() < slen
                invariant
                    contains_vec@.len() <= slen,
                    wf_bool_seq(contains_vec@),
                    absent ==> forall|j: int|
                        0 <= j < contains_vec@.len() ==> !(#[trigger] contains_vec@[j]).as_bool(),
                    absent == (!from.padded() && fb.len() > 0 && fb.len() >= to.bytes().len()
                        && !contains_seq(cs, cf)),
                decreases slen - contains_vec@.len(),
            {
                contains_vec.push(self.make_trivial_bool(false));
            }
            contains_vec.push(self.make_trivial_bool(false));
            let len = slen + 1;
            let n_blocks = Self::compute_blocks_for_len(2 * (slen as u64) + 2 * (flen as u64) + 4);
            let mut from_true_length = self.len(from);
            if from_true_length.blocks < n_blocks {
                from_true_length = self.key.extend_blocks(
                    &from_true_length,
                    n_blocks - from_true_length.blocks,
                );
            }
            proof {
                crate::cipher::lemma_block_cap_monotone(
                    n_blocks as nat,
                    from_true_length.blocks as nat,
                );
                crate::model::lemma_content_len(from.bytes());
            }
            let mut pattern_start_index = self.key.create_trivial_zero(n_blocks);
            let mut first_one_seen = self.make_trivial_bool(false);
            let mut pattern_started = self.make_trivial_bool(false);
            let mut starts_vec: Vec<Cipher> = Vec::new();
            let mut is_pattern_vec: Vec<Cipher> = Vec::new();
            let mut sum_pattern_starts = self.key.create_trivial_zero(n_blocks);
            let n_eff = if n_times > slen {
                slen + 1
            } else {
                n_times
            };
            let mut index: usize = 0;
            // sequential pass: keep only non-overlapping occurrence starts,
            // mark the span each occurrence covers, and cap the count for
            // replacen
            while index < len
                invariant
                    0 <= index <= len,
                    len == slen + 1,
                    slen >= 1,
                    slen + flen < 0x1000_0000,
                    contains_vec@.len() == len,
                    wf_bool_seq(contains_vec@),
                    1 <= n_blocks <= crate::cipher::MAX_BLOCKS,
                    crate::cipher::block_cap(n_blocks as nat) > 2 * slen + 2 * flen + 4,
                    from_true_length.wf(),
                    from_true_length.blocks >= n_blocks,
                    from_true_length.val <= flen,
                    pattern_start_index.wf(),
                    pattern_start_index.blocks == n_blocks,
                    pattern_start_index.val <= index,
                    wf_bool(first_one_seen),
                    wf_bool(pattern_started),
                    sum_pattern_starts.wf(),
                    sum_pattern_starts.blocks == n_blocks,
                    sum_pattern_starts.val <= index,
                    n_eff <= slen + 1,
                    starts_vec@.len() == index,
                    wf_bool_seq(starts_vec@),
                    is_pattern_vec@.len() == index,
                    wf_bool_seq(is_pattern_vec@),
                    absent ==> forall|j: int|
                        0 <= j < len ==> !(#[trigger] contains_vec@[j]).as_bool(),
                    absent ==> !first_one_seen.as_bool() && !pattern_started.as_bool(),
                    absent ==> forall|j: int|
                        0 <= j < index ==> !(#[trigger] is_pattern_vec@[j]).as_bool(),
                decreases len - index,
            {
                let not_first_one_seen = self.not(&first_one_seen);
                let is_first_one = self.key.bitand(&contains_vec[index], &not_first_one_seen);
                let mut psi_w = pattern_start_index.clone();
                if psi_w.blocks < from_true_length.blocks {
                    psi_w = self.key.extend_blocks(
                        &psi_w,
                        from_true_length.blocks - psi_w.blocks,
                    );
                }
                proof {
                    crate::cipher::lemma_block_cap_monotone(n_blocks as nat, psi_w.blocks as nat);
                }
                let pattern_start_plus_len = self.key.add(&psi_w, &from_true_length);
                let mut not_pattern_just_ended = self.key.scalar_ne(
                    &pattern_start_plus_len,
                    index as u64,
                );
                let mut pattern_ended = self.key.scalar_le(&pattern_start_plus_len, index as u64);
                pattern_ended = self.key.bitand(&pattern_ended, &first_one_seen);
                let one_and_pattern_ended = self.key.bitand(&contains_vec[index], &pattern_ended);
                let pattern_starts = self.key.bitor(&is_first_one, &one_and_pattern_ended);
                let encrypted_index = self.key.create_trivial(index as u64, n_blocks);
                pattern_start_index = self.key.if_then_else(
                    &pattern_starts,
                    &encrypted_index,
                    &pattern_start_index,
                );
                pattern_started = self.key.bitor(&pattern_started, &pattern_starts);
                not_pattern_just_ended = self.key.bitor(&not_pattern_just_ended, &pattern_starts);
                pattern_started = self.key.bitand(&pattern_started, &not_pattern_just_ended);
                first_one_seen = self.key.bitor(&first_one_seen, &contains_vec[index]);
                if replacen {
                    let ps_ext = self.key.extend_blocks(&pattern_starts, n_blocks - 1);
                    self.key.add_assign(&mut sum_pattern_starts, &ps_ext);
                    let le_n = self.key.scalar_le(&sum_pattern_starts, n_eff as u64);
                    let pattern_starts_n = self.key.bitand(&le_n, &pattern_starts);
                    let pattern_started_n = self.key.bitand(&le_n, &pattern_started);
                    starts_vec.push(pattern_starts_n);
                    is_pattern_vec.push(pattern_started_n);
                } else {
                    starts_vec.push(pattern_starts);
                    is_pattern_vec.push(pattern_started.clone());
                }
                index += 1;
            }
            // write the padded replacement wherever an occurrence starts
            let to_values = self.get_encrypted_values(&to_fhe_padded);
            let s_values = self.get_encrypted_values(fhe_string);
            let tplen = to_values.len();
            let mut replaced_values: Vec<Cipher> = Vec::new();
            let mut n: usize = 0;
            while n < slen
                invariant
                    0 <= n <= slen,
                    slen >= 1,
                    tplen == to_values@.len(),
                    tplen >= 1 || tplen == 0,
                    s_values@.len() == slen,
                    starts_vec@.len() == slen + 1,
                    is_pattern_vec@.len() == slen + 1,
                    wf_bool_seq(starts_vec@),
                    wf_bool_seq(is_pattern_vec@),
                    forall|k: int|
                        0 <= k < tplen ==> {
                            &&& (#[trigger] to_values@[k]).wf()
                            &&& to_values@[k].blocks == NUMBER_OF_BLOCKS
                            &&& to_values@[k].val <= 127
                        },
                    forall|k: int|
                        0 <= k < slen ==> {
                            &&& (#[trigger] s_values@[k]).wf()
                            &&& s_values@[k].blocks == NUMBER_OF_BLOCKS
                            &&& s_values@[k].val <= 127
                        },
                    forall|k: int|
                        0 <= k < replaced_values@.len() ==> {
                            &&& (#[trigger] replaced_values@[k]).wf()
                            &&& replaced_values@[k].blocks == NUMBER_OF_BLOCKS
                            &&& replaced_values@[k].val <= 127
                        },
                    replaced_values@.len() == n,
                    b == fhe_string.bytes(),
                    absent ==> forall|j: int|
                        0 <= j < slen + 1 ==> !(#[trigger] is_pattern_vec@[j]).as_bool(),
                    forall|k: int|
                        0 <= k < slen ==> (#[trigger] s_values@[k]).val as u8 == b[k],
                    absent ==> forall|k: int|
                        0 <= k < n ==> (#[trigger] replaced_values@[k]).val as u8 == b[k],
                decreases slen - n,
            {
                // select the replacement byte whose occurrence start covers
                // this position
                let mut acc = self.key.create_trivial_zero(NUMBER_OF_BLOCKS);
                let bound = if tplen < n + 1 {
                    tplen
                } else {
                    n + 1
                };
                let mut j: usize = 0;
                while j < bound
                    invariant
                        0 <= j <= bound,
                        bound <= tplen,
                        bound <= n + 1,
                        0 <= n < slen,
                        tplen == to_values@.len(),
                        starts_vec@.len() == slen + 1,
                        wf_bool_seq(starts_vec@),
                        forall|k: int|
                            0 <= k < tplen ==> {
                                &&& (#[trigger] to_values@[k]).wf()
                                &&& to_values@[k].blocks == NUMBER_OF_BLOCKS
                                &&& to_values@[k].val <= 127
                            },
                        acc.wf(),
                        acc.blocks == NUMBER_OF_BLOCKS,
                        acc.val <= 127,
                    decreases bound - j,
                {
                    acc = self.key.if_then_else(&starts_vec[n - j], &to_values[j], &acc);
                    j += 1;
                }
                replaced_values.push(
                    self.key.if_then_else(&is_pattern_vec[n], &acc, &s_values[n]),
                );
                n += 1;
            }
            // a padded pattern can still be empty: blend with the
            // interleaving (an unpadded one cannot be empty here)
            let final_values: Vec<Cipher> = if from.is_padded() {
                let from_is_empty = self.is_empty(from);
                self.if_then_else_vec(&from_is_empty, &result_from_empty, &replaced_values)
            } else {
                replaced_values
            };
            let res = FheString::from_encrypted(final_values, true, false);
            proof {
                if absent {
                    assert(res.bytes() =~= b);
                }
            }
            return res;
        }
        // the replacement does not fit in place: split at the pattern and
        // concatenate the fields with copies of the replacement
        let nt = if n_times >= slen {
            slen
        } else {
            n_times
        };
        let (sub_strings, number_of_fields, from_is_empty) = if replacen {
            self.splitn_pattern_empty(nt + 1, fhe_string, from)
        } else {
            self.split_pattern_empty(fhe_string, from)
        };
        let to_encrypted_values = self.get_encrypted_values(to);
        let n_fields = sub_strings.len();
        let mut to_concatenate: Vec<FheString> = Vec::new();
        let mut index: usize = 0;
        while index < n_fields
            invariant
                0 <= index <= n_fields,
                n_fields == sub_strings@.len(),
                wf_fields(sub_strings@),
                number_of_fields.wf(),
                tlen == to.bytes().len(),
                to_encrypted_values@.len() == tlen,
                forall|k: int|
                    0 <= k < tlen ==> {
                        &&& (#[trigger] to_encrypted_values@[k]).wf()
                        &&& to_encrypted_values@[k].blocks == NUMBER_OF_BLOCKS
                        &&& to_encrypted_values@[k].val <= 127
                    },
                wf_fields(to_concatenate@),
            decreases n_fields - index,
        {
            to_concatenate.push(sub_strings[index].clone());
            if index < n_fields - 1 {
                // a copy of the replacement, blanked when this separator
                // position is past the last produced field
                let index_lt_fields = self.key.scalar_gt(&number_of_fields, (index + 1) as u64);
                let keep_w = self.key.extend_blocks(&index_lt_fields, NUMBER_OF_BLOCKS - 1);
                let mut to_or_zero: Vec<Cipher> = Vec::new();
                let mut j: usize = 0;
                while j < tlen
                    invariant
                        0 <= j <= tlen,
                        to_encrypted_values@.len() == tlen,
                        keep_w.wf(),
                        keep_w.blocks == NUMBER_OF_BLOCKS,
                        keep_w.val <= 1,
                        forall|k: int|
                            0 <= k < tlen ==> {
                                &&& (#[trigger] to_encrypted_values@[k]).wf()
                                &&& to_encrypted_values@[k].blocks == NUMBER_OF_BLOCKS
                                &&& to_encrypted_values@[k].val <= 127
                            },
                        to_or_zero@.len() == j,
                        forall|k: int|
                            0 <= k < j ==> {
                                &&& (#[trigger] to_or_zero@[k]).wf()
                                &&& to_or_zero@[k].blocks == NUMBER_OF_BLOCKS
                                &&& to_or_zero@[k].val <= 127
                            },
                    decreases tlen - j,
                {
                    proof {
                        if keep_w.val == 0 {
                            assert(to_encrypted_values@[j as int].val * keep_w.val == 0);
                        } else {
                            assert(keep_w.val == 1);
                            assert(to_encrypted_values@[j as int].val * keep_w.val
                                == to_encrypted_values@[j as int].val);
                        }
                    }
                    to_or_zero.push(self.key.mul(&to_encrypted_values[j], &keep_w));
                    j += 1;
                }
                to_concatenate.push(FheString::from_encrypted(to_or_zero, true, false));
            }
            index += 1;
        }
        if to_concatenate.len() == 0 {
            to_concatenate.push(FheString::empty_encrypted());
        }
        let concatenated_string = FheString::concatenate(&to_concatenate);
        let concatenated_values = self.get_encrypted_values(&concatenated_string);
        let final_values: Vec<Cipher> = if from.is_padded() {
            self.if_then_else_vec(&from_is_empty, &result_from_empty, &concatenated_values)
        } else {
            concatenated_values
        };
        FheString::from_encrypted(final_values, true, false)
    }

    /// Replace every occurrence of `from` by `to`. Requires reusable inputs.
    pub fn replace(&self, fhe_string: &FheString, from: &FheString, to: &FheString) -> (r:
        FheString)
        requires
            fhe_string.wf(),
            from.wf(),
            to.wf(),
            fhe_string.reusable(),
            from.reusable(),
            to.reusable(),
            fhe_string.bytes().len() + from.bytes().len() < 0x1000_0000,
        ensures
            r.wf(),
            r.encrypted(),
            (!from.padded() && from.bytes().len() == 0 && to.bytes().len() == 0) ==> r.hidden()
                == fhe_string.hidden(),
            (!from.padded() && from.bytes().len() > 0 && from.bytes().len() >= to.bytes().len()
                && !contains_seq(fhe_string.hidden(), from.hidden())) ==> r.hidden()
                == fhe_string.hidden(),
    {
        self.replace_or_replacen(fhe_string, from, to, false, 0)
    }

    /// Replace and compact the result so it is reusable.
    pub fn replace_reusable(&self, fhe_string: &FheString, from: &FheString, to: &FheString) -> (r:
        FheString)
        requires
            fhe_string.wf(),
            from.wf(),
            to.wf(),
            fhe_string.reusable(),
            from.reusable(),
            to.reusable(),
            fhe_string.bytes().len() + from.bytes().len() < 0x1000_0000,
        ensures
            r.wf(),
            r.encrypted(),
            r.reusable(),
    {
        let replaced_string = self.replace(fhe_string, from, to);
        if !replaced_string.is_reusable() {
            self.make_reusable(&replaced_string)
        } else {
            replaced_string
        }
    }

    /// Replace at most `count` occurrences of `from` by `to`. Requires
    /// reusable inputs.
    pub fn replacen(
        &self,
        fhe_string: &FheString,
        from: &FheString,
        to: &FheString,
        count: usize,
    ) -> (r: FheString)
        requires
            fhe_string.wf(),
            from.wf(),
            to.wf(),
            fhe_string.reusable(),
            from.reusable(),
            to.reusable(),
            fhe_string.bytes().len() + from.bytes().len() < 0x1000_0000,
        ensures
            r.wf(),
            r.encrypted(),
            (!from.padded() && from.bytes().len() == 0 && to.bytes().len() == 0 && (count > 0
                || fhe_string.bytes().len() > 0)) ==> r.hidden() == fhe_string.hidden(),
            (!from.padded() && from.bytes().len() > 0 && from.bytes().len() >= to.bytes().len()
                && !contains_seq(fhe_string.hidden(), from.hidden())) ==> r.hidden()
                == fhe_string.hidden(),
    {
        self.replace_or_replacen(fhe_string, from, to, true, count)
    }

    /// Bounded replace, compacted so the result is reusable.
    pub fn replacen_reusable(
        &self,
        fhe_string: &FheString,
        from: &FheString,
        to: &FheString,
        count: usize,
    ) -> (r: FheString)
        requires
            fhe_string.wf(),
            from.wf(),
            to.wf(),
            fhe_string.reusable(),
            from.reusable(),
            to.reusable(),
            fhe_string.bytes().len() + from.bytes().len() < 0x1000_0000,
        ensures
            r.wf(),
            r.encrypted(),
            r.reusable() || (!from.padded() && !to.padded() && from.bytes().len()
                == to.bytes().len()),
    {
        let replaced_string = self.replacen(fhe_string, from, to, count);
        if !from.is_padded() && !to.is_padded() && from.len() == to.len() {
            // writing an equal-length unpadded replacement in place cannot
            // move any zeros
            return replaced_string;
        }
        if !replaced_string.is_reusable() {
            self.make_reusable(&replaced_string)
        } else {
            replaced_string
        }
    }
}

} // verus!
