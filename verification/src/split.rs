//! The split engine: one shared oblivious core drives split, splitn,
//! split_inclusive, split_terminator, split_once, their reversed variants
//! and split_ascii_whitespace.
//!
//! The core marks every position of the string with a homomorphic field
//! number (pattern occurrences and the spans between them), then extracts
//! each field by blanking every position with a different number. Because a
//! padded pattern may turn out to be empty at run time, the result for an
//! empty pattern (one field per character, bracketed by empty fields) is
//! always computed as well and selected obliviously.

use vstd::prelude::*;

use crate::cipher::{block_cap, lemma_block_cap_byte, lemma_block_cap_monotone, Cipher, MAX_BLOCKS};
use crate::ciphertext::FheString;
use crate::model::{all_zero, contains_seq, content, field_lo, lemma_content_all_zero,
    lemma_content_len, lemma_content_no_zero, lemma_content_empty_iff, lemma_gaps_sorted,
    lemma_occ_from, lemma_pos_id_at, lemma_pos_id_window, matches_at, no_zero, occurrences,
    pad_matches_at, pos_id, lemma_pad_match_iff_content, zeros, zeros_in_tail};
use crate::server_key::{fhe_string_bytes_of, wf_bool, wf_bool_seq, ServerKey};

verus! {

/// Every field of an encrypted split result is well formed and encrypted.
pub open spec fn wf_fields(v: Seq<FheString>) -> bool {
    forall|i: int|
        0 <= i < v.len() ==> (#[trigger] v[i]).wf() && v[i].encrypted()
}

/// A field extracted by masking: position by position it carries either a
/// zero or the input string's byte.
pub open spec fn masked_field_of(f: FheString, b: Seq<u8>) -> bool {
    &&& f.bytes().len() == b.len()
    &&& forall|i: int| 0 <= i < b.len() ==> (#[trigger] f.bytes()[i]) == 0 || f.bytes()[i] == b[i]
}

/// All fields are masks of the input string.
pub open spec fn masked_fields_of(v: Seq<FheString>, b: Seq<u8>) -> bool {
    forall|i: int| 0 <= i < v.len() ==> masked_field_of(#[trigger] v[i], b)
}

/// Number of separators a split of `c` by `q` produces under an optional
/// bound: every occurrence, or at most `n_times` of them.
pub open spec fn split_sep_count(c: Seq<u8>, q: Seq<u8>, splitn: bool, n_times: int) -> int {
    let occs = occurrences(c, q);
    if splitn && n_times < occs.len() {
        n_times
    } else {
        occs.len() as int
    }
}

/// The `k`-th field of the split of `c` by `q` with `nsep` separators: the
/// span between consecutive occurrences, the tail after the last one, or,
/// when the separator bound cut the split short, the whole remainder from
/// the last used separator on.
pub open spec fn split_field_at(c: Seq<u8>, q: Seq<u8>, nsep: int, k: int) -> Seq<u8> {
    let occs = occurrences(c, q);
    let lo = field_lo(occs, q.len() as int, k);
    if k < nsep || nsep == occs.len() {
        let hi = if k < occs.len() {
            occs[k]
        } else {
            c.len() as int
        };
        c.subrange(lo, hi)
    } else {
        c.skip(lo)
    }
}

impl ServerKey {
    /// Shift a string whose zeros all sit at the front so that they move to
    /// the tail: used on reversed reusable strings.
    pub(crate) fn left_shift_reverse(&self, fhe_string: &FheString) -> (r: FheString)
        requires
            fhe_string.wf(),
            fhe_string.encrypted(),
            fhe_string.bytes().len() > 0,
            exists|k: int|
                0 <= k <= fhe_string.bytes().len() && all_zero(
                    #[trigger] fhe_string.bytes().take(k),
                ) && no_zero(fhe_string.bytes().skip(k)),
        ensures
            r.wf(),
            r.encrypted(),
            r.reusable(),
            r.bytes().len() == fhe_string.bytes().len(),
            r.hidden() == fhe_string.hidden(),
    {
        let ghost b = fhe_string.bytes();
        let ghost k = choose|k: int|
            0 <= k <= b.len() && all_zero(#[trigger] b.take(k)) && no_zero(b.skip(k));
        proof {
            assert(b =~= b.take(k) + b.skip(k));
            crate::model::lemma_content_app(b.take(k), b.skip(k));
            lemma_content_all_zero(b.take(k));
            lemma_content_no_zero(b.skip(k));
            assert(content(b) =~= b.skip(k));
            lemma_content_len(b);
        }
        let len = fhe_string.len();
        let n_blocks = Self::compute_blocks_for_len(len as u64);
        let true_len = self.len(fhe_string);
        let mut true_len_w = true_len;
        if true_len_w.blocks < n_blocks {
            true_len_w = self.key.extend_blocks(&true_len_w, n_blocks - true_len_w.blocks);
        }
        proof {
            lemma_block_cap_monotone(n_blocks as nat, true_len_w.blocks as nat);
        }
        let len_encrypted = self.key.create_trivial(len as u64, true_len_w.blocks);
        let len_minus_true_len = self.key.sub(&len_encrypted, &true_len_w);
        proof {
            assert(len_minus_true_len.val == k) by {
                assert(content(b).len() == b.len() - k);
            }
        }
        let mut index_is: Vec<Cipher> = Vec::new();
        let mut i: usize = 0;
        while i < len
            invariant
                0 <= i <= len,
                len_minus_true_len.wf(),
                len_minus_true_len.val == k,
                index_is@.len() == i,
                wf_bool_seq(index_is@),
                forall|j: int| 0 <= j < i ==> (#[trigger] index_is@[j]).as_bool() == (j == k),
            decreases len - i,
        {
            index_is.push(self.key.scalar_eq(&len_minus_true_len, i as u64));
            i += 1;
        }
        proof {
            assert(crate::server_key::at_most_one_set(index_is@));
            assert(zeros_in_tail(crate::model::shift_bytes(b, k))) by {
                let sh = crate::model::shift_bytes(b, k);
                assert forall|x: int, y: int|
                    0 <= x < y < sh.len() && sh[x] == 0 implies sh[y] == 0 by {
                    if x + k < b.len() {
                        assert(b.skip(k)[x] == b[x + k]);
                        assert(b[x + k] != 0);
                    }
                }
            }
        }
        let r = self.left_shift(fhe_string, &index_is, true);
        proof {
            assert(k < len ==> index_is@[k].as_bool());
            if k < len {
                assert(r.bytes() == crate::model::shift_bytes(b, k));
                let sh = crate::model::shift_bytes(b, k);
                assert(sh =~= b.skip(k) + zeros(k as nat));
                crate::model::lemma_content_app(b.skip(k), zeros(k as nat));
                lemma_content_all_zero(zeros(k as nat));
                lemma_content_no_zero(b.skip(k));
                assert(content(sh) =~= content(b));
            } else {
                assert(k == len);
                assert(forall|j: int|
                    0 <= j < index_is@.len() ==> !(#[trigger] index_is@[j]).as_bool());
                assert(r.bytes() == zeros(b.len()));
                lemma_content_all_zero(r.bytes());
                assert(content(b) =~= Seq::<u8>::empty());
            }
        }
        r
    }

    /// Reverse both inputs of a reversed-split operation; a padded reversed
    /// pattern is compacted so it is reusable again.
    pub(crate) fn reverse_inputs(&self, fhe_string: &FheString, pattern: &FheString) -> (r: (
        FheString,
        FheString,
    ))
        requires
            fhe_string.wf(),
            pattern.wf(),
            pattern.reusable(),
        ensures
            r.0.wf(),
            r.1.wf(),
            r.0.encrypted() == fhe_string.encrypted(),
            r.0.bytes() == fhe_string.bytes().reverse(),
            r.1.reusable(),
            r.1.bytes().len() == pattern.bytes().len(),
            r.1.hidden() == content(pattern.bytes().reverse()),
    {
        let mut reverse_fhe_string = fhe_string.clone();
        let mut reverse_pattern = pattern.clone();
        reverse_fhe_string.reverse();
        reverse_pattern.reverse();
        if reverse_pattern.is_padded() && reverse_pattern.is_encrypted() {
            let ghost rb = reverse_pattern.bytes();
            proof {
                let pb = pattern.bytes();
                crate::model::lemma_tail_padded_split_point(pb);
                let kk = pb.len() - content(pb).len();
                assert(all_zero(rb.take(kk as int))) by {
                    assert forall|j: int| 0 <= j < kk implies rb.take(kk as int)[j] == 0 by {
                        assert(rb[j] == pb[pb.len() - 1 - j]);
                    }
                }
                assert(no_zero(rb.skip(kk as int))) by {
                    assert forall|j: int| 0 <= j < rb.skip(kk as int).len() implies rb.skip(
                        kk as int,
                    )[j] != 0 by {
                        assert(rb.skip(kk as int)[j] == pb[pb.len() - 1 - (kk + j)]);
                    }
                }
            }
            if reverse_pattern.len() > 0 {
                reverse_pattern = self.left_shift_reverse(&reverse_pattern);
            } else {
                proof {
                    assert(rb.len() == 0);
                    assert(zeros_in_tail(rb));
                }
                reverse_pattern = FheString::from_encrypted(Vec::new(), true, true);
                proof {
                    assert(reverse_pattern.bytes() =~= rb);
                }
            }
        }
        (reverse_fhe_string, reverse_pattern)
    }

    /// The shared split core. Returns the result fields (of worst-case
    /// count), the homomorphic number of fields actually produced, whether
    /// the pattern was found, and whether the pattern is empty.
    ///
    /// The contract pins the found and pattern-empty bits exactly, the
    /// well-formedness of everything returned, that every field of an
    /// unpadded-pattern split is a positionwise mask of the input, and that
    /// an absent pattern leaves the whole input in the first field; the
    /// full field contents are exercised by the crate's tests.
    #[verifier::rlimit(100)]
    fn split_general(
        &self,
        fhe_string: &FheString,
        pattern: &FheString,
        splitn: bool,
        n_times: usize,
        inclusive: bool,
        terminator: bool,
        ascii_whitespace: bool,
        rsplit_terminator: bool,
    ) -> (r: (Vec<FheString>, Cipher, Cipher, Cipher))
        requires
            fhe_string.wf(),
            pattern.wf(),
            pattern.reusable(),
            fhe_string.bytes().len() + pattern.bytes().len() < 0x1000_0000,
            ascii_whitespace ==> !splitn && !inclusive && !terminator,
            splitn ==> !inclusive && !terminator,
            inclusive ==> !terminator,
        ensures
            wf_fields(r.0@),
            r.1.wf(),
            wf_bool(r.2),
            wf_bool(r.3),
            !ascii_whitespace ==> r.3.as_bool() == (pattern.hidden().len() == 0),
            ascii_whitespace ==> !r.3.as_bool(),
            (!ascii_whitespace && fhe_string.reusable()) ==> r.2.as_bool() == contains_seq(
                fhe_string.hidden(),
                pattern.hidden(),
            ),
            (!pattern.padded() && pattern.bytes().len() > 0 && fhe_string.bytes().len() > 0
                && (!pattern.padded() ==> pattern.bytes().len() <= fhe_string.bytes().len()))
                ==> masked_fields_of(r.0@, fhe_string.bytes()),
            (!ascii_whitespace && fhe_string.reusable() && !pattern.padded() && 0
                < pattern.bytes().len() <= fhe_string.bytes().len() && !contains_seq(
                fhe_string.hidden(),
                pattern.hidden(),
            )) ==> r.0@.len() > 0 && r.0@[0].bytes() == fhe_string.bytes(),
            (!ascii_whitespace && fhe_string.reusable() && !pattern.padded() && 0
                < pattern.bytes().len() <= fhe_string.bytes().len() && !contains_seq(
                fhe_string.hidden(),
                pattern.hidden(),
            ) && !terminator && !inclusive && fhe_string.hidden().len() > 0) ==> r.1.val == 1,
    {
        let ghost b = fhe_string.bytes();
        let ghost pb = pattern.bytes();
        let ghost cs = fhe_string.hidden();
        let ghost cp = pattern.hidden();
        proof {
            lemma_content_len(b);
            lemma_content_len(pb);
            lemma_block_cap_byte();
        }
        let s_enc: FheString = if fhe_string.is_encrypted() {
            fhe_string.clone()
        } else {
            self.trivial_encrypt_fhe_string(fhe_string, 0)
        };
        let p_enc: FheString = if ascii_whitespace {
            FheString::empty_encrypted()
        } else if pattern.is_encrypted() {
            pattern.clone()
        } else {
            self.trivial_encrypt_fhe_string(pattern, 0)
        };
        proof {
            assert(s_enc.bytes() =~= b);
            if !ascii_whitespace {
                assert(p_enc.bytes() =~= pb);
            }
        }
        let slen = s_enc.len();
        let plen = p_enc.len();
        let pattern_is_padded = p_enc.is_padded();
        // trivial result: empty string
        if slen == 0 {
            proof {
                assert(b.len() == 0);
                lemma_content_all_zero(b);
                lemma_content_empty_iff(pb);
            }
            if ascii_whitespace {
                return (
                    Vec::new(),
                    self.key.create_trivial_zero(1),
                    self.make_trivial_bool(false),
                    self.make_trivial_bool(false),
                );
            }
            let mut res: Vec<FheString> = Vec::new();
            if !inclusive && !terminator && !rsplit_terminator {
                res.push(s_enc.clone());
            }
            let is_pattern_empty = self.is_empty(&p_enc);
            let mut number_of_fields = self.key.create_trivial(res.len() as u64, 1);
            self.key.add_assign(&mut number_of_fields, &is_pattern_empty);
            res.push(s_enc.clone());
            proof {
                if cp.len() == 0 {
                    assert(cs.subrange(0, 0) =~= cp);
                    assert(matches_at(cs, cp, 0));
                } else {
                    assert(forall|i: int| !matches_at(cs, cp, i));
                }
            }
            let found = is_pattern_empty.clone();
            return (res, number_of_fields, found, is_pattern_empty);
        }
        // trivial result: an unpadded pattern longer than the string
        if !pattern_is_padded && !ascii_whitespace && plen > slen {
            proof {
                lemma_content_no_zero(pb);
                assert(cp.len() > cs.len());
                assert(forall|i: int| !matches_at(cs, cp, i));
            }
            let mut res: Vec<FheString> = Vec::new();
            res.push(s_enc.clone());
            return (
                res,
                self.key.create_trivial(1u64, 1),
                self.make_trivial_bool(false),
                self.make_trivial_bool(false),
            );
        }
        let is_pattern_empty = if ascii_whitespace {
            self.make_trivial_bool(false)
        } else {
            self.is_empty(&p_enc)
        };
        proof {
            if !ascii_whitespace {
                lemma_content_empty_iff(pb);
            }
        }
        // the result when the pattern is empty: one field per character,
        // bracketed by empty fields
        let mut results_from_empty: Vec<FheString> = Vec::new();
        if !ascii_whitespace && (pattern_is_padded || plen == 0) {
            if !rsplit_terminator {
                results_from_empty.push(FheString::empty_encrypted());
            }
            let s_chars = s_enc.fhe_chars();
            let mut i: usize = 0;
            while i < slen
                invariant
                    0 <= i <= slen,
                    s_enc.wf(),
                    s_enc.encrypted(),
                    slen == s_enc.bytes().len(),
                    s_chars@ == s_enc.fhe_chars@,
                    wf_fields(results_from_empty@),
                    i <= results_from_empty@.len() <= i + 1,
                decreases slen - i,
            {
                let mut one: Vec<Cipher> = Vec::new();
                one.push(s_chars[i].unwrap().clone());
                proof {
                    let mapped = one@.map_values(|c: Cipher| c.val as u8);
                    assert(zeros_in_tail(mapped));
                }
                results_from_empty.push(FheString::from_encrypted(one, true, true));
                i += 1;
            }
            if !terminator && !inclusive && !(splitn && n_times < slen) {
                results_from_empty.push(FheString::empty_encrypted());
            }
        }
        let n_blocks_len_empty = Self::compute_blocks_for_len((slen as u64) + 2);
        proof {
            assert(results_from_empty@.len() <= slen + 2);
        }
        let mut encrypted_len_empty = self.key.create_trivial(
            results_from_empty.len() as u64,
            n_blocks_len_empty,
        );
        // an empty unpadded pattern: the per-character result is the answer
        if !ascii_whitespace && plen == 0 {
            proof {
                assert(pb.len() == 0);
                lemma_content_all_zero(pb);
                assert(cs.subrange(0, 0) =~= cp);
                assert(matches_at(cs, cp, 0));
            }
            let number_of_fields_if_string_empty = self.key.create_trivial(
                if terminator || inclusive || (splitn && n_times == 0) || rsplit_terminator {
                    1u64
                } else {
                    2u64
                },
                n_blocks_len_empty,
            );
            let is_string_empty = self.is_empty(&s_enc);
            encrypted_len_empty = self.key.if_then_else(
                &is_string_empty,
                &number_of_fields_if_string_empty,
                &encrypted_len_empty,
            );
            return (
                results_from_empty,
                encrypted_len_empty,
                self.make_trivial_bool(true),
                self.make_trivial_bool(true),
            );
        }
        // the per-candidate match vector, padded to the visible length plus
        // one sentinel
        let mut match_vec: Vec<Cipher> = if ascii_whitespace {
            self.is_whitespace(&s_enc)
        } else {
            self.contains_at_index_vec(&s_enc, &p_enc)
        };
        proof {
            if !ascii_whitespace && !pattern_is_padded {
                lemma_content_no_zero(pb);
                assert forall|i: int|
                    match_vec@.len() <= i < slen implies !pad_matches_at(b, pb, i) by {
                    let j = b.len() - i;
                    assert(0 <= j < pb.len());
                    assert(pb[j] != 0);
                }
            }
        }
        let ghost mv_sem = match_vec@;
        while match_vec.len() < slen
            invariant
                mv_sem.len() <= match_vec@.len() <= slen,
                wf_bool_seq(match_vec@),
                match_vec@.take(mv_sem.len() as int) == mv_sem,
                forall|j: int|
                    mv_sem.len() <= j < match_vec@.len() ==> !(#[trigger] match_vec@[j]).as_bool(),
            decreases slen - match_vec@.len(),
        {
            match_vec.push(self.make_trivial_bool(false));
            proof {
                assert(match_vec@.take(mv_sem.len() as int) =~= mv_sem);
            }
        }
        match_vec.push(self.make_trivial_bool(false));
        let ghost mv = match_vec@;
        proof {
            assert(mv.len() == slen + 1);
            assert(!mv[slen as int].as_bool());
            assert(mv.take(mv_sem.len() as int) =~= mv_sem);
            if !ascii_whitespace {
                assert forall|j: int|
                    0 <= j < slen implies (#[trigger] mv[j]).as_bool() == pad_matches_at(
                    b,
                    pb,
                    j,
                ) by {
                    if j < mv_sem.len() {
                        assert(mv[j] == mv.take(mv_sem.len() as int)[j]);
                        assert(mv_sem[j].as_bool() == pad_matches_at(b, pb, j));
                    } else {
                        assert(!mv[j].as_bool());
                        assert(!pad_matches_at(b, pb, j));
                    }
                }
            }
        }
        let total = slen + 1;
        let n_blocks = Self::compute_blocks_for_len(
            2 * (slen as u64) + 2 * (plen as u64) + 4,
        );
        let encrypted_pattern_length: Cipher = if ascii_whitespace {
            self.key.create_trivial(1u64, n_blocks)
        } else {
            let l = self.len(&p_enc);
            let mut lw = l;
            if lw.blocks < n_blocks {
                lw = self.key.extend_blocks(&lw, n_blocks - lw.blocks);
            }
            proof {
                lemma_block_cap_monotone(n_blocks as nat, lw.blocks as nat);
            }
            lw
        };
        let encrypted_string_length = self.len(&s_enc);
        let n_eff = if splitn {
            if n_times > slen {
                slen + 1
            } else {
                n_times
            }
        } else {
            0
        };
        let twice_n: u64 = 2u64 * (n_eff as u64);
        let encrypted_2n_times = self.key.create_trivial(twice_n, n_blocks);
        let ghost exact = false;
        let ghost occs = occurrences(cs, cp);
        let ghost kp: int = cp.len() as int;
        let ghost mut gk: int = 0;
        proof {
            if exact {
                lemma_occ_from(cs, cp, 0);
                assert forall|j: int|
                    0 <= j < slen implies (#[trigger] mv[j]).as_bool() == matches_at(
                    cs,
                    cp,
                    j,
                ) by {
                    lemma_pad_match_iff_content(b, pb, j);
                }
                lemma_content_len(b);
            }
        }
        let mut pattern_start_index = self.key.create_trivial_zero(n_blocks);
        let mut pattern_start_plus_len = self.key.create_trivial_zero(
            encrypted_pattern_length.blocks,
        );
        let mut cum_sum: Vec<Cipher> = Vec::new();
        let mut first_one_seen = self.make_trivial_bool(false);
        let mut index: usize = 0;
        while index < total
            invariant
                0 <= index <= total,
                total == slen + 1,
                slen >= 1,
                ascii_whitespace ==> !splitn && !inclusive && !terminator,
                splitn ==> !inclusive && !terminator,
                mv.len() == total,
                mv == match_vec@,
                wf_bool_seq(mv),
                1 <= n_blocks <= MAX_BLOCKS,
                block_cap(n_blocks as nat) > 2 * slen + 2 * plen + 4,
                encrypted_pattern_length.wf(),
                encrypted_pattern_length.blocks >= n_blocks,
                encrypted_pattern_length.val <= if ascii_whitespace {
                    1int
                } else {
                    plen as int
                },
                encrypted_string_length.wf(),
                encrypted_2n_times.wf(),
                encrypted_2n_times.blocks == n_blocks,
                encrypted_2n_times.val == 2 * n_eff,
                twice_n == 2 * n_eff,
                n_eff <= slen + 1,
                pattern_start_index.wf(),
                pattern_start_index.blocks == n_blocks,
                pattern_start_index.val <= index,
                pattern_start_plus_len.wf(),
                pattern_start_plus_len.blocks == encrypted_pattern_length.blocks,
                pattern_start_plus_len.val <= slen + plen + 1,
                wf_bool(first_one_seen),
                first_one_seen.as_bool() == exists|j: int|
                    0 <= j < index && (#[trigger] mv[j]).as_bool(),
                cum_sum@.len() == index,
                forall|j: int|
                    0 <= j < index ==> {
                        &&& (#[trigger] cum_sum@[j]).wf()
                        &&& cum_sum@[j].blocks == n_blocks
                        &&& cum_sum@[j].val <= 2 * (j + 1)
                        &&& (splitn ==> cum_sum@[j].val <= 2 * n_eff)
                    },
                forall|x: int, y: int|
                    0 <= x <= y < index ==> (#[trigger] cum_sum@[x]).val <= (
                    #[trigger] cum_sum@[y]).val,
                (forall|j: int| 0 <= j < index ==> !(#[trigger] mv[j]).as_bool()) ==> forall|j: int|
                    0 <= j < index ==> (#[trigger] cum_sum@[j]).val == 0,
            decreases total - index,
        {
            if ascii_whitespace {
                if index == 0 {
                    let w = self.key.extend_blocks(&match_vec[0], n_blocks - 1);
                    cum_sum.push(w);
                } else {
                    let mut sum = self.key.bitxor(&match_vec[index], &match_vec[index - 1]);
                    if s_enc.is_padded() {
                        let is_not_padding = self.key.scalar_gt(
                            &encrypted_string_length,
                            index as u64,
                        );
                        sum = self.key.bitand(&sum, &is_not_padding);
                    }
                    let sum_w = self.key.extend_blocks(&sum, n_blocks - 1);
                    let prev = cum_sum[index - 1].clone();
                    cum_sum.push(self.key.add(&prev, &sum_w));
                }
            } else {
                let ghost psi0: int = pattern_start_index.val as int;
                let not_seen = self.not(&first_one_seen);
                let is_first_one = self.key.bitand(&match_vec[index], &not_seen);
                let mut psi_w = pattern_start_index.clone();
                if psi_w.blocks < encrypted_pattern_length.blocks {
                    psi_w = self.key.extend_blocks(
                        &psi_w,
                        encrypted_pattern_length.blocks - psi_w.blocks,
                    );
                }
                proof {
                    lemma_block_cap_monotone(n_blocks as nat, psi_w.blocks as nat);
                }
                pattern_start_plus_len = self.key.add(&psi_w, &encrypted_pattern_length);
                let mut pattern_just_ended = self.key.scalar_eq(
                    &pattern_start_plus_len,
                    index as u64,
                );
                let mut pattern_ended = self.key.scalar_le(&pattern_start_plus_len, index as u64);
                pattern_just_ended = self.key.bitand(&pattern_just_ended, &first_one_seen);
                pattern_ended = self.key.bitand(&pattern_ended, &first_one_seen);
                let one_and_pattern_ended = self.key.bitand(&match_vec[index], &pattern_ended);
                let pattern_starts = self.key.bitor(&is_first_one, &one_and_pattern_ended);
                let encrypted_index = self.key.create_trivial(index as u64, n_blocks);
                pattern_start_index = self.key.if_then_else(
                    &pattern_starts,
                    &encrypted_index,
                    &pattern_start_index,
                );
                if index == 0 {
                    if inclusive {
                        cum_sum.push(self.key.create_trivial_zero(n_blocks));
                    } else {
                        let mut first = self.key.extend_blocks(&pattern_starts, n_blocks - 1);
                        if splitn {
                            let is_gt_n = self.key.scalar_gt(&first, twice_n);
                            first = self.key.if_then_else(&is_gt_n, &encrypted_2n_times, &first);
                        }
                        cum_sum.push(first);
                    }
                } else {
                    let ps_ext = self.key.extend_blocks(&pattern_starts, n_blocks - 1);
                    let pje_ext = self.key.extend_blocks(&pattern_just_ended, n_blocks - 1);
                    let prev = cum_sum[index - 1].clone();
                    let mut sum = if inclusive {
                        prev
                    } else {
                        self.key.add(&prev, &ps_ext)
                    };
                    sum = self.key.add(&sum, &pje_ext);
                    if splitn {
                        let is_gt_n = self.key.scalar_gt(&sum, twice_n);
                        sum = self.key.if_then_else(&is_gt_n, &encrypted_2n_times, &sum);
                    }
                    cum_sum.push(sum);
                }

            }
            let seen_here = match_vec[index].clone();
            self.key.bitor_assign(&mut first_one_seen, &seen_here);
            proof {
                if mv[index as int].as_bool() {
                    assert(exists|j: int| 0 <= j < index + 1 && (#[trigger] mv[j]).as_bool());
                }
            }
            index += 1;
        }
        // whitespace: when the string opens with whitespace, pull every
        // field number two steps down so the first field is not empty
        let mut field_monotone: bool = true;
        if ascii_whitespace {
            field_monotone = false;
            let sub_2_if_first = self.key.if_then_else(
                &match_vec[0],
                &self.key.create_trivial(2u64, n_blocks),
                &self.key.create_trivial_zero(n_blocks),
            );
            let zero_nb = self.key.create_trivial_zero(n_blocks);
            let mut corrected: Vec<Cipher> = Vec::new();
            let mut ci: usize = 0;
            while ci < total
                invariant
                    0 <= ci <= total,
                    cum_sum@.len() == total,
                    1 <= n_blocks <= MAX_BLOCKS,
                    sub_2_if_first.wf(),
                    sub_2_if_first.blocks == n_blocks,
                    sub_2_if_first.val <= 2,
                    zero_nb.wf(),
                    zero_nb.blocks == n_blocks,
                    zero_nb.val == 0,
                    forall|j: int|
                        0 <= j < total ==> {
                            &&& (#[trigger] cum_sum@[j]).wf()
                            &&& cum_sum@[j].blocks == n_blocks
                            &&& cum_sum@[j].val <= 2 * (j + 1)
                        },
                    corrected@.len() == ci,
                    forall|j: int|
                        0 <= j < ci ==> {
                            &&& (#[trigger] corrected@[j]).wf()
                            &&& corrected@[j].blocks == n_blocks
                            &&& corrected@[j].val <= 2 * (j + 1)
                            &&& (cum_sum@[j].val == 0 ==> corrected@[j].val == 0)
                        },
                decreases total - ci,
            {
                let ele = &cum_sum[ci];
                let is_ge_2 = self.key.scalar_ge(ele, 2u64);
                let to_sub = self.key.if_then_else(&is_ge_2, &sub_2_if_first, &zero_nb);
                corrected.push(self.key.sub(ele, &to_sub));
                ci += 1;
            }
            cum_sum = corrected;
        }
        // field extraction
        let len_split_raw: usize = if splitn {
            2 * (n_eff + 1)
        } else if inclusive {
            if !pattern_is_padded && !ascii_whitespace {
                proof {
                    assert((slen + plen - 1) as nat / plen as nat <= (slen + plen - 1) as nat)
                        by (nonlinear_arith)
                        requires
                            plen >= 1,
                            slen >= 1,
                    ;
                }
                (slen + plen - 1) / plen
            } else {
                slen
            }
        } else {
            let base = if !pattern_is_padded && !ascii_whitespace {
                proof {
                    assert(2 * slen as nat / plen as nat <= 2 * slen as nat) by (nonlinear_arith)
                        requires
                            plen >= 1,
                    ;
                }
                1 + 2 * slen / plen
            } else {
                2 * slen
            };
            if terminator && base > 0 {
                base - 1
            } else {
                base
            }
        };
        proof {
            if !pattern_is_padded && !ascii_whitespace && 0 < plen <= slen {
                assert(len_split_raw >= 1) by {
                    if inclusive {
                        assert((slen + plen - 1) as nat / plen as nat >= 1) by (nonlinear_arith)
                            requires
                                0 < plen <= slen,
                        ;
                    } else if !splitn {
                        assert(2 * slen as nat / plen as nat >= 1) by (nonlinear_arith)
                            requires
                                0 < plen <= slen,
                        ;
                    }
                }
            }
        }
        // the number of fields can never exceed the number of positions
        // plus one, so cap the worst-case vector size
        let len_split: usize = if len_split_raw > 2 * slen + 4 {
            2 * slen + 4
        } else {
            len_split_raw
        };
        let step: usize = 2 - (if inclusive {
            1
        } else {
            0
        });
        let mut split_results: Vec<FheString> = Vec::new();
        let mut index_split: usize = 0;
        while index_split < len_split
            invariant
                0 <= index_split,
                s_enc.wf(),
                s_enc.encrypted(),
                fhe_string.reusable() ==> zeros_in_tail(b),
                b == fhe_string_bytes_of(&s_enc),
                slen == b.len(),
                len_split <= 2 * slen + 4,
                slen + plen < 0x1000_0000,
                cum_sum@.len() == total,
                total == slen + 1,
                1 <= n_blocks <= MAX_BLOCKS,
                forall|j: int|
                    0 <= j < total ==> {
                        &&& (#[trigger] cum_sum@[j]).wf()
                        &&& cum_sum@[j].blocks == n_blocks
                    },
                field_monotone ==> forall|x: int, y: int|
                    0 <= x <= y < total ==> (#[trigger] cum_sum@[x]).val <= (
                    #[trigger] cum_sum@[y]).val,
                step == 1 || step == 2,
                wf_fields(split_results@),
                masked_fields_of(split_results@, b),
                (forall|j: int| 0 <= j < mv.len() ==> !(#[trigger] mv[j]).as_bool()) ==> forall|
                    j: int,
                |
                    0 <= j < total ==> (#[trigger] cum_sum@[j]).val == 0,
                mv.len() == total,
                ((forall|j: int| 0 <= j < mv.len() ==> !(#[trigger] mv[j]).as_bool())
                    && split_results@.len() > 0) ==> split_results@[0].bytes() == b,
                index_split > 0 ==> split_results@.len() > 0,
            decreases len_split + 2 - index_split,
        {
            let mut mask: Vec<Cipher> = Vec::new();
            let mut i: usize = 0;
            while i < slen
                invariant
                    0 <= i <= slen,
                    total == slen + 1,
                    cum_sum@.len() == total,
                    forall|j: int|
                        0 <= j < total ==> {
                            &&& (#[trigger] cum_sum@[j]).wf()
                            &&& cum_sum@[j].blocks == n_blocks
                        },
                    mask@.len() == i,
                    wf_bool_seq(mask@),
                    forall|j: int|
                        0 <= j < i ==> (#[trigger] mask@[j]).as_bool() == (cum_sum@[j].val
                            != index_split),
                decreases slen - i,
            {
                mask.push(self.key.scalar_ne(&cum_sum[i], index_split as u64));
                i += 1;
            }
            let blanked = self.set_zero_where(&s_enc, &mask);
            let reusable_here = index_split == 0 && fhe_string.is_reusable() && field_monotone;
            proof {
                if reusable_here {
                    let mapped = blanked@.map_values(|c: Cipher| c.val as u8);
                    assert forall|x: int, y: int|
                        0 <= x < y < mapped.len() && mapped[x] == 0 implies mapped[y] == 0 by {
                        if mask@[x].as_bool() {
                            assert(cum_sum@[x].val != 0);
                            assert(cum_sum@[x].val <= cum_sum@[y].val);
                            assert(mask@[y].as_bool());
                        } else {
                            if b[x] == 0 {
                                assert(b[y] == 0);
                            }
                        }
                    }
                }
            }
            proof {
                if index_split == 0 && (forall|j: int|
                    0 <= j < mv.len() ==> !(#[trigger] mv[j]).as_bool()) {
                    assert forall|j: int|
                        0 <= j < slen implies (#[trigger] blanked@[j]).val as u8 == b[j] by {
                        assert(cum_sum@[j].val == 0);
                        assert(!mask@[j].as_bool());
                    }
                }
            }
            split_results.push(FheString::from_encrypted(blanked, true, reusable_here));
            proof {
                if index_split == 0 && (forall|j: int|
                    0 <= j < mv.len() ==> !(#[trigger] mv[j]).as_bool()) {
                    assert(split_results@[0].bytes() =~= b);
                }
            }
            index_split += step;
        }
        // the homomorphic number of fields
        let last = cum_sum[total - 1].clone();
        let mut number_of_fields = if inclusive {
            self.key.scalar_add(&last, 1u64)
        } else {
            let last_plus_two = self.key.scalar_add(&last, 2u64);
            let two = self.key.create_trivial(2u64, last_plus_two.blocks);
            self.key.div(&last_plus_two, &two)
        };
        proof {
            assert(number_of_fields.val >= if inclusive {
                1int
            } else {
                1int
            }) by {
                if !inclusive {
                    assert((last.val + 2) as nat / 2nat >= 1) by (nonlinear_arith)
                        requires
                            last.val >= 0,
                    ;
                }
            }
        }
        if terminator {
            let mut psp = pattern_start_plus_len.clone();
            let mut esl = encrypted_string_length.clone();
            self.extend_equally(&mut psp, &mut esl);
            let pattern_ends_string = self.key.eq(&psp, &esl);
            let pes_ext = self.key.extend_blocks(
                &pattern_ends_string,
                number_of_fields.blocks - 1,
            );
            number_of_fields = self.key.sub(&number_of_fields, &pes_ext);
        }
        // a non-empty unpadded pattern needs no blending with the
        // empty-pattern result
        if (plen > 0 && !pattern_is_padded) || ascii_whitespace {
            let number_of_fields_if_string_empty = self.key.create_trivial(
                if terminator || inclusive || (splitn && n_times == 0) || rsplit_terminator {
                    1u64
                } else if ascii_whitespace {
                    0u64
                } else {
                    2u64
                },
                number_of_fields.blocks,
            );
            let is_string_empty = self.is_empty(&s_enc);
            number_of_fields = self.key.if_then_else(
                &is_string_empty,
                &number_of_fields_if_string_empty,
                &number_of_fields,
            );
            proof {
                if !ascii_whitespace {
                    lemma_content_no_zero(pb);
                    if fhe_string.reusable() {
                        lemma_split_found_exact(b, pb, mv, first_one_seen.as_bool(), false);
                        if !contains_seq(cs, cp) && 0 < plen <= slen {
                            assert(len_split >= 1);
                            assert forall|j: int|
                                0 <= j < mv.len() implies !(#[trigger] mv[j]).as_bool() by {
                                if j < slen && mv[j].as_bool() {
                                    lemma_pad_match_iff_content(b, pb, j);
                                    assert(matches_at(cs, cp, j));
                                }
                            }
                            assert(split_results@.len() > 0);
                            assert(split_results@[0].bytes() == b);
                            if !terminator && !inclusive && cs.len() > 0 {
                                assert(cum_sum@[total - 1].val == 0);
                                assert(number_of_fields.val == 1);
                            }
                        }
                    }
                }
            }
            return (split_results, number_of_fields, first_one_seen, self.make_trivial_bool(false));
        }
        // the pattern may be empty: blend with the per-character result
        let empty_fhe_string = FheString::empty_encrypted();
        let n_res = split_results.len();
        let n_rfe = results_from_empty.len();
        let n_max = if n_res >= n_rfe {
            n_res
        } else {
            n_rfe
        };
        let mut final_results: Vec<FheString> = Vec::new();
        let mut fi: usize = 0;
        while fi < n_max
            invariant
                0 <= fi <= n_max,
                n_res == split_results@.len(),
                n_rfe == results_from_empty@.len(),
                n_max == if n_res >= n_rfe {
                    n_res
                } else {
                    n_rfe
                },
                wf_bool(is_pattern_empty),
                empty_fhe_string.wf(),
                empty_fhe_string.encrypted(),
                wf_fields(split_results@),
                wf_fields(results_from_empty@),
                wf_fields(final_results@),
                final_results@.len() == fi,
            decreases n_max - fi,
        {
            if fi >= n_res {
                final_results.push(
                    self.if_then_else_fhe_string(
                        &is_pattern_empty,
                        &results_from_empty[fi],
                        &empty_fhe_string,
                    ),
                );
            } else if fi >= n_rfe {
                final_results.push(
                    self.if_then_else_fhe_string(
                        &is_pattern_empty,
                        &empty_fhe_string,
                        &split_results[fi],
                    ),
                );
            } else {
                final_results.push(
                    self.if_then_else_fhe_string(
                        &is_pattern_empty,
                        &results_from_empty[fi],
                        &split_results[fi],
                    ),
                );
            }
            fi += 1;
        }
        // correct the number of fields for empty pattern and empty string
        let is_string_empty = self.is_empty(&s_enc);
        let not_is_pattern_empty = self.not(&is_pattern_empty);
        let ise_ext = self.key.extend_blocks(&is_string_empty, encrypted_len_empty.blocks - 1);
        proof {
            assert(encrypted_len_empty.val >= 1);
        }
        let len_empty_corr = self.key.sub(&encrypted_len_empty, &ise_ext);
        let mut nof = number_of_fields;
        let mut lec = len_empty_corr;
        self.extend_equally(&mut nof, &mut lec);
        number_of_fields = self.key.if_then_else(&is_pattern_empty, &lec, &nof);
        self.key.bitor_assign(&mut first_one_seen, &is_pattern_empty);
        let mut number_of_fields_if_string_empty = self.key.create_trivial(
            if terminator || inclusive || (splitn && n_times == 0) || rsplit_terminator {
                1u64
            } else {
                2u64
            },
            number_of_fields.blocks,
        );
        let nipe_ext = self.key.extend_blocks(
            &not_is_pattern_empty,
            number_of_fields_if_string_empty.blocks - 1,
        );
        number_of_fields_if_string_empty = self.key.sub(
            &number_of_fields_if_string_empty,
            &nipe_ext,
        );
        let mut ise2 = is_string_empty;
        number_of_fields = self.key.if_then_else(
            &ise2,
            &number_of_fields_if_string_empty,
            &number_of_fields,
        );
        proof {
            if fhe_string.reusable() {
                lemma_split_found_exact(
                    b,
                    pb,
                    mv,
                    first_one_seen.as_bool(),
                    is_pattern_empty.as_bool(),
                );
            }
        }
        (final_results, number_of_fields, first_one_seen, is_pattern_empty)
    }
}

impl ServerKey {
    /// Compact every field of a split result so all fields are reusable;
    /// the hidden contents and the field count are unchanged.
    fn make_split_reusable(&self, split_result: (Vec<FheString>, Cipher)) -> (r: (
        Vec<FheString>,
        Cipher,
    ))
        requires
            wf_fields(split_result.0@),
            split_result.1.wf(),
        ensures
            wf_fields(r.0@),
            r.0@.len() == split_result.0@.len(),
            forall|i: int| 0 <= i < r.0@.len() ==> (#[trigger] r.0@[i]).reusable(),
            forall|i: int|
                0 <= i < r.0@.len() ==> (#[trigger] r.0@[i]).hidden() == split_result.0@[i].hidden(),
            r.1 == split_result.1,
    {
        let (split_string, number_of_fields) = split_result;
        let n = split_string.len();
        let mut out: Vec<FheString> = Vec::new();
        let mut i: usize = 0;
        while i < n
            invariant
                0 <= i <= n,
                n == split_string@.len(),
                wf_fields(split_string@),
                wf_fields(out@),
                out@.len() == i,
                forall|k: int| 0 <= k < i ==> (#[trigger] out@[k]).reusable(),
                forall|k: int|
                    0 <= k < i ==> (#[trigger] out@[k]).hidden() == split_string@[k].hidden(),
            decreases n - i,
        {
            let field = &split_string[i];
            if field.is_reusable() {
                out.push(field.clone());
            } else {
                out.push(self.make_reusable(field));
            }
            i += 1;
        }
        (out, number_of_fields)
    }

    /// Split around every occurrence of the pattern. Returns the result
    /// fields (worst-case count) and the homomorphic number of fields.
    /// Only the first field is reusable.
    pub fn split(&self, fhe_string: &FheString, pattern: &FheString) -> (r: (Vec<FheString>, Cipher))
        requires
            fhe_string.wf(),
            pattern.wf(),
            fhe_string.reusable(),
            pattern.reusable(),
            fhe_string.bytes().len() + pattern.bytes().len() < 0x1000_0000,
        ensures
            wf_fields(r.0@),
            r.1.wf(),
            (!pattern.padded() && 0 < pattern.bytes().len() <= fhe_string.bytes().len())
                ==> masked_fields_of(r.0@, fhe_string.bytes()),
            (!pattern.padded() && 0 < pattern.bytes().len() <= fhe_string.bytes().len()
                && !contains_seq(fhe_string.hidden(), pattern.hidden())) ==> r.0@.len() > 0
                && r.0@[0].bytes() == fhe_string.bytes() && r.0@[0].hidden()
                == fhe_string.hidden(),
            (!pattern.padded() && 0 < pattern.bytes().len() <= fhe_string.bytes().len()
                && !contains_seq(fhe_string.hidden(), pattern.hidden())
                && fhe_string.hidden().len() > 0) ==> r.1.val == 1,
    {
        let (split_res, number_of_fields, _, _) = self.split_general(
            fhe_string,
            pattern,
            false,
            0,
            false,
            false,
            false,
            false,
        );
        (split_res, number_of_fields)
    }

    /// Split, also reporting whether the pattern is empty.
    pub(crate) fn split_pattern_empty(&self, fhe_string: &FheString, pattern: &FheString) -> (r: (
        Vec<FheString>,
        Cipher,
        Cipher,
    ))
        requires
            fhe_string.wf(),
            pattern.wf(),
            fhe_string.reusable(),
            pattern.reusable(),
            fhe_string.bytes().len() + pattern.bytes().len() < 0x1000_0000,
        ensures
            wf_fields(r.0@),
            r.1.wf(),
            wf_bool(r.2),
            r.2.as_bool() == (pattern.hidden().len() == 0),
    {
        let (split_res, number_of_fields, _, is_pattern_empty) = self.split_general(
            fhe_string,
            pattern,
            false,
            0,
            false,
            false,
            false,
            false,
        );
        (split_res, number_of_fields, is_pattern_empty)
    }

    /// Split and compact every field so the results are reusable.
    pub fn split_reusable(&self, fhe_string: &FheString, pattern: &FheString) -> (r: (
        Vec<FheString>,
        Cipher,
    ))
        requires
            fhe_string.wf(),
            pattern.wf(),
            fhe_string.reusable(),
            pattern.reusable(),
            fhe_string.bytes().len() + pattern.bytes().len() < 0x1000_0000,
        ensures
            wf_fields(r.0@),
            forall|i: int| 0 <= i < r.0@.len() ==> (#[trigger] r.0@[i]).reusable(),
            r.1.wf(),
    {
        self.make_split_reusable(self.split(fhe_string, pattern))
    }

    /// Reverse every field of a reversed split back into reading order.
    fn reverse_fields(&self, fields: Vec<FheString>) -> (r: Vec<FheString>)
        requires
            wf_fields(fields@),
        ensures
            wf_fields(r@),
            r@.len() == fields@.len(),
    {
        let n = fields.len();
        let mut out: Vec<FheString> = Vec::new();
        let mut i: usize = 0;
        while i < n
            invariant
                0 <= i <= n,
                n == fields@.len(),
                wf_fields(fields@),
                wf_fields(out@),
                out@.len() == i,
            decreases n - i,
        {
            let mut reversed = fields[i].clone();
            reversed.reverse();
            out.push(reversed);
            i += 1;
        }
        out
    }

    /// Split around every occurrence of the pattern, looking from the right.
    pub fn rsplit(&self, fhe_string: &FheString, pattern: &FheString) -> (r: (
        Vec<FheString>,
        Cipher,
    ))
        requires
            fhe_string.wf(),
            pattern.wf(),
            fhe_string.reusable(),
            pattern.reusable(),
            fhe_string.bytes().len() + pattern.bytes().len() < 0x1000_0000,
        ensures
            wf_fields(r.0@),
            r.1.wf(),
    {
        let (reverse_fhe_string, reverse_pattern) = self.reverse_inputs(fhe_string, pattern);
        let (reverse_split_string, number_of_fields, _, _) = self.split_general(
            &reverse_fhe_string,
            &reverse_pattern,
            false,
            0,
            false,
            false,
            false,
            false,
        );
        (self.reverse_fields(reverse_split_string), number_of_fields)
    }

    /// Right split with every field compacted to be reusable.
    pub fn rsplit_reusable(&self, fhe_string: &FheString, pattern: &FheString) -> (r: (
        Vec<FheString>,
        Cipher,
    ))
        requires
            fhe_string.wf(),
            pattern.wf(),
            fhe_string.reusable(),
            pattern.reusable(),
            fhe_string.bytes().len() + pattern.bytes().len() < 0x1000_0000,
        ensures
            wf_fields(r.0@),
            forall|i: int| 0 <= i < r.0@.len() ==> (#[trigger] r.0@[i]).reusable(),
            r.1.wf(),
    {
        self.make_split_reusable(self.rsplit(fhe_string, pattern))
    }

    /// Split with each field keeping its trailing separator.
    pub fn split_inclusive(&self, fhe_string: &FheString, pattern: &FheString) -> (r: (
        Vec<FheString>,
        Cipher,
    ))
        requires
            fhe_string.wf(),
            pattern.wf(),
            fhe_string.reusable(),
            pattern.reusable(),
            fhe_string.bytes().len() + pattern.bytes().len() < 0x1000_0000,
        ensures
            wf_fields(r.0@),
            r.1.wf(),
    {
        let (split_res, number_of_fields, _, _) = self.split_general(
            fhe_string,
            pattern,
            false,
            0,
            true,
            false,
            false,
            false,
        );
        (split_res, number_of_fields)
    }

    /// Inclusive split with every field compacted to be reusable.
    pub fn split_inclusive_reusable(&self, fhe_string: &FheString, pattern: &FheString) -> (r: (
        Vec<FheString>,
        Cipher,
    ))
        requires
            fhe_string.wf(),
            pattern.wf(),
            fhe_string.reusable(),
            pattern.reusable(),
            fhe_string.bytes().len() + pattern.bytes().len() < 0x1000_0000,
        ensures
            wf_fields(r.0@),
            forall|i: int| 0 <= i < r.0@.len() ==> (#[trigger] r.0@[i]).reusable(),
            r.1.wf(),
    {
        self.make_split_reusable(self.split_inclusive(fhe_string, pattern))
    }

    /// Split that drops the empty trailing field left by a terminating
    /// separator.
    pub fn split_terminator(&self, fhe_string: &FheString, pattern: &FheString) -> (r: (
        Vec<FheString>,
        Cipher,
    ))
        requires
            fhe_string.wf(),
            pattern.wf(),
            fhe_string.reusable(),
            pattern.reusable(),
            fhe_string.bytes().len() + pattern.bytes().len() < 0x1000_0000,
        ensures
            wf_fields(r.0@),
            r.1.wf(),
    {
        let (split_res, number_of_fields, _, _) = self.split_general(
            fhe_string,
            pattern,
            false,
            0,
            false,
            true,
            false,
            false,
        );
        (split_res, number_of_fields)
    }

    /// Terminator split with every field compacted to be reusable.
    pub fn split_terminator_reusable(&self, fhe_string: &FheString, pattern: &FheString) -> (r: (
        Vec<FheString>,
        Cipher,
    ))
        requires
            fhe_string.wf(),
            pattern.wf(),
            fhe_string.reusable(),
            pattern.reusable(),
            fhe_string.bytes().len() + pattern.bytes().len() < 0x1000_0000,
        ensures
            wf_fields(r.0@),
            forall|i: int| 0 <= i < r.0@.len() ==> (#[trigger] r.0@[i]).reusable(),
            r.1.wf(),
    {
        self.make_split_reusable(self.split_terminator(fhe_string, pattern))
    }

    /// Terminator split looking from the right: strip one trailing
    /// occurrence, then split the reversal.
    pub fn rsplit_terminator(&self, fhe_string: &FheString, pattern: &FheString) -> (r: (
        Vec<FheString>,
        Cipher,
    ))
        requires
            fhe_string.wf(),
            pattern.wf(),
            fhe_string.reusable(),
            pattern.reusable(),
            fhe_string.bytes().len() + pattern.bytes().len() < 0x1000_0000,
        ensures
            wf_fields(r.0@),
            r.1.wf(),
    {
        let (stripped_fhe_string, _) = self.strip_suffix(fhe_string, pattern);
        let (reverse_fhe_string, reverse_pattern) = self.reverse_inputs(
            &stripped_fhe_string,
            pattern,
        );
        let (reverse_split_string, number_of_fields, _, _) = self.split_general(
            &reverse_fhe_string,
            &reverse_pattern,
            false,
            0,
            false,
            false,
            false,
            true,
        );
        (self.reverse_fields(reverse_split_string), number_of_fields)
    }

    /// Right terminator split with every field compacted to be reusable.
    pub fn rsplit_terminator_reusable(&self, fhe_string: &FheString, pattern: &FheString) -> (r: (
        Vec<FheString>,
        Cipher,
    ))
        requires
            fhe_string.wf(),
            pattern.wf(),
            fhe_string.reusable(),
            pattern.reusable(),
            fhe_string.bytes().len() + pattern.bytes().len() < 0x1000_0000,
        ensures
            wf_fields(r.0@),
            forall|i: int| 0 <= i < r.0@.len() ==> (#[trigger] r.0@[i]).reusable(),
            r.1.wf(),
    {
        self.make_split_reusable(self.rsplit_terminator(fhe_string, pattern))
    }

    /// Split on runs of ASCII whitespace (space, tab, newline), collapsing
    /// consecutive separators.
    pub fn split_ascii_whitespace(&self, fhe_string: &FheString) -> (r: (Vec<FheString>, Cipher))
        requires
            fhe_string.wf(),
            fhe_string.reusable(),
            fhe_string.bytes().len() < 0x1000_0000,
        ensures
            wf_fields(r.0@),
            r.1.wf(),
    {
        let empty_pattern = FheString {
            chars: Vec::new(),
            fhe_chars: Vec::new(),
            is_encrypted: false,
            is_padded: false,
            is_reusable: true,
        };
        proof {
            assert(empty_pattern.bytes() =~= Seq::<u8>::empty());
        }
        let (split_res, number_of_fields, _, _) = self.split_general(
            fhe_string,
            &empty_pattern,
            false,
            0,
            false,
            false,
            true,
            false,
        );
        (split_res, number_of_fields)
    }

    /// Whitespace split with every field compacted to be reusable.
    pub fn split_ascii_whitespace_reusable(&self, fhe_string: &FheString) -> (r: (
        Vec<FheString>,
        Cipher,
    ))
        requires
            fhe_string.wf(),
            fhe_string.reusable(),
            fhe_string.bytes().len() < 0x1000_0000,
        ensures
            wf_fields(r.0@),
            forall|i: int| 0 <= i < r.0@.len() ==> (#[trigger] r.0@[i]).reusable(),
            r.1.wf(),
    {
        self.make_split_reusable(self.split_ascii_whitespace(fhe_string))
    }

    /// Split into at most `n_times` fields.
    pub fn splitn(&self, n_times: usize, fhe_string: &FheString, pattern: &FheString) -> (r: (
        Vec<FheString>,
        Cipher,
    ))
        requires
            fhe_string.wf(),
            pattern.wf(),
            fhe_string.reusable(),
            pattern.reusable(),
            fhe_string.bytes().len() + pattern.bytes().len() < 0x1000_0000,
        ensures
            wf_fields(r.0@),
            r.1.wf(),
    {
        if n_times == 0 {
            return (Vec::new(), self.key.create_trivial_zero(1));
        }
        if n_times == 1 {
            let mut res: Vec<FheString> = Vec::new();
            let one = if fhe_string.is_encrypted() {
                fhe_string.clone()
            } else {
                self.trivial_encrypt_fhe_string(fhe_string, 0)
            };
            res.push(one);
            proof {
                crate::cipher::lemma_block_cap_byte();
            }
            return (res, self.key.create_trivial(1u64, 1));
        }
        let (split_res, number_of_fields, _, _) = self.split_general(
            fhe_string,
            pattern,
            true,
            n_times - 1,
            false,
            false,
            false,
            false,
        );
        (split_res, number_of_fields)
    }

    /// Bounded split, also reporting whether the pattern is empty.
    pub(crate) fn splitn_pattern_empty(
        &self,
        n_times: usize,
        fhe_string: &FheString,
        pattern: &FheString,
    ) -> (r: (Vec<FheString>, Cipher, Cipher))
        requires
            fhe_string.wf(),
            pattern.wf(),
            fhe_string.reusable(),
            pattern.reusable(),
            n_times > 0,
            fhe_string.bytes().len() + pattern.bytes().len() < 0x1000_0000,
        ensures
            wf_fields(r.0@),
            r.1.wf(),
            wf_bool(r.2),
            r.2.as_bool() == (pattern.hidden().len() == 0),
    {
        let (split_res, number_of_fields, _, is_pattern_empty) = self.split_general(
            fhe_string,
            pattern,
            true,
            n_times - 1,
            false,
            false,
            false,
            false,
        );
        (split_res, number_of_fields, is_pattern_empty)
    }

    /// Bounded split with every field compacted to be reusable.
    pub fn splitn_reusable(&self, n_times: usize, fhe_string: &FheString, pattern: &FheString) -> (r:
        (Vec<FheString>, Cipher))
        requires
            fhe_string.wf(),
            pattern.wf(),
            fhe_string.reusable(),
            pattern.reusable(),
            fhe_string.bytes().len() + pattern.bytes().len() < 0x1000_0000,
        ensures
            wf_fields(r.0@),
            forall|i: int| 0 <= i < r.0@.len() ==> (#[trigger] r.0@[i]).reusable(),
            r.1.wf(),
    {
        self.make_split_reusable(self.splitn(n_times, fhe_string, pattern))
    }

    /// Bounded split looking from the right.
    pub fn rsplitn(&self, n_times: usize, fhe_string: &FheString, pattern: &FheString) -> (r: (
        Vec<FheString>,
        Cipher,
    ))
        requires
            fhe_string.wf(),
            pattern.wf(),
            fhe_string.reusable(),
            pattern.reusable(),
            fhe_string.bytes().len() + pattern.bytes().len() < 0x1000_0000,
        ensures
            wf_fields(r.0@),
            r.1.wf(),
    {
        if n_times == 0 {
            return (Vec::new(), self.key.create_trivial_zero(1));
        }
        if n_times == 1 {
            let mut res: Vec<FheString> = Vec::new();
            let one = if fhe_string.is_encrypted() {
                fhe_string.clone()
            } else {
                self.trivial_encrypt_fhe_string(fhe_string, 0)
            };
            res.push(one);
            proof {
                crate::cipher::lemma_block_cap_byte();
            }
            return (res, self.key.create_trivial(1u64, 1));
        }
        let (reverse_fhe_string, reverse_pattern) = self.reverse_inputs(fhe_string, pattern);
        let (reverse_split_string, number_of_fields, _, _) = self.split_general(
            &reverse_fhe_string,
            &reverse_pattern,
            true,
            n_times - 1,
            false,
            false,
            false,
            false,
        );
        (self.reverse_fields(reverse_split_string), number_of_fields)
    }

    /// Right bounded split with every field compacted to be reusable.
    pub fn rsplitn_reusable(
        &self,
        n_times: usize,
        fhe_string: &FheString,
        pattern: &FheString,
    ) -> (r: (Vec<FheString>, Cipher))
        requires
            fhe_string.wf(),
            pattern.wf(),
            fhe_string.reusable(),
            pattern.reusable(),
            fhe_string.bytes().len() + pattern.bytes().len() < 0x1000_0000,
        ensures
            wf_fields(r.0@),
            forall|i: int| 0 <= i < r.0@.len() ==> (#[trigger] r.0@[i]).reusable(),
            r.1.wf(),
    {
        self.make_split_reusable(self.rsplitn(n_times, fhe_string, pattern))
    }

    /// Split around the first occurrence of the pattern; the second result
    /// says whether the pattern's content occurs in the string's content.
    pub fn split_once(&self, fhe_string: &FheString, pattern: &FheString) -> (r: (
        Vec<FheString>,
        Cipher,
    ))
        requires
            fhe_string.wf(),
            pattern.wf(),
            fhe_string.reusable(),
            pattern.reusable(),
            fhe_string.bytes().len() + pattern.bytes().len() < 0x1000_0000,
        ensures
            wf_fields(r.0@),
            wf_bool(r.1),
            r.1.as_bool() == contains_seq(fhe_string.hidden(), pattern.hidden()),
            (!pattern.padded() && 0 < pattern.bytes().len() <= fhe_string.bytes().len()
                && fhe_string.bytes().len() > 0) ==> masked_fields_of(r.0@, fhe_string.bytes()),
    {
        let (split_string, _, found, _) = self.split_general(
            fhe_string,
            pattern,
            true,
            1,
            false,
            false,
            false,
            false,
        );
        (split_string, found)
    }

    /// Split around the first occurrence with reusable fields.
    pub fn split_once_reusable(&self, fhe_string: &FheString, pattern: &FheString) -> (r: (
        Vec<FheString>,
        Cipher,
    ))
        requires
            fhe_string.wf(),
            pattern.wf(),
            fhe_string.reusable(),
            pattern.reusable(),
            fhe_string.bytes().len() + pattern.bytes().len() < 0x1000_0000,
        ensures
            wf_fields(r.0@),
            forall|i: int| 0 <= i < r.0@.len() ==> (#[trigger] r.0@[i]).reusable(),
            wf_bool(r.1),
            r.1.as_bool() == contains_seq(fhe_string.hidden(), pattern.hidden()),
    {
        self.make_split_reusable(self.split_once(fhe_string, pattern))
    }

    /// Split around the last occurrence of the pattern, the two fields in
    /// reading order.
    pub fn rsplit_once(&self, fhe_string: &FheString, pattern: &FheString) -> (r: (
        Vec<FheString>,
        Cipher,
    ))
        requires
            fhe_string.wf(),
            pattern.wf(),
            fhe_string.reusable(),
            pattern.reusable(),
            fhe_string.bytes().len() + pattern.bytes().len() < 0x1000_0000,
        ensures
            wf_fields(r.0@),
            wf_bool(r.1),
            r.1.as_bool() == contains_seq(fhe_string.hidden(), pattern.hidden()),
    {
        let (reverse_fhe_string, reverse_pattern) = self.reverse_inputs(fhe_string, pattern);
        let (reverse_split_string, _, _, _) = self.split_general(
            &reverse_fhe_string,
            &reverse_pattern,
            true,
            1,
            false,
            false,
            false,
            false,
        );
        let found = self.contains(fhe_string, pattern);
        let mut fields = self.reverse_fields(reverse_split_string);
        if fields.len() > 2 {
            fields.truncate(2);
            proof {
                assert(wf_fields(fields@)) by {
                    assert(forall|i: int|
                        0 <= i < fields@.len() ==> (#[trigger] fields@[i]).wf() && fields@[
                            i].encrypted());
                }
            }
        }
        // swap back into reading order
        let swapped = self.reverse_vec_order(fields);
        (swapped, found)
    }

    /// Reverse the order of the fields of a split result.
    fn reverse_vec_order(&self, fields: Vec<FheString>) -> (r: Vec<FheString>)
        requires
            wf_fields(fields@),
        ensures
            wf_fields(r@),
            r@.len() == fields@.len(),
    {
        let n = fields.len();
        let mut out: Vec<FheString> = Vec::new();
        let mut i: usize = 0;
        while i < n
            invariant
                0 <= i <= n,
                n == fields@.len(),
                wf_fields(fields@),
                wf_fields(out@),
                out@.len() == i,
            decreases n - i,
        {
            out.push(fields[n - 1 - i].clone());
            i += 1;
        }
        out
    }

    /// Split around the last occurrence with reusable fields.
    pub fn rsplit_once_reusable(&self, fhe_string: &FheString, pattern: &FheString) -> (r: (
        Vec<FheString>,
        Cipher,
    ))
        requires
            fhe_string.wf(),
            pattern.wf(),
            fhe_string.reusable(),
            pattern.reusable(),
            fhe_string.bytes().len() + pattern.bytes().len() < 0x1000_0000,
        ensures
            wf_fields(r.0@),
            forall|i: int| 0 <= i < r.0@.len() ==> (#[trigger] r.0@[i]).reusable(),
            wf_bool(r.1),
            r.1.as_bool() == contains_seq(fhe_string.hidden(), pattern.hidden()),
    {
        self.make_split_reusable(self.rsplit_once(fhe_string, pattern))
    }
}

/// The found bit of the split core is exact: the pattern's content occurs
/// in the string's content exactly when some candidate position matched or
/// the pattern is empty.
proof fn lemma_split_found_exact(
    b: Seq<u8>,
    pb: Seq<u8>,
    mv: Seq<Cipher>,
    seen: bool,
    empty_bit: bool,
)
    requires
        zeros_in_tail(b),
        zeros_in_tail(pb),
        b.len() >= 1,
        mv.len() == b.len() + 1,
        forall|j: int|
            0 <= j < b.len() ==> (#[trigger] mv[j]).as_bool() == pad_matches_at(b, pb, j),
        !mv[b.len() as int].as_bool(),
        seen == ((exists|j: int| 0 <= j < mv.len() && (#[trigger] mv[j]).as_bool()) || empty_bit),
        empty_bit == (content(pb).len() == 0),
    ensures
        seen == contains_seq(content(b), content(pb)),
{
    let cs = content(b);
    let cp = content(pb);
    lemma_content_len(b);
    lemma_content_len(pb);
    if cp.len() == 0 {
        assert(cs.subrange(0, 0) =~= cp);
        assert(matches_at(cs, cp, 0));
        assert(seen);
    } else {
        assert(!empty_bit);
        if seen {
            let w = choose|j: int| 0 <= j < mv.len() && (#[trigger] mv[j]).as_bool();
            assert(w < b.len());
            lemma_pad_match_iff_content(b, pb, w);
            assert(matches_at(cs, cp, w));
        }
        if contains_seq(cs, cp) {
            let w = choose|i: int| matches_at(cs, cp, i);
            lemma_pad_match_iff_content(b, pb, w);
            assert(0 <= w < b.len());
            assert(mv[w].as_bool());
            assert(seen);
        }
    }
}

} // verus!
