//! The oblivious search kernel: per-index match tests and their reductions
//! (contains, starts_with, ends_with).

use vstd::prelude::*;

use crate::cipher::Cipher;
use crate::ciphertext::FheString;
use crate::model::{
    all_zero, contains_seq, content, ends_with_seq, lemma_content_empty_iff, lemma_content_len,
    lemma_content_no_zero, lemma_pad_match_iff_content, matches_at, no_zero, pad_matches_at,
    starts_with_seq, zeros_in_tail,
};
use crate::par::{par_match_pairs, par_mixed_cmp_chars, par_scalar_cmp_chars, ScalarCmp};
use crate::server_key::{wf_bool, wf_bool_seq, ServerKey};

verus! {

/// Position of the first set bit in a vector of single-bit ciphertexts, or
/// the length when none is set.
pub(crate) open spec fn first_set(v: Seq<Cipher>) -> int
    decreases v.len(),
{
    if v.len() == 0 {
        0
    } else if v[0].as_bool() {
        0
    } else {
        1 + first_set(v.skip(1))
    }
}

/// Position of the last set bit, or `-1` when none is set.
pub(crate) open spec fn last_set(v: Seq<Cipher>) -> int
    decreases v.len(),
{
    if v.len() == 0 {
        -1
    } else if v.last().as_bool() {
        v.len() - 1
    } else {
        last_set(v.drop_last())
    }
}

pub(crate) proof fn lemma_first_set(v: Seq<Cipher>)
    ensures
        0 <= first_set(v) <= v.len(),
        forall|j: int| 0 <= j < first_set(v) ==> !(#[trigger] v[j]).as_bool(),
        first_set(v) < v.len() ==> v[first_set(v)].as_bool(),
        (exists|j: int| 0 <= j < v.len() && (#[trigger] v[j]).as_bool()) ==> first_set(v)
            < v.len(),
    decreases v.len(),
{
    if v.len() > 0 && !v[0].as_bool() {
        lemma_first_set(v.skip(1));
        assert forall|j: int| 0 <= j < first_set(v) implies !(#[trigger] v[j]).as_bool() by {
            if j > 0 {
                assert(v.skip(1)[j - 1] == v[j]);
                assert(!v.skip(1)[j - 1].as_bool());
            }
        }
        if first_set(v) < v.len() {
            assert(v[first_set(v)] == v.skip(1)[first_set(v) - 1]);
        }
        if exists|j: int| 0 <= j < v.len() && (#[trigger] v[j]).as_bool() {
            let w = choose|j: int| 0 <= j < v.len() && (#[trigger] v[j]).as_bool();
            assert(v.skip(1)[w - 1].as_bool());
        }
    }
}

pub(crate) proof fn lemma_last_set(v: Seq<Cipher>)
    ensures
        -1 <= last_set(v) < v.len(),
        forall|j: int| last_set(v) < j < v.len() ==> !(#[trigger] v[j]).as_bool(),
        last_set(v) >= 0 ==> v[last_set(v)].as_bool(),
        (exists|j: int| 0 <= j < v.len() && (#[trigger] v[j]).as_bool()) ==> last_set(v) >= 0,
    decreases v.len(),
{
    if v.len() > 0 && !v.last().as_bool() {
        lemma_last_set(v.drop_last());
        assert forall|j: int| last_set(v) < j < v.len() implies !(#[trigger] v[j]).as_bool() by {
            if j < v.len() - 1 {
                assert(v.drop_last()[j] == v[j]);
                assert(!v.drop_last()[j].as_bool());
            }
        }
        if last_set(v) >= 0 {
            assert(v[last_set(v)] == v.drop_last()[last_set(v)]);
        }
        if exists|j: int| 0 <= j < v.len() && (#[trigger] v[j]).as_bool() {
            let w = choose|j: int| 0 <= j < v.len() && (#[trigger] v[j]).as_bool();
            assert(w < v.len() - 1);
            assert(v.drop_last()[w].as_bool());
        }
    }
}

/// Traversal order of the match vector: forward, or reversed for `rfind`.
pub(crate) open spec fn trav(reverse: bool, len: int, idx: int) -> int {
    if reverse {
        len - 1 - idx
    } else {
        idx
    }
}

impl ServerKey {
    /// Whether the unpadded pattern matches the string at `index`: the
    /// pattern's bytes all land inside the string and agree with it.
    pub(crate) fn contains_at_index_no_padding(
        &self,
        fhe_string: &FheString,
        pattern: &FheString,
        index: usize,
    ) -> (r: Cipher)
        requires
            fhe_string.wf(),
            pattern.wf(),
            !pattern.padded(),
            index < fhe_string.bytes().len(),
        ensures
            wf_bool(r),
            r.as_bool() == pad_matches_at(fhe_string.bytes(), pattern.bytes(), index as int),
    {
        let slen = fhe_string.len();
        let plen = pattern.len();
        let ghost sb = fhe_string.bytes();
        let ghost pb = pattern.bytes();
        if plen == 0 {
            return self.make_trivial_bool(true);
        }
        if plen > slen - index {
            proof {
                let j = slen - index;
                assert(0 <= j < pb.len());
                assert(pb[j as int] != 0);
                assert(!pad_matches_at(sb, pb, index as int));
            }
            return self.make_trivial_bool(false);
        }
        let r = self.eq_same_size_indices(
            fhe_string,
            (index, index + plen),
            pattern,
            (0, plen),
        );
        proof {
            let window = sb.subrange(index as int, index + plen);
            let whole = pb.subrange(0, plen as int);
            assert(whole =~= pb);
            if r.as_bool() {
                assert forall|j: int|
                    0 <= j < pb.len() implies ((#[trigger] pb[j]) == 0 || (index + j < sb.len()
                    && sb[index + j] == pb[j])) by {
                    assert(window[j] == pb[j]);
                }
            }
            if pad_matches_at(sb, pb, index as int) {
                assert forall|j: int| 0 <= j < plen implies window[j] == whole[j] by {
                    assert(pb[j] != 0);
                    assert(sb[index + j] == pb[j]);
                }
                assert(window =~= whole);
            }
        }
        r
    }

    /// Whether the padded pattern's slice `indices_2` matches the string at
    /// `index`: at every offset the pattern byte is padding, or it lands in
    /// the string and agrees with it.
    pub(crate) fn contains_at_index(
        &self,
        fhe_string: &FheString,
        pattern: &FheString,
        indices_2: (usize, usize),
        index: usize,
    ) -> (r: Cipher)
        requires
            fhe_string.wf(),
            pattern.wf(),
            pattern.padded(),
            indices_2.0 <= indices_2.1 <= pattern.bytes().len(),
            index < fhe_string.bytes().len(),
        ensures
            wf_bool(r),
            r.as_bool() == pad_matches_at(
                fhe_string.bytes(),
                pattern.bytes().subrange(indices_2.0 as int, indices_2.1 as int),
                index as int,
            ),
    {
        let (start_2, end_2) = indices_2;
        let len_2 = end_2 - start_2;
        let slen = fhe_string.len();
        let ghost sb = fhe_string.bytes();
        let ghost sub = pattern.bytes().subrange(start_2 as int, end_2 as int);
        if len_2 == 0 {
            return self.make_trivial_bool(true);
        }
        // number of pattern offsets that land inside the string
        let m = if len_2 > slen - index {
            slen - index
        } else {
            len_2
        };
        // a padded pattern is encrypted: clear strings are never padded
        let p_chars = pattern.fhe_chars();
        let mut bits: Vec<Cipher> = if fhe_string.is_encrypted() {
            par_match_pairs(&self.key, fhe_string.fhe_chars(), index, p_chars, start_2, m)
        } else {
            let eq_vec = par_mixed_cmp_chars(
                &self.key,
                ScalarCmp::Eq,
                p_chars,
                start_2,
                fhe_string.chars(),
                index,
                m,
            );
            let zero_vec = par_scalar_cmp_chars(&self.key, p_chars, start_2, m, ScalarCmp::Eq, 0u64);
            let mut or_vec: Vec<Cipher> = Vec::new();
            let mut j: usize = 0;
            while j < m
                invariant
                    0 <= j <= m,
                    eq_vec@.len() == m,
                    zero_vec@.len() == m,
                    m <= sb.len() - index,
                    start_2 + m <= pattern.bytes().len(),
                    fhe_string.wf(),
                    pattern.wf(),
                    !fhe_string.encrypted(),
                    pattern.encrypted(),
                    wf_bool_seq(eq_vec@),
                    wf_bool_seq(zero_vec@),
                    forall|k: int|
                        0 <= k < m ==> (#[trigger] eq_vec@[k]).as_bool() == (pattern.bytes()[
                            start_2 + k] == sb[index + k]),
                    forall|k: int|
                        0 <= k < m ==> (#[trigger] zero_vec@[k]).as_bool() == (pattern.bytes()[
                            start_2 + k] == 0),
                    or_vec@.len() == j,
                    forall|k: int|
                        0 <= k < j ==> {
                            &&& wf_bool(#[trigger] or_vec@[k])
                            &&& or_vec@[k].as_bool() == (sb[index + k] == pattern.bytes()[start_2
                                + k] || pattern.bytes()[start_2 + k] == 0)
                        },
                decreases m - j,
            {
                or_vec.push(self.key.bitor(&eq_vec[j], &zero_vec[j]));
                j += 1;
            }
            or_vec
        };
        // past the end of the string the pattern may only carry padding
        let tail = par_scalar_cmp_chars(
            &self.key,
            p_chars,
            start_2 + m,
            len_2 - m,
            ScalarCmp::Eq,
            0u64,
        );
        let ghost bits_before = bits@;
        let mut t: usize = 0;
        while t < len_2 - m
            invariant
                0 <= t <= len_2 - m,
                tail@.len() == len_2 - m,
                wf_bool_seq(tail@),
                bits@ == bits_before + tail@.take(t as int),
            decreases len_2 - m - t,
        {
            bits.push(tail[t].clone());
            proof {
                assert(bits@ =~= bits_before + tail@.take(t + 1));
            }
            t += 1;
        }
        proof {
            assert(tail@.take((len_2 - m) as int) =~= tail@);
        }
        let r = self.all(bits);
        proof {
            assert(sub.len() == len_2);
            assert(bits@.len() == len_2);
            if r.as_bool() {
                assert forall|j: int|
                    0 <= j < sub.len() implies ((#[trigger] sub[j]) == 0 || (index + j < sb.len()
                    && sb[index + j] == sub[j])) by {
                    assert(bits@[j].as_bool());
                    if j < m {
                        assert(bits@[j] == bits_before[j]);
                    } else {
                        assert(bits@[j] == tail@[j - m]);
                        assert(pattern.bytes()[start_2 + j] == 0);
                    }
                }
            }
            if pad_matches_at(sb, sub, index as int) {
                assert forall|j: int|
                    0 <= j < bits@.len() implies (#[trigger] bits@[j]).as_bool() by {
                    assert(sub[j] == 0 || (index + j < sb.len() && sb[index + j] == sub[j]));
                    if j < m {
                        assert(bits@[j] == bits_before[j]);
                    } else {
                        assert(bits@[j] == tail@[j - m]);
                        assert(index + j >= sb.len());
                        assert(sub[j] == 0);
                    }
                }
            }
        }
        r
    }

    /// The match vector: for every candidate index, whether the pattern
    /// matches the string there. For an unpadded pattern only the indices
    /// where it fits are candidates.
    pub fn contains_at_index_vec(&self, fhe_string: &FheString, pattern: &FheString) -> (r: Vec<
        Cipher,
    >)
        requires
            fhe_string.wf(),
            pattern.wf(),
            fhe_string.bytes().len() > 0,
            !pattern.padded() ==> 0 < pattern.bytes().len() <= fhe_string.bytes().len(),
        ensures
            r@.len() == if pattern.padded() {
                fhe_string.bytes().len() as int
            } else {
                fhe_string.bytes().len() - pattern.bytes().len() + 1
            },
            wf_bool_seq(r@),
            forall|i: int|
                0 <= i < r@.len() ==> (#[trigger] r@[i]).as_bool() == pad_matches_at(
                    fhe_string.bytes(),
                    pattern.bytes(),
                    i,
                ),
    {
        let slen = fhe_string.len();
        let plen = pattern.len();
        let padded = pattern.is_padded();
        let count = if padded {
            slen
        } else {
            slen - plen + 1
        };
        let ghost whole = pattern.bytes().subrange(0, pattern.bytes().len() as int);
        proof {
            assert(whole =~= pattern.bytes());
        }
        let mut r: Vec<Cipher> = Vec::new();
        let mut i: usize = 0;
        while i < count
            invariant
                0 <= i <= count,
                fhe_string.wf(),
                pattern.wf(),
                slen == fhe_string.bytes().len(),
                plen == pattern.bytes().len(),
                padded == pattern.padded(),
                count as int == if padded {
                    slen as int
                } else {
                    slen - plen + 1
                },
                slen > 0,
                !padded ==> 0 < plen <= slen,
                r@.len() == i,
                wf_bool_seq(r@),
                forall|k: int|
                    0 <= k < i ==> (#[trigger] r@[k]).as_bool() == pad_matches_at(
                        fhe_string.bytes(),
                        pattern.bytes(),
                        k,
                    ),
            decreases count - i,
        {
            let bit = if padded {
                let b = self.contains_at_index(fhe_string, pattern, (0, plen), i);
                proof {
                    assert(pattern.bytes().subrange(0, plen as int) =~= pattern.bytes());
                }
                b
            } else {
                self.contains_at_index_no_padding(fhe_string, pattern, i)
            };
            r.push(bit);
            i += 1;
        }
        r
    }

    /// Whether the string's hidden content contains the pattern's hidden
    /// content. Requires reusable inputs.
    pub fn contains(&self, fhe_string: &FheString, pattern: &FheString) -> (r: Cipher)
        requires
            fhe_string.wf(),
            pattern.wf(),
            fhe_string.reusable(),
            pattern.reusable(),
        ensures
            wf_bool(r),
            r.as_bool() == contains_seq(fhe_string.hidden(), pattern.hidden()),
    {
        let slen = fhe_string.len();
        let plen = pattern.len();
        let ghost cs = fhe_string.hidden();
        let ghost cp = pattern.hidden();
        proof {
            lemma_content_len(fhe_string.bytes());
            lemma_content_len(pattern.bytes());
        }
        if plen == 0 {
            proof {
                assert(pattern.bytes().len() == 0);
                crate::model::lemma_content_all_zero(pattern.bytes());
                assert(cs.subrange(0, 0) =~= cp);
                assert(matches_at(cs, cp, 0));
            }
            return self.make_trivial_bool(true);
        }
        if !pattern.is_padded() && plen > slen {
            proof {
                lemma_content_no_zero(pattern.bytes());
                assert(cp.len() > cs.len());
                assert(forall|i: int| !matches_at(cs, cp, i));
            }
            return self.make_trivial_bool(false);
        }
        if slen == 0 {
            let r = self.is_empty(pattern);
            proof {
                assert(fhe_string.bytes().len() == 0);
                crate::model::lemma_content_all_zero(fhe_string.bytes());
                if cp.len() == 0 {
                    assert(cs.subrange(0, 0) =~= cp);
                    assert(matches_at(cs, cp, 0));
                } else {
                    assert(forall|i: int| !matches_at(cs, cp, i));
                }
            }
            return r;
        }
        let match_vec = self.contains_at_index_vec(fhe_string, pattern);
        let ghost mv = match_vec@;
        let r = self.any(match_vec);
        proof {
            lemma_content_empty_iff(pattern.bytes());
            if cp.len() == 0 {
                assert(all_zero(pattern.bytes()));
                assert(pad_matches_at(fhe_string.bytes(), pattern.bytes(), 0));
                assert(mv[0].as_bool());
                assert(cs.subrange(0, 0) =~= cp);
                assert(matches_at(cs, cp, 0));
                assert(r.as_bool());
            } else {
                if r.as_bool() {
                    let w = choose|i: int| 0 <= i < mv.len() && (#[trigger] mv[i]).as_bool();
                    assert(pad_matches_at(fhe_string.bytes(), pattern.bytes(), w));
                    lemma_pad_match_iff_content(fhe_string.bytes(), pattern.bytes(), w);
                    assert(matches_at(cs, cp, w));
                }
                if contains_seq(cs, cp) {
                    let w = choose|i: int| matches_at(cs, cp, i);
                    lemma_pad_match_iff_content(fhe_string.bytes(), pattern.bytes(), w);
                    assert(pad_matches_at(fhe_string.bytes(), pattern.bytes(), w));
                    assert(w + cp.len() <= cs.len());
                    if !pattern.padded() {
                        lemma_content_no_zero(pattern.bytes());
                    }
                    assert(0 <= w < mv.len());
                    assert(mv[w].as_bool());
                    assert(r.as_bool());
                }
            }
        }
        r
    }

    /// Whether the string's hidden content starts with the pattern's hidden
    /// content. Requires reusable inputs.
    pub fn starts_with(&self, fhe_string: &FheString, pattern: &FheString) -> (r: Cipher)
        requires
            fhe_string.wf(),
            pattern.wf(),
            fhe_string.reusable(),
            pattern.reusable(),
        ensures
            wf_bool(r),
            r.as_bool() == starts_with_seq(fhe_string.hidden(), pattern.hidden()),
    {
        let slen = fhe_string.len();
        let plen = pattern.len();
        let ghost cs = fhe_string.hidden();
        let ghost cp = pattern.hidden();
        proof {
            lemma_content_len(fhe_string.bytes());
            lemma_content_len(pattern.bytes());
        }
        if plen == 0 {
            proof {
                assert(pattern.bytes().len() == 0);
                crate::model::lemma_content_all_zero(pattern.bytes());
                assert(cs.subrange(0, 0) =~= cp);
            }
            return self.make_trivial_bool(true);
        }
        if !pattern.is_padded() && plen > slen {
            proof {
                lemma_content_no_zero(pattern.bytes());
                assert(cp.len() > cs.len());
            }
            return self.make_trivial_bool(false);
        }
        if slen == 0 {
            let r = self.is_empty(pattern);
            proof {
                assert(fhe_string.bytes().len() == 0);
                crate::model::lemma_content_all_zero(fhe_string.bytes());
                if cp.len() == 0 {
                    assert(cs.subrange(0, 0) =~= cp);
                }
            }
            return r;
        }
        let r = if !pattern.is_padded() {
            self.contains_at_index_no_padding(fhe_string, pattern, 0)
        } else {
            let b = self.contains_at_index(fhe_string, pattern, (0, plen), 0);
            proof {
                assert(pattern.bytes().subrange(0, plen as int) =~= pattern.bytes());
            }
            b
        };
        proof {
            crate::model::lemma_content_empty_iff(pattern.bytes());
            if cp.len() == 0 {
                assert(all_zero(pattern.bytes()));
                assert(pad_matches_at(fhe_string.bytes(), pattern.bytes(), 0));
                assert(cs.subrange(0, 0) =~= cp);
            } else {
                lemma_pad_match_iff_content(fhe_string.bytes(), pattern.bytes(), 0);
            }
        }
        r
    }

    /// Whether the string's hidden content ends with the pattern's hidden
    /// content. Requires reusable inputs.
    pub fn ends_with(&self, fhe_string: &FheString, pattern: &FheString) -> (r: Cipher)
        requires
            fhe_string.wf(),
            pattern.wf(),
            fhe_string.reusable(),
            pattern.reusable(),
            fhe_string.bytes().len() + pattern.bytes().len() <= u64::MAX,
        ensures
            wf_bool(r),
            r.as_bool() == ends_with_seq(fhe_string.hidden(), pattern.hidden()),
    {
        let slen = fhe_string.len();
        let plen = pattern.len();
        let ghost sb = fhe_string.bytes();
        let ghost pb = pattern.bytes();
        let ghost cs = fhe_string.hidden();
        let ghost cp = pattern.hidden();
        proof {
            lemma_content_len(sb);
            lemma_content_len(pb);
        }
        if plen == 0 {
            proof {
                assert(pb.len() == 0);
                crate::model::lemma_content_all_zero(pb);
                assert(cs.subrange(cs.len() as int, cs.len() as int) =~= cp);
            }
            return self.make_trivial_bool(true);
        }
        if !pattern.is_padded() && plen > slen {
            proof {
                lemma_content_no_zero(pb);
                assert(cp.len() > cs.len());
            }
            return self.make_trivial_bool(false);
        }
        if slen == 0 {
            let r = self.is_empty(pattern);
            proof {
                assert(sb.len() == 0);
                crate::model::lemma_content_all_zero(sb);
                if cp.len() == 0 {
                    assert(cs.subrange(cs.len() - cp.len(), cs.len() as int) =~= cp);
                }
            }
            return r;
        }
        if !fhe_string.is_padded() && !pattern.is_padded() {
            // no padding anywhere: the only possible position is the exact
            // suffix position
            let r = self.contains_at_index_no_padding(fhe_string, pattern, slen - plen);
            proof {
                lemma_content_no_zero(pb);
                lemma_pad_match_iff_content(sb, pb, slen - plen as int);
                lemma_content_no_zero(sb);
            }
            return r;
        }
        if fhe_string.is_padded() && !pattern.is_padded() {
            // the string may be padded: the pattern matches somewhere, and
            // everything after the match is padding
            let hidden_len_1 = self.len(fhe_string);
            let mut bits: Vec<Cipher> = Vec::new();
            let mut i: usize = 0;
            while i < slen
                invariant
                    0 <= i <= slen,
                    fhe_string.wf(),
                    pattern.wf(),
                    !pattern.padded(),
                    slen == sb.len(),
                    plen == pb.len(),
                    slen + plen <= u64::MAX,
                    0 < plen <= slen,
                    sb == fhe_string.bytes(),
                    pb == pattern.bytes(),
                    hidden_len_1.wf(),
                    hidden_len_1.val == cs.len(),
                    cs == fhe_string.hidden(),
                    bits@.len() == i,
                    wf_bool_seq(bits@),
                    forall|k: int|
                        0 <= k < i ==> (#[trigger] bits@[k]).as_bool() == (pad_matches_at(sb, pb, k)
                            && cs.len() <= k + plen),
                decreases slen - i,
            {
                let contains_here = self.contains_at_index_no_padding(fhe_string, pattern, i);
                let rest_null = self.key.scalar_le(&hidden_len_1, (plen as u64) + (i as u64));
                bits.push(self.key.bitand(&contains_here, &rest_null));
                i += 1;
            }
            let ghost mv = bits@;
            let r = self.any(bits);
            proof {
                lemma_content_no_zero(pb);
                if r.as_bool() {
                    let w = choose|k: int| 0 <= k < mv.len() && (#[trigger] mv[k]).as_bool();
                    lemma_pad_match_iff_content(sb, pb, w);
                    assert(matches_at(cs, cp, w));
                    assert(w + cp.len() <= cs.len() && cs.len() <= w + cp.len());
                    assert(w == cs.len() - cp.len());
                }
                if ends_with_seq(cs, cp) {
                    let w = cs.len() - cp.len();
                    lemma_pad_match_iff_content(sb, pb, w as int);
                    assert(0 <= w < slen);
                    assert(mv[w as int].as_bool());
                }
            }
            return r;
        }
        // the pattern may be padded (and is therefore encrypted): compare
        // the hidden lengths homomorphically
        let hidden_len_1 = self.len(fhe_string);
        let hidden_len_2 = self.len(pattern);
        let n_blocks = Self::compute_blocks_for_len((slen as u64) + (plen as u64));
        let mut hl1 = hidden_len_1.clone();
        if hl1.blocks < n_blocks {
            hl1 = self.key.extend_blocks(&hl1, n_blocks - hl1.blocks);
        }
        let mut hl2 = hidden_len_2.clone();
        if hl2.blocks < n_blocks {
            hl2 = self.key.extend_blocks(&hl2, n_blocks - hl2.blocks);
        }
        proof {
            crate::cipher::lemma_block_cap_monotone(n_blocks as nat, hl1.blocks as nat);
            crate::cipher::lemma_block_cap_monotone(n_blocks as nat, hl2.blocks as nat);
        }
        let mut bits: Vec<Cipher> = Vec::new();
        let mut i: usize = 0;
        while i < slen
            invariant
                0 <= i <= slen,
                fhe_string.wf(),
                pattern.wf(),
                pattern.padded(),
                slen == sb.len(),
                plen == pb.len(),
                slen + plen <= u64::MAX,
                0 < plen,
                slen > 0,
                sb == fhe_string.bytes(),
                pb == pattern.bytes(),
                hl1.wf(),
                hl1.val == cs.len(),
                hl2.wf(),
                hl2.val == cp.len(),
                hl1.blocks >= n_blocks,
                hl2.blocks >= n_blocks,
                hl1.blocks <= crate::cipher::MAX_BLOCKS,
                hl2.blocks <= crate::cipher::MAX_BLOCKS,
                cs == fhe_string.hidden(),
                cp == pattern.hidden(),
                cs.len() <= slen,
                cp.len() <= plen,
                1 <= n_blocks <= crate::cipher::MAX_BLOCKS,
                crate::cipher::block_cap(n_blocks as nat) > slen + plen,
                bits@.len() == i,
                wf_bool_seq(bits@),
                forall|k: int|
                    0 <= k < i ==> (#[trigger] bits@[k]).as_bool() == (pad_matches_at(sb, pb, k)
                        && cs.len() <= k + cp.len()),
            decreases slen - i,
        {
            let contains_here = self.contains_at_index(fhe_string, pattern, (0, plen), i);
            proof {
                assert(pb.subrange(0, plen as int) =~= pb);
            }
            proof {
                crate::cipher::lemma_block_cap_monotone(n_blocks as nat, hl2.blocks as nat);
            }
            let index_enc = self.key.create_trivial(i as u64, hl2.blocks);
            let addition = self.key.add(&hl2, &index_enc);
            let mut addition_m = addition;
            let mut hl1_m = hl1.clone();
            self.extend_equally(&mut addition_m, &mut hl1_m);
            let rest_null = self.key.ge(&addition_m, &hl1_m);
            bits.push(self.key.bitand(&contains_here, &rest_null));
            i += 1;
        }
        let ghost mv = bits@;
        let any_bit = self.any(bits);
        let empty_pattern = self.is_empty(pattern);
        let r = self.key.bitor(&any_bit, &empty_pattern);
        proof {
            if cp.len() == 0 {
                assert(cs.subrange(cs.len() as int, cs.len() as int) =~= cp);
                assert(ends_with_seq(cs, cp));
            } else {
                if any_bit.as_bool() {
                    let w = choose|k: int| 0 <= k < mv.len() && (#[trigger] mv[k]).as_bool();
                    lemma_pad_match_iff_content(sb, pb, w);
                    assert(matches_at(cs, cp, w));
                    assert(w == cs.len() - cp.len());
                }
                if ends_with_seq(cs, cp) {
                    let w = cs.len() - cp.len();
                    lemma_pad_match_iff_content(sb, pb, w as int);
                    assert(0 <= w < slen);
                    assert(mv[w as int].as_bool());
                    assert(any_bit.as_bool());
                }
            }
        }
        r
    }

    /// Shared engine of `find` and `rfind`: the position of the first (or,
    /// reversed, the last) occurrence of the pattern's content in the
    /// string's content, and whether one exists. The position is valid only
    /// when one exists.
    fn find_or_rfind(&self, fhe_string: &FheString, pattern: &FheString, reverse: bool) -> (r: (
        Cipher,
        Cipher,
    ))
        requires
            fhe_string.wf(),
            pattern.wf(),
            fhe_string.reusable(),
            pattern.reusable(),
        ensures
            r.0.wf(),
            wf_bool(r.1),
            r.1.as_bool() == contains_seq(fhe_string.hidden(), pattern.hidden()),
            (!reverse && contains_seq(fhe_string.hidden(), pattern.hidden())) ==> matches_at(
                fhe_string.hidden(),
                pattern.hidden(),
                r.0.val as int,
            ) && (forall|j: int|
                0 <= j < r.0.val ==> !matches_at(fhe_string.hidden(), pattern.hidden(), j)),
            (reverse && contains_seq(fhe_string.hidden(), pattern.hidden())) ==> matches_at(
                fhe_string.hidden(),
                pattern.hidden(),
                r.0.val as int,
            ) && (forall|j: int|
                j > r.0.val ==> !matches_at(fhe_string.hidden(), pattern.hidden(), j)),
    {
        let slen = fhe_string.len();
        let plen = pattern.len();
        let ghost sb = fhe_string.bytes();
        let ghost pb = pattern.bytes();
        let ghost cs = fhe_string.hidden();
        let ghost cp = pattern.hidden();
        proof {
            lemma_content_len(sb);
            lemma_content_len(pb);
        }
        if plen == 0 {
            // the empty pattern is found at the very first position looked
            // at: zero forwards, the hidden length backwards
            proof {
                assert(pb.len() == 0);
                crate::model::lemma_content_all_zero(pb);
                assert(forall|j: int| 0 <= j <= cs.len() ==> cs.subrange(j, j) =~= cp);
                assert(matches_at(cs, cp, 0));
            }
            if reverse {
                let index = self.len(fhe_string);
                return (index, self.make_trivial_bool(true));
            } else {
                return (self.key.create_trivial_zero(1), self.make_trivial_bool(true));
            }
        }
        if !pattern.is_padded() && plen > slen {
            proof {
                lemma_content_no_zero(pb);
                assert(cp.len() > cs.len());
                assert(forall|i: int| !matches_at(cs, cp, i));
            }
            return (self.key.create_trivial_zero(1), self.make_trivial_bool(false));
        }
        if slen == 0 {
            let found = self.is_empty(pattern);
            proof {
                assert(sb.len() == 0);
                crate::model::lemma_content_all_zero(sb);
                if cp.len() == 0 {
                    assert(cs.subrange(0, 0) =~= cp);
                    assert(matches_at(cs, cp, 0));
                } else {
                    assert(forall|i: int| !matches_at(cs, cp, i));
                }
            }
            return (self.key.create_trivial_zero(1), found);
        }
        let match_vec = self.contains_at_index_vec(fhe_string, pattern);
        let ghost mv = match_vec@;
        let len = match_vec.len();
        let n_blocks = Self::compute_blocks_for_len(len as u64);
        let ghost found_any = exists|k: int| 0 <= k < mv.len() && (#[trigger] mv[k]).as_bool();
        let ghost tgt: int = if reverse {
            last_set(mv)
        } else {
            first_set(mv)
        };
        proof {
            lemma_first_set(mv);
            lemma_last_set(mv);
        }
        // prefix scan in traversal order: whether no match was seen yet
        let mut is_all_zeros: Vec<Cipher> = Vec::new();
        is_all_zeros.push(self.make_trivial_bool(true));
        let mut index: usize = 0;
        while index < len
            invariant
                0 <= index <= len,
                len == mv.len(),
                mv == match_vec@,
                wf_bool_seq(mv),
                is_all_zeros@.len() == index + 1,
                wf_bool_seq(is_all_zeros@),
                forall|k: int|
                    0 <= k <= index ==> ((#[trigger] is_all_zeros@[k]).as_bool() == forall|idx: int|
                        0 <= idx < k ==> !(#[trigger] mv[trav(reverse, len as int, idx)]).as_bool()),
            decreases len - index,
        {
            let pos = if reverse {
                len - 1 - index
            } else {
                index
            };
            let no_match_here = self.not(&match_vec[pos]);
            let val = self.key.bitand(&is_all_zeros[index], &no_match_here);
            proof {
                assert(pos as int == trav(reverse, len as int, index as int));
                if val.as_bool() {
                    assert forall|idx: int|
                        0 <= idx < index + 1 implies !(#[trigger] mv[trav(
                        reverse,
                        len as int,
                        idx,
                    )]).as_bool() by {
                        if idx == index {
                            assert(!mv[pos as int].as_bool());
                        } else {
                            assert(is_all_zeros@[index as int].as_bool());
                        }
                    }
                }
                if forall|idx: int|
                    0 <= idx < index + 1 ==> !(#[trigger] mv[trav(
                        reverse,
                        len as int,
                        idx,
                    )]).as_bool() {
                    assert(!mv[trav(reverse, len as int, index as int)].as_bool());
                    assert forall|idx: int|
                        0 <= idx < index implies !(#[trigger] mv[trav(
                        reverse,
                        len as int,
                        idx,
                    )]).as_bool() by {}
                    assert(is_all_zeros@[index as int].as_bool());
                    assert(val.as_bool());
                }
            }
            is_all_zeros.push(val);
            index += 1;
        }
        // one-hot select of the first traversal match, scaled by its index
        let mut index_c = self.key.create_trivial_zero(n_blocks);
        let mut i: usize = 0;
        while i < len
            invariant
                0 <= i <= len,
                len == mv.len(),
                mv == match_vec@,
                wf_bool_seq(mv),
                is_all_zeros@.len() == len + 1,
                wf_bool_seq(is_all_zeros@),
                forall|k: int|
                    0 <= k <= len ==> ((#[trigger] is_all_zeros@[k]).as_bool() == forall|idx: int|
                        0 <= idx < k ==> !(#[trigger] mv[trav(reverse, len as int, idx)]).as_bool()),
                found_any == exists|k: int| 0 <= k < mv.len() && (#[trigger] mv[k]).as_bool(),
                tgt == if reverse {
                    last_set(mv)
                } else {
                    first_set(mv)
                },
                1 <= n_blocks <= crate::cipher::MAX_BLOCKS,
                crate::cipher::block_cap(n_blocks as nat) > len,
                index_c.wf(),
                index_c.blocks == n_blocks,
                index_c.val == if found_any && 0 <= tgt < i {
                    tgt
                } else {
                    0
                },
            decreases len - i,
        {
            let t = if reverse {
                len - 1 - i
            } else {
                i
            };
            let bit = self.key.bitand(&is_all_zeros[t], &match_vec[i]);
            proof {
                lemma_first_set(mv);
                lemma_last_set(mv);
                if bit.as_bool() {
                    assert(mv[i as int].as_bool());
                    if reverse {
                        assert forall|p: int| i < p < len implies !(#[trigger] mv[p]).as_bool() by {
                            let idx = len - 1 - p;
                            assert(0 <= idx < t);
                            assert(!mv[trav(reverse, len as int, idx)].as_bool());
                        }
                        assert(i as int == last_set(mv)) by {
                            if last_set(mv) > i {
                                assert(!mv[last_set(mv)].as_bool());
                            }
                            if last_set(mv) < i {
                                assert(!mv[i as int].as_bool());
                            }
                        }
                    } else {
                        assert forall|p: int| 0 <= p < i implies !(#[trigger] mv[p]).as_bool() by {
                            assert(!mv[trav(reverse, len as int, p)].as_bool());
                        }
                        assert(i as int == first_set(mv)) by {
                            if first_set(mv) < i {
                                assert(!mv[first_set(mv)].as_bool());
                            }
                        }
                    }
                    assert(i as int == tgt);
                } else {
                    if found_any && tgt == i {
                        assert(mv[tgt].as_bool());
                        if reverse {
                            assert forall|idx: int|
                                0 <= idx < t implies !(#[trigger] mv[trav(reverse, len as int, idx)]).as_bool() by {
                                assert(len - 1 - idx > tgt);
                            }
                        } else {
                            assert forall|idx: int|
                                0 <= idx < t implies !(#[trigger] mv[trav(reverse, len as int, idx)]).as_bool() by {
                                assert(idx < first_set(mv));
                            }
                        }
                        assert(is_all_zeros@[t as int].as_bool());
                        assert(false);
                    }
                }
            }
            let bit_wide = self.key.extend_blocks(&bit, n_blocks - 1);
            let index_enc = self.key.create_trivial(i as u64, n_blocks);
            proof {
                if bit_wide.val == 0 {
                    assert(index_enc.val * bit_wide.val == 0);
                } else {
                    assert(bit_wide.val == 1);
                    assert(index_enc.val * bit_wide.val == index_enc.val);
                }
            }
            let prod = self.key.mul(&index_enc, &bit_wide);
            proof {
                if bit.as_bool() {
                    assert(prod.val == i);
                    assert(i as int == tgt);
                } else {
                    assert(prod.val == 0);
                    assert(!(found_any && tgt == i));
                }
            }
            self.key.add_assign(&mut index_c, &prod);
            i += 1;
        }
        let mut index_found = self.not(&is_all_zeros[len]);
        proof {
            if index_found.as_bool() {
                let idx = choose|idx: int|
                    0 <= idx < len && (#[trigger] mv[trav(reverse, len as int, idx)]).as_bool();
                assert(found_any);
            }
            if found_any {
                let k = choose|k: int| 0 <= k < mv.len() && (#[trigger] mv[k]).as_bool();
                let idx = if reverse {
                    len - 1 - k
                } else {
                    k
                };
                assert(mv[trav(reverse, len as int, idx)].as_bool());
                assert(index_found.as_bool());
            }
        }
        let mut index_res = index_c;
        // an empty padded pattern is found everywhere; looking from the
        // right its position is the hidden length of the string
        if reverse && pattern.is_padded() {
            let is_empty_p = self.is_empty(pattern);
            let hidden_len = self.len(fhe_string);
            let mut hl = hidden_len;
            let mut ic = index_res;
            self.extend_equally(&mut hl, &mut ic);
            index_res = self.key.if_then_else(&is_empty_p, &hl, &ic);
            index_found = self.key.bitor(&is_empty_p, &index_found);
        }
        proof {
            lemma_content_empty_iff(pb);
            if cp.len() == 0 {
                // only reachable with a padded pattern: an unpadded pattern
                // with positive visible length has non-empty content
                lemma_content_len(pb);
                if !pattern.padded() {
                    lemma_content_no_zero(pb);
                    assert(cp.len() == pb.len());
                    assert(false);
                }
                assert(forall|j: int| 0 <= j <= cs.len() ==> cs.subrange(j, j) =~= cp);
                assert(matches_at(cs, cp, 0));
                assert(contains_seq(cs, cp));
                if reverse {
                    assert(matches_at(cs, cp, index_res.val as int));
                    assert(forall|j: int| j > cs.len() ==> !matches_at(cs, cp, j));
                }
            } else {
                assert forall|j: int| 0 <= j < mv.len() implies ((#[trigger] mv[j]).as_bool()
                    == matches_at(cs, cp, j)) by {
                    lemma_pad_match_iff_content(sb, pb, j);
                }
                if found_any {
                    assert(contains_seq(cs, cp));
                    assert(0 <= tgt < len);
                    assert(matches_at(cs, cp, tgt));
                    assert(index_res.val == tgt);
                    if reverse {
                        assert forall|j: int| j > tgt implies !matches_at(cs, cp, j) by {
                            if 0 <= j < len {
                                assert(!mv[j].as_bool());
                            } else if j >= len {
                                lemma_content_no_zero_bound(sb, pb, cs, cp, j, len as int,
                                    pattern.padded());
                            }
                        }
                    } else {
                        assert forall|j: int| 0 <= j < tgt implies !matches_at(cs, cp, j) by {
                            assert(!mv[j].as_bool());
                        }
                    }
                }
                if contains_seq(cs, cp) {
                    let w = choose|i: int| matches_at(cs, cp, i);
                    lemma_pad_match_iff_content(sb, pb, w);
                    assert(0 <= w < len) by {
                        lemma_content_len(sb);
                        lemma_content_len(pb);
                        if !pattern.padded() {
                            lemma_content_no_zero(pb);
                        }
                    }
                    assert(mv[w].as_bool());
                    assert(found_any);
                }
            }
        }
        (index_res, index_found)
    }

    /// The position of the first occurrence of the pattern's content in the
    /// string's content, and whether one exists; the position is valid only
    /// when one exists. Requires reusable inputs.
    pub fn find(&self, fhe_string: &FheString, pattern: &FheString) -> (r: (Cipher, Cipher))
        requires
            fhe_string.wf(),
            pattern.wf(),
            fhe_string.reusable(),
            pattern.reusable(),
        ensures
            r.0.wf(),
            wf_bool(r.1),
            r.1.as_bool() == contains_seq(fhe_string.hidden(), pattern.hidden()),
            contains_seq(fhe_string.hidden(), pattern.hidden()) ==> matches_at(
                fhe_string.hidden(),
                pattern.hidden(),
                r.0.val as int,
            ) && (forall|j: int|
                0 <= j < r.0.val ==> !matches_at(fhe_string.hidden(), pattern.hidden(), j)),
    {
        self.find_or_rfind(fhe_string, pattern, false)
    }

    /// The position of the last occurrence of the pattern's content in the
    /// string's content, and whether one exists; the position is valid only
    /// when one exists. Requires reusable inputs.
    pub fn rfind(&self, fhe_string: &FheString, pattern: &FheString) -> (r: (Cipher, Cipher))
        requires
            fhe_string.wf(),
            pattern.wf(),
            fhe_string.reusable(),
            pattern.reusable(),
        ensures
            r.0.wf(),
            wf_bool(r.1),
            r.1.as_bool() == contains_seq(fhe_string.hidden(), pattern.hidden()),
            contains_seq(fhe_string.hidden(), pattern.hidden()) ==> matches_at(
                fhe_string.hidden(),
                pattern.hidden(),
                r.0.val as int,
            ) && (forall|j: int|
                j > r.0.val ==> !matches_at(fhe_string.hidden(), pattern.hidden(), j)),
    {
        self.find_or_rfind(fhe_string, pattern, true)
    }
}

/// No occurrence of a non-empty pattern content can start at or past the
/// match-vector length.
proof fn lemma_content_no_zero_bound(
    sb: Seq<u8>,
    pb: Seq<u8>,
    cs: Seq<u8>,
    cp: Seq<u8>,
    j: int,
    len: int,
    padded: bool,
)
    requires
        zeros_in_tail(sb),
        zeros_in_tail(pb),
        cs == content(sb),
        cp == content(pb),
        cp.len() > 0,
        padded ==> len == sb.len(),
        !padded ==> len == sb.len() - pb.len() + 1 && no_zero(pb),
        j >= len,
    ensures
        !matches_at(cs, cp, j),
{
    lemma_content_len(sb);
    lemma_content_len(pb);
    if !padded {
        lemma_content_no_zero(pb);
    }
    if matches_at(cs, cp, j) {
        assert(j + cp.len() <= cs.len());
        assert(false);
    }
}

} // verus!
