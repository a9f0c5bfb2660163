//! Lexicographic comparison of encrypted strings: the shorter operand is
//! read as extended with zero bytes, and the zero byte is the lowest.

use vstd::prelude::*;

use crate::cipher::Cipher;
use crate::ciphertext::FheString;
use crate::model::{all_zero, lemma_content_all_zero, lemma_content_len, lemma_lex_lt_padded,
    lex_lt};
use crate::par::{par_mixed_cmp_chars, par_pair_cmp_chars, PairCmp, ScalarCmp};
use crate::server_key::{wf_bool, wf_bool_seq, ServerKey};

verus! {

impl ServerKey {
    /// Whether the first string's hidden content is strictly lower than the
    /// second's in lexicographic order. Requires reusable inputs.
    pub fn lt(&self, fhe_string_a: &FheString, fhe_string_b: &FheString) -> (r: Cipher)
        requires
            fhe_string_a.wf(),
            fhe_string_b.wf(),
            fhe_string_a.reusable(),
            fhe_string_b.reusable(),
        ensures
            wf_bool(r),
            r.as_bool() == lex_lt(fhe_string_a.hidden(), fhe_string_b.hidden()),
    {
        let len_a = fhe_string_a.len();
        let len_b = fhe_string_b.len();
        let ghost ba = fhe_string_a.bytes();
        let ghost bb = fhe_string_b.bytes();
        let ghost ca = fhe_string_a.hidden();
        let ghost cb = fhe_string_b.hidden();
        proof {
            lemma_content_len(ba);
            lemma_content_len(bb);
        }
        if len_a == 0 {
            // an empty first operand is lower than anything but an empty
            // second operand
            let r = self.not(&self.is_empty(fhe_string_b));
            proof {
                assert(ba.len() == 0);
                lemma_content_all_zero(ba);
                assert(ca.len() == 0);
            }
            return r;
        }
        if len_b == 0 {
            proof {
                assert(bb.len() == 0);
                lemma_content_all_zero(bb);
                assert(cb.len() == 0);
            }
            return self.make_trivial_bool(false);
        }
        let m = if len_a <= len_b {
            len_a
        } else {
            len_b
        };
        // per-position strictly-lower and equal tests over the common run
        let (is_a_lt_b, is_a_eq_b): (Vec<Cipher>, Vec<Cipher>) = if !fhe_string_a.is_encrypted()
            && !fhe_string_b.is_encrypted() {
            let chars_a = fhe_string_a.chars();
            let chars_b = fhe_string_b.chars();
            let mut lts: Vec<Cipher> = Vec::new();
            let mut eqs: Vec<Cipher> = Vec::new();
            let mut i: usize = 0;
            while i < m
                invariant
                    0 <= i <= m,
                    m <= chars_a@.len(),
                    m <= chars_b@.len(),
                    chars_a@ == ba,
                    chars_b@ == bb,
                    lts@.len() == i,
                    eqs@.len() == i,
                    wf_bool_seq(lts@),
                    wf_bool_seq(eqs@),
                    forall|k: int|
                        0 <= k < i ==> (#[trigger] lts@[k]).as_bool() == (ba[k] < bb[k]),
                    forall|k: int|
                        0 <= k < i ==> (#[trigger] eqs@[k]).as_bool() == (ba[k] == bb[k]),
                decreases m - i,
            {
                lts.push(self.make_trivial_bool(chars_a[i] < chars_b[i]));
                eqs.push(self.make_trivial_bool(chars_a[i] == chars_b[i]));
                i += 1;
            }
            (lts, eqs)
        } else if fhe_string_a.is_encrypted() && !fhe_string_b.is_encrypted() {
            let lts = par_mixed_cmp_chars(
                &self.key,
                ScalarCmp::Lt,
                fhe_string_a.fhe_chars(),
                0,
                fhe_string_b.chars(),
                0,
                m,
            );
            let eqs = par_mixed_cmp_chars(
                &self.key,
                ScalarCmp::Eq,
                fhe_string_a.fhe_chars(),
                0,
                fhe_string_b.chars(),
                0,
                m,
            );
            (lts, eqs)
        } else if !fhe_string_a.is_encrypted() && fhe_string_b.is_encrypted() {
            let lts = par_mixed_cmp_chars(
                &self.key,
                ScalarCmp::Gt,
                fhe_string_b.fhe_chars(),
                0,
                fhe_string_a.chars(),
                0,
                m,
            );
            let eqs = par_mixed_cmp_chars(
                &self.key,
                ScalarCmp::Eq,
                fhe_string_b.fhe_chars(),
                0,
                fhe_string_a.chars(),
                0,
                m,
            );
            (lts, eqs)
        } else {
            let lts = par_pair_cmp_chars(
                &self.key,
                PairCmp::Lt,
                fhe_string_a.fhe_chars(),
                0,
                fhe_string_b.fhe_chars(),
                0,
                m,
            );
            let eqs = par_pair_cmp_chars(
                &self.key,
                PairCmp::Eq,
                fhe_string_a.fhe_chars(),
                0,
                fhe_string_b.fhe_chars(),
                0,
                m,
            );
            (lts, eqs)
        };
        // prefix conjunction: whether every position before this one is equal
        let mut all_k_before_eq: Vec<Cipher> = Vec::new();
        all_k_before_eq.push(self.make_trivial_bool(true));
        let mut i: usize = 0;
        while i < m
            invariant
                0 <= i <= m,
                m <= ba.len(),
                m <= bb.len(),
                is_a_eq_b@.len() == m,
                wf_bool_seq(is_a_eq_b@),
                forall|k: int|
                    0 <= k < m ==> (#[trigger] is_a_eq_b@[k]).as_bool() == (ba[k] == bb[k]),
                all_k_before_eq@.len() == i + 1,
                wf_bool_seq(all_k_before_eq@),
                forall|k: int|
                    0 <= k <= i ==> ((#[trigger] all_k_before_eq@[k]).as_bool() == forall|j: int|
                        0 <= j < k ==> ba[j] == bb[j]),
            decreases m - i,
        {
            let v = self.key.bitand(&all_k_before_eq[i], &is_a_eq_b[i]);
            proof {
                if v.as_bool() {
                    assert forall|j: int| 0 <= j < i + 1 implies ba[j] == bb[j] by {
                        if j < i {
                            assert(all_k_before_eq@[i as int].as_bool());
                        } else {
                            assert(is_a_eq_b@[i as int].as_bool());
                        }
                    }
                }
                if forall|j: int| 0 <= j < i + 1 ==> ba[j] == bb[j] {
                    assert(all_k_before_eq@[i as int].as_bool());
                    assert(is_a_eq_b@[i as int].as_bool());
                    assert(v.as_bool());
                }
            }
            all_k_before_eq.push(v);
            i += 1;
        }
        // a strictly lower byte right after an equal run
        let mut is_lt_and_all_k: Vec<Cipher> = Vec::new();
        let mut i: usize = 0;
        while i < m
            invariant
                0 <= i <= m,
                is_a_lt_b@.len() == m,
                wf_bool_seq(is_a_lt_b@),
                forall|k: int|
                    0 <= k < m ==> (#[trigger] is_a_lt_b@[k]).as_bool() == (ba[k] < bb[k]),
                all_k_before_eq@.len() == m + 1,
                wf_bool_seq(all_k_before_eq@),
                forall|k: int|
                    0 <= k <= m ==> ((#[trigger] all_k_before_eq@[k]).as_bool() == forall|j: int|
                        0 <= j < k ==> ba[j] == bb[j]),
                is_lt_and_all_k@.len() == i,
                wf_bool_seq(is_lt_and_all_k@),
                forall|k: int|
                    0 <= k < i ==> ((#[trigger] is_lt_and_all_k@[k]).as_bool() == (ba[k] < bb[k]
                        && forall|j: int| 0 <= j < k ==> ba[j] == bb[j])),
            decreases m - i,
        {
            is_lt_and_all_k.push(self.key.bitand(&all_k_before_eq[i], &is_a_lt_b[i]));
            i += 1;
        }
        let ghost lt_bits = is_lt_and_all_k@;
        let exists_i = self.any(is_lt_and_all_k);
        let ghost first_lower = exists|i: int|
            0 <= i < m && ba[i] < bb[i] && (forall|k: int| 0 <= k < i ==> ba[k] == bb[k]);
        let ghost equal_run = forall|k: int| 0 <= k < m ==> ba[k] == bb[k];
        proof {
            if exists_i.as_bool() {
                let w = choose|k: int| 0 <= k < lt_bits.len() && (#[trigger] lt_bits[k]).as_bool();
                assert(first_lower);
            }
            if first_lower {
                let w = choose|i: int|
                    0 <= i < m && ba[i] < bb[i] && (forall|k: int| 0 <= k < i ==> ba[k] == bb[k]);
                assert(lt_bits[w].as_bool());
                assert(exists_i.as_bool());
            }
            lemma_lex_lt_padded(ba, bb);
        }
        if len_a >= len_b {
            proof {
                assert(!(ba.len() < bb.len()));
                assert(exists_i.as_bool() == lex_lt(ca, cb));
            }
            return exists_i;
        }
        // the second operand is longer: an equal common run still counts as
        // lower when real content follows in the overhang
        let all_equal = &all_k_before_eq[m];
        let cut_b_empty = self.is_empty_indices(fhe_string_b, (len_a, len_b));
        let cut_b_positive = self.not(&cut_b_empty);
        let eq_and_pos = self.key.bitand(&cut_b_positive, all_equal);
        let r = self.key.bitor(&exists_i, &eq_and_pos);
        proof {
            assert(bb.subrange(len_a as int, len_b as int) =~= bb.skip(len_a as int));
            assert(cut_b_positive.as_bool() == !all_zero(bb.skip(len_a as int)));
            assert(all_k_before_eq@[m as int].as_bool() == equal_run);
            assert(r.as_bool() == (first_lower || (equal_run && ba.len() < bb.len() && !all_zero(
                bb.skip(ba.len() as int),
            ))));
        }
        r
    }

    /// Whether the first string's hidden content is lower than or equal to
    /// the second's: the complement of `lt` with the operands swapped.
    /// Requires reusable inputs.
    pub fn le(&self, fhe_string_a: &FheString, fhe_string_b: &FheString) -> (r: Cipher)
        requires
            fhe_string_a.wf(),
            fhe_string_b.wf(),
            fhe_string_a.reusable(),
            fhe_string_b.reusable(),
        ensures
            wf_bool(r),
            r.as_bool() == !lex_lt(fhe_string_b.hidden(), fhe_string_a.hidden()),
    {
        let is_b_lt_a = self.lt(fhe_string_b, fhe_string_a);
        self.not(&is_b_lt_a)
    }

    /// Whether the first string's hidden content is strictly greater than
    /// the second's: `lt` with the operands swapped. Requires reusable
    /// inputs.
    pub fn gt(&self, fhe_string_a: &FheString, fhe_string_b: &FheString) -> (r: Cipher)
        requires
            fhe_string_a.wf(),
            fhe_string_b.wf(),
            fhe_string_a.reusable(),
            fhe_string_b.reusable(),
        ensures
            wf_bool(r),
            r.as_bool() == lex_lt(fhe_string_b.hidden(), fhe_string_a.hidden()),
    {
        self.lt(fhe_string_b, fhe_string_a)
    }

    /// Whether the first string's hidden content is greater than or equal to
    /// the second's: the complement of `lt`. Requires reusable inputs.
    pub fn ge(&self, fhe_string_a: &FheString, fhe_string_b: &FheString) -> (r: Cipher)
        requires
            fhe_string_a.wf(),
            fhe_string_b.wf(),
            fhe_string_a.reusable(),
            fhe_string_b.reusable(),
        ensures
            wf_bool(r),
            r.as_bool() == !lex_lt(fhe_string_a.hidden(), fhe_string_b.hidden()),
    {
        let is_a_lt_b = self.lt(fhe_string_a, fhe_string_b);
        self.not(&is_a_lt_b)
    }
}

} // verus!
