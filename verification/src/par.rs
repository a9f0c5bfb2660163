//! Index-parallel evaluation of the per-character homomorphic primitives.
//!
//! Every homomorphic operation is a pure function of its inputs, so mapping
//! one over a vector of characters produces the same vector whatever the
//! schedule; rayon only fans the independent calls out over its thread
//! pool, one task per index. The per-element work itself is done by the
//! verified dispatch functions below; the trusted surface is the claim that
//! a parallel map equals the sequential one.

use vstd::prelude::*;
use rayon::iter::IndexedParallelIterator;
use rayon::iter::IntoParallelIterator;
use rayon::iter::IntoParallelRefIterator;
use rayon::iter::ParallelIterator;

use crate::cipher::{Cipher, IntegerKey};
use crate::ciphertext::FheAsciiChar;

verus! {

/// A comparison of a ciphertext against a public scalar.
#[derive(Clone, Copy)]
pub enum ScalarCmp {
    Eq,
    Ne,
    Lt,
    Le,
    Gt,
    Ge,
}

/// Truth value of a scalar comparison.
pub open spec fn scalar_cmp_spec(op: ScalarCmp, v: u64, scalar: u64) -> bool {
    match op {
        ScalarCmp::Eq => v == scalar,
        ScalarCmp::Ne => v != scalar,
        ScalarCmp::Lt => v < scalar,
        ScalarCmp::Le => v <= scalar,
        ScalarCmp::Gt => v > scalar,
        ScalarCmp::Ge => v >= scalar,
    }
}

/// Dispatch one scalar comparison to the homomorphic layer.
pub fn scalar_cmp(key: &IntegerKey, op: ScalarCmp, a: &Cipher, scalar: u64) -> (r: Cipher)
    requires
        a.wf(),
    ensures
        r.wf(),
        r.blocks == 1,
        r.val <= 1,
        r.as_bool() == scalar_cmp_spec(op, a.val, scalar),
{
    match op {
        ScalarCmp::Eq => key.scalar_eq(a, scalar),
        ScalarCmp::Ne => key.scalar_ne(a, scalar),
        ScalarCmp::Lt => key.scalar_lt(a, scalar),
        ScalarCmp::Le => key.scalar_le(a, scalar),
        ScalarCmp::Gt => key.scalar_gt(a, scalar),
        ScalarCmp::Ge => key.scalar_ge(a, scalar),
    }
}

/// A comparison of two ciphertexts.
#[derive(Clone, Copy)]
pub enum PairCmp {
    Eq,
    Lt,
}

/// Truth value of a pairwise comparison.
pub open spec fn pair_cmp_spec(op: PairCmp, a: u64, b: u64) -> bool {
    match op {
        PairCmp::Eq => a == b,
        PairCmp::Lt => a < b,
    }
}

/// Dispatch one pairwise comparison to the homomorphic layer.
pub fn pair_cmp(key: &IntegerKey, op: PairCmp, a: &Cipher, b: &Cipher) -> (r: Cipher)
    requires
        a.wf(),
        b.wf(),
        a.blocks == b.blocks,
    ensures
        r.wf(),
        r.blocks == 1,
        r.val <= 1,
        r.as_bool() == pair_cmp_spec(op, a.val, b.val),
{
    match op {
        PairCmp::Eq => key.eq(a, b),
        PairCmp::Lt => key.lt(a, b),
    }
}

/// Relies on rayon's `into_par_iter().map(..).collect()` over an index
/// range: it returns, in index order, the elementwise results of the pure
/// comparison `scalar_cmp` on the character run `off..off + n`, as a
/// sequential map would; rayon only schedules the calls.
#[verifier::external_body]
pub fn par_scalar_cmp_chars(
    key: &IntegerKey,
    chars: &Vec<FheAsciiChar>,
    off: usize,
    n: usize,
    op: ScalarCmp,
    scalar: u64,
) -> (r: Vec<Cipher>)
    requires
        off + n <= chars@.len(),
        forall|i: int| 0 <= i < chars@.len() ==> (#[trigger] chars@[i]).fhe_ascii_char.wf(),
    ensures
        r@.len() == n,
        forall|i: int|
            0 <= i < n ==> {
                &&& (#[trigger] r@[i]).wf()
                &&& r@[i].blocks == 1
                &&& r@[i].val <= 1
                &&& r@[i].as_bool() == scalar_cmp_spec(
                    op,
                    chars@[off + i].fhe_ascii_char.val,
                    scalar,
                )
            },
{
    (0..n).into_par_iter().map(|i| scalar_cmp(key, op, chars[off + i].unwrap(), scalar)).collect()
}

/// Relies on rayon's `into_par_iter().map(..).collect()` over an index
/// range: it returns, in index order, the elementwise results of the pure
/// comparison `pair_cmp` on the two aligned character runs, as a sequential
/// map would; rayon only schedules the calls.
#[verifier::external_body]
pub fn par_pair_cmp_chars(
    key: &IntegerKey,
    op: PairCmp,
    a: &Vec<FheAsciiChar>,
    a_off: usize,
    b: &Vec<FheAsciiChar>,
    b_off: usize,
    n: usize,
) -> (r: Vec<Cipher>)
    requires
        a_off + n <= a@.len(),
        b_off + n <= b@.len(),
        forall|i: int| 0 <= i < a@.len() ==> (#[trigger] a@[i]).fhe_ascii_char.wf(),
        forall|i: int| 0 <= i < b@.len() ==> (#[trigger] b@[i]).fhe_ascii_char.wf(),
        forall|i: int|
            0 <= i < n ==> (#[trigger] a@[a_off + i]).fhe_ascii_char.blocks == b@[b_off
                + i].fhe_ascii_char.blocks,
    ensures
        r@.len() == n,
        forall|i: int|
            0 <= i < n ==> {
                &&& (#[trigger] r@[i]).wf()
                &&& r@[i].blocks == 1
                &&& r@[i].val <= 1
                &&& r@[i].as_bool() == pair_cmp_spec(
                    op,
                    a@[a_off + i].fhe_ascii_char.val,
                    b@[b_off + i].fhe_ascii_char.val,
                )
            },
{
    (0..n).into_par_iter().map(
        |i| pair_cmp(key, op, a[a_off + i].unwrap(), b[b_off + i].unwrap()),
    ).collect()
}

/// Relies on rayon's `into_par_iter().map(..).collect()` over an index
/// range: it returns, in index order, the elementwise results of the pure
/// comparison `scalar_cmp` of one character run against one clear byte run,
/// as a sequential map would; rayon only schedules the calls.
#[verifier::external_body]
pub fn par_mixed_cmp_chars(
    key: &IntegerKey,
    op: ScalarCmp,
    a: &Vec<FheAsciiChar>,
    a_off: usize,
    b: &Vec<u8>,
    b_off: usize,
    n: usize,
) -> (r: Vec<Cipher>)
    requires
        a_off + n <= a@.len(),
        b_off + n <= b@.len(),
        forall|i: int| 0 <= i < a@.len() ==> (#[trigger] a@[i]).fhe_ascii_char.wf(),
    ensures
        r@.len() == n,
        forall|i: int|
            0 <= i < n ==> {
                &&& (#[trigger] r@[i]).wf()
                &&& r@[i].blocks == 1
                &&& r@[i].val <= 1
                &&& r@[i].as_bool() == scalar_cmp_spec(
                    op,
                    a@[a_off + i].fhe_ascii_char.val,
                    b@[b_off + i] as u64,
                )
            },
{
    (0..n).into_par_iter().map(
        |i| scalar_cmp(key, op, a[a_off + i].unwrap(), b[b_off + i] as u64),
    ).collect()
}

/// One step of the padded search kernel: the pair matches when the bytes
/// agree or the pattern byte is padding.
pub fn match_pair(key: &IntegerKey, s_char: &Cipher, p_char: &Cipher) -> (r: Cipher)
    requires
        s_char.wf(),
        p_char.wf(),
        s_char.blocks == p_char.blocks,
    ensures
        r.wf(),
        r.blocks == 1,
        r.val <= 1,
        r.as_bool() == (s_char.val == p_char.val || p_char.val == 0),
{
    let is_equal = key.eq(s_char, p_char);
    let second_is_null = key.scalar_eq(p_char, 0u64);
    key.bitor(&is_equal, &second_is_null)
}

/// Relies on rayon's `into_par_iter().map(..).collect()` over an index
/// range: it returns, in index order, the elementwise results of the pure
/// test `match_pair` on the two aligned character runs, as a sequential map
/// would; rayon only schedules the calls.
#[verifier::external_body]
pub fn par_match_pairs(
    key: &IntegerKey,
    s: &Vec<FheAsciiChar>,
    s_off: usize,
    p: &Vec<FheAsciiChar>,
    p_off: usize,
    n: usize,
) -> (r: Vec<Cipher>)
    requires
        s_off + n <= s@.len(),
        p_off + n <= p@.len(),
        forall|i: int| 0 <= i < s@.len() ==> (#[trigger] s@[i]).fhe_ascii_char.wf(),
        forall|i: int| 0 <= i < p@.len() ==> (#[trigger] p@[i]).fhe_ascii_char.wf(),
        forall|i: int|
            0 <= i < n ==> (#[trigger] s@[s_off + i]).fhe_ascii_char.blocks == p@[p_off
                + i].fhe_ascii_char.blocks,
    ensures
        r@.len() == n,
        forall|i: int|
            0 <= i < n ==> {
                &&& (#[trigger] r@[i]).wf()
                &&& r@[i].blocks == 1
                &&& r@[i].val <= 1
                &&& r@[i].as_bool() == (s@[s_off + i].fhe_ascii_char.val == p@[p_off
                    + i].fhe_ascii_char.val || p@[p_off + i].fhe_ascii_char.val == 0)
            },
{
    (0..n).into_par_iter().map(
        |i| match_pair(key, s[s_off + i].unwrap(), p[p_off + i].unwrap()),
    ).collect()
}

/// One case-folding step on one character: add or subtract 32 where the
/// character sits in the given letter range.
pub fn fold_char(key: &IntegerKey, c: &FheAsciiChar, low: u64, high: u64, to_lower: bool) -> (r:
    FheAsciiChar)
    requires
        c.wf(),
        32 <= low <= high <= 127,
        high - low == 25,
        to_lower ==> high + 32 <= 127,
        !to_lower ==> low >= 33 + 32,
    ensures
        r.wf(),
        r.byte() == crate::model::fold_byte_spec(c.byte(), low as u8, high as u8, to_lower),
{
    proof {
        crate::cipher::lemma_block_cap_byte();
    }
    let is_ge = key.scalar_ge(c.unwrap(), low);
    let is_le = key.scalar_le(c.unwrap(), high);
    let in_range = key.bitand(&is_ge, &is_le);
    let in_range_wide = key.extend_blocks(&in_range, crate::NUMBER_OF_BLOCKS - 1);
    let ct_32 = key.create_trivial(32u64, crate::NUMBER_OF_BLOCKS);
    let offset = key.mul(&ct_32, &in_range_wide);
    if to_lower {
        FheAsciiChar::from_encrypted(key.add(c.unwrap(), &offset))
    } else {
        FheAsciiChar::from_encrypted(key.sub(c.unwrap(), &offset))
    }
}

/// Relies on rayon's `par_iter().map(..).collect()`: it returns, in index
/// order, the elementwise results of the pure fold `fold_char`, as a
/// sequential map would; rayon only schedules the calls.
#[verifier::external_body]
pub fn par_fold_chars(
    key: &IntegerKey,
    chars: &Vec<FheAsciiChar>,
    low: u64,
    high: u64,
    to_lower: bool,
) -> (r: Vec<FheAsciiChar>)
    requires
        forall|i: int| 0 <= i < chars@.len() ==> (#[trigger] chars@[i]).wf(),
        32 <= low <= high <= 127,
        high - low == 25,
        to_lower ==> high + 32 <= 127,
        !to_lower ==> low >= 33 + 32,
    ensures
        r@.len() == chars@.len(),
        forall|i: int|
            0 <= i < r@.len() ==> {
                &&& (#[trigger] r@[i]).wf()
                &&& r@[i].byte() == crate::model::fold_byte_spec(
                    chars@[i].byte(),
                    low as u8,
                    high as u8,
                    to_lower,
                )
            },
{
    chars.par_iter().map(|c| fold_char(key, c, low, high, to_lower)).collect()
}

} // verus!
