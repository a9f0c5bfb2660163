//! Global laws of the library, stated and proved over the same models that
//! the operations' contracts use.

use vstd::prelude::*;

use crate::ciphertext::FheString;
use crate::model::{
    ascii_content, content, lemma_content_all_zero, lemma_content_app, lemma_content_no_zero,
    lemma_lex_lt_pointwise, lemma_tail_padded_split_point, lex_lt, min_len, pt_lt, zeros,
    zeros_in_tail,
};

verus! {

/// Law: decrypting an encryption returns the original clear string, for any
/// amount of padding: the appended zero bytes are stripped.
///
/// `encrypted` is any value meeting `encrypt`'s contract for `clear` and
/// `padding`; `decrypted` is any value meeting `decrypt`'s contract for
/// `encrypted`.
pub proof fn lemma_encrypt_decrypt_identity(
    clear: FheString,
    encrypted: FheString,
    decrypted: FheString,
    padding: nat,
)
    requires
        clear.wf(),
        !clear.encrypted(),
        encrypted.bytes() == clear.bytes() + zeros(padding),
        decrypted.bytes() == content(encrypted.bytes()),
    ensures
        decrypted.bytes() == clear.bytes(),
{
    lemma_content_app(clear.bytes(), zeros(padding));
    lemma_content_all_zero(zeros(padding));
    lemma_content_no_zero(clear.bytes());
    assert(content(clear.bytes()) + Seq::<u8>::empty() =~= clear.bytes());
}

/// Law: a reusable string keeps every zero byte in a contiguous tail, so
/// stripping the trailing zeros reveals a content with no interior zero:
/// the hidden content is exactly the prefix before the first zero.
pub proof fn lemma_reusable_tail_padding(s: FheString)
    requires
        s.wf(),
        s.reusable(),
    ensures
        zeros_in_tail(s.bytes()),
        s.hidden() == s.bytes().take(s.hidden().len() as int),
        forall|i: int| 0 <= i < s.hidden().len() ==> s.bytes()[i] != 0,
        forall|i: int| s.hidden().len() <= i < s.bytes().len() ==> s.bytes()[i] == 0,
{
    lemma_tail_padded_split_point(s.bytes());
}

/// Law: the lexicographic order on byte strings is a strict total order:
/// two strings are related one way, the other way, or equal.
pub proof fn lemma_lex_lt_trichotomy(a: Seq<u8>, b: Seq<u8>)
    ensures
        lex_lt(a, b) || lex_lt(b, a) || a == b,
        lex_lt(a, b) ==> !lex_lt(b, a) && a != b,
{
    lemma_lex_lt_pointwise(a, b);
    lemma_lex_lt_pointwise(b, a);
    if !lex_lt(a, b) && !lex_lt(b, a) {
        let m = min_len(a, b);
        assert forall|k: int| 0 <= k < m implies a[k] == b[k] by {
            if exists|d: int| 0 <= d < m && a[d] != b[d] {
                let d = first_diff(a, b, m);
                lemma_first_diff(a, b, m);
                if a[d] < b[d] {
                    assert(pt_lt(a, b));
                } else {
                    assert(b[d] < a[d]);
                    assert(pt_lt(b, a));
                }
                assert(false);
            }
        }
        if a.len() < b.len() {
            assert(pt_lt(a, b));
            assert(false);
        }
        if b.len() < a.len() {
            assert(pt_lt(b, a));
            assert(false);
        }
        assert(a =~= b);
    }
    if lex_lt(a, b) {
        if a == b {
            if exists|i: int|
                0 <= i < min_len(a, b) && a[i] < b[i] && (forall|k: int|
                    0 <= k < i ==> a[k] == b[k]) {
                let i = choose|i: int|
                    0 <= i < min_len(a, b) && a[i] < b[i] && (forall|k: int|
                        0 <= k < i ==> a[k] == b[k]);
                assert(a[i] == b[i]);
            }
            assert(false);
        }
        if lex_lt(b, a) {
            let m = min_len(a, b);
            if exists|i: int|
                0 <= i < m && a[i] < b[i] && (forall|k: int| 0 <= k < i ==> a[k] == b[k]) {
                let i = choose|i: int|
                    0 <= i < m && a[i] < b[i] && (forall|k: int| 0 <= k < i ==> a[k] == b[k]);
                if exists|j: int|
                    0 <= j < m && b[j] < a[j] && (forall|k: int| 0 <= k < j ==> b[k] == a[k]) {
                    let j = choose|j: int|
                        0 <= j < m && b[j] < a[j] && (forall|k: int| 0 <= k < j ==> b[k] == a[k]);
                    if i < j {
                        assert(b[i] == a[i]);
                    } else if j < i {
                        assert(a[j] == b[j]);
                    }
                } else {
                    assert(forall|k: int| 0 <= k < m ==> b[k] == a[k]);
                    assert(a[i] == b[i]);
                }
            } else {
                assert(forall|k: int| 0 <= k < m ==> a[k] == b[k]);
                assert(a.len() < b.len());
                if exists|j: int|
                    0 <= j < m && b[j] < a[j] && (forall|k: int| 0 <= k < j ==> b[k] == a[k]) {
                    let j = choose|j: int|
                        0 <= j < m && b[j] < a[j] && (forall|k: int| 0 <= k < j ==> b[k] == a[k]);
                    assert(a[j] == b[j]);
                } else {
                    assert(b.len() < a.len());
                }
            }
            assert(false);
        }
    }
}

/// Position of the first difference within the common run.
spec fn first_diff(a: Seq<u8>, b: Seq<u8>, m: int) -> int
    decreases m,
{
    if m <= 0 {
        0
    } else if first_diff(a, b, m - 1) < m - 1 {
        first_diff(a, b, m - 1)
    } else if a[m - 1] == b[m - 1] {
        m
    } else {
        m - 1
    }
}

proof fn lemma_first_diff(a: Seq<u8>, b: Seq<u8>, m: int)
    requires
        0 <= m <= min_len(a, b),
        exists|d: int| 0 <= d < m && a[d] != b[d],
    ensures
        0 <= first_diff(a, b, m) < m,
        a[first_diff(a, b, m)] != b[first_diff(a, b, m)],
        forall|k: int| 0 <= k < first_diff(a, b, m) ==> a[k] == b[k],
    decreases m,
{
    let d = choose|d: int| 0 <= d < m && a[d] != b[d];
    if d < m - 1 {
        lemma_first_diff(a, b, m - 1);
    } else {
        if exists|d2: int| 0 <= d2 < m - 1 && a[d2] != b[d2] {
            lemma_first_diff(a, b, m - 1);
        } else {
            assert(forall|k: int| 0 <= k < m - 1 ==> a[k] == b[k]);
            assert(a[m - 1] != b[m - 1]);
            assert(first_diff(a, b, m) == m - 1) by {
                lemma_first_diff_full(a, b, m - 1);
            }
        }
    }
}

proof fn lemma_first_diff_full(a: Seq<u8>, b: Seq<u8>, m: int)
    requires
        0 <= m <= min_len(a, b),
        forall|k: int| 0 <= k < m ==> a[k] == b[k],
    ensures
        first_diff(a, b, m) == m,
    decreases m,
{
    if m > 0 {
        lemma_first_diff_full(a, b, m - 1);
    }
}

/// Law: the comparison family is interdefinable. Over any two contents `a`
/// and `b`: `ne` is the complement of `eq`; `le(a, b)` is the complement of
/// `lt(b, a)`; `ge(a, b)` is the complement of `lt(a, b)`; `gt(a, b)` is
/// `lt(b, a)`; and `le` also coincides with `lt`-or-`eq`. Each comparison's
/// contract pins its result to the form named here.
pub proof fn lemma_comparison_complements(a: Seq<u8>, b: Seq<u8>)
    ensures
        (a != b) == !(a == b),
        !lex_lt(b, a) == (lex_lt(a, b) || a == b),
        !lex_lt(a, b) == (lex_lt(b, a) || a == b),
        lex_lt(b, a) == !(lex_lt(a, b) || a == b),
{
    lemma_lex_lt_trichotomy(a, b);
    lemma_lex_lt_trichotomy(b, a);
}

/// Law: the hidden length of an encryption of a clear string equals the
/// clear string's length, for any amount of padding.
pub proof fn lemma_hidden_length_of_encryption(s: Seq<u8>, padding: nat)
    requires
        ascii_content(s),
    ensures
        content(s + zeros(padding)).len() == s.len(),
{
    lemma_content_app(s, zeros(padding));
    lemma_content_all_zero(zeros(padding));
    lemma_content_no_zero(s);
    assert(content(s) + Seq::<u8>::empty() =~= s);
}

} // verus!
