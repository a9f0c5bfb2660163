//! Mathematical model of padded ASCII byte strings.
//!
//! A ciphertext string is, at the specification level, a sequence of bytes of
//! public length; the zero byte is reserved for padding and the content of
//! the string is the subsequence of non-zero bytes. All contracts of this
//! crate are stated over these sequences.

use vstd::prelude::*;

verus! {

/// The content carried by a padded byte string: its bytes with every zero
/// removed. For a reusable string (zeros only in the tail) this is exactly
/// the prefix of non-zero bytes.
pub open spec fn content(b: Seq<u8>) -> Seq<u8> {
    b.filter(|x: u8| x != 0)
}

/// Every zero byte sits in a contiguous tail: no non-zero byte follows a
/// zero byte.
pub open spec fn zeros_in_tail(b: Seq<u8>) -> bool {
    forall|i: int, j: int| 0 <= i < j < b.len() && b[i] == 0 ==> b[j] == 0
}

/// No byte is zero.
pub open spec fn no_zero(b: Seq<u8>) -> bool {
    forall|i: int| 0 <= i < b.len() ==> b[i] != 0
}

/// Every byte is zero.
pub open spec fn all_zero(b: Seq<u8>) -> bool {
    forall|i: int| 0 <= i < b.len() ==> b[i] == 0
}

/// Every byte is ASCII or padding: at most 127.
pub open spec fn ascii_or_zero(b: Seq<u8>) -> bool {
    forall|i: int| 0 <= i < b.len() ==> b[i] <= 127
}

/// Every byte is proper ASCII content: non-zero and at most 127.
pub open spec fn ascii_content(b: Seq<u8>) -> bool {
    forall|i: int| 0 <= i < b.len() ==> 1 <= #[trigger] b[i] <= 127
}

/// A run of `n` zero (padding) bytes.
pub open spec fn zeros(n: nat) -> Seq<u8> {
    Seq::new(n, |i| 0u8)
}

/// Extending a prefix by one byte extends its content by that byte when it
/// is not padding.
pub proof fn lemma_content_take_succ(b: Seq<u8>, i: int)
    requires
        0 <= i < b.len(),
    ensures
        content(b.take(i + 1)) == if b[i] == 0 {
            content(b.take(i))
        } else {
            content(b.take(i)).push(b[i])
        },
{
    reveal(Seq::filter);
    assert(b.take(i + 1).drop_last() =~= b.take(i));
    assert(b.take(i + 1).last() == b[i]);
    if b[i] != 0 {
        assert(content(b.take(i)) + seq![b[i]] =~= content(b.take(i)).push(b[i]));
    } else {
        assert(content(b.take(i)) + Seq::<u8>::empty() =~= content(b.take(i)));
    }
}

/// Content distributes over concatenation.
pub proof fn lemma_content_app(a: Seq<u8>, b: Seq<u8>)
    ensures
        content(a + b) == content(a) + content(b),
{
    Seq::<u8>::filter_distributes_over_add(a, b, |x: u8| x != 0);
}

/// A string without padding is its own content.
pub proof fn lemma_content_no_zero(b: Seq<u8>)
    requires
        no_zero(b),
    ensures
        content(b) == b,
    decreases b.len(),
{
    reveal(Seq::filter);
    if b.len() > 0 {
        lemma_content_no_zero(b.drop_last());
        assert(content(b.drop_last()) + seq![b.last()] =~= b);
    } else {
        assert(content(b) =~= b);
    }
}

/// A string of padding only has empty content.
pub proof fn lemma_content_all_zero(b: Seq<u8>)
    requires
        all_zero(b),
    ensures
        content(b) == Seq::<u8>::empty(),
    decreases b.len(),
{
    reveal(Seq::filter);
    if b.len() > 0 {
        lemma_content_all_zero(b.drop_last());
        assert(content(b.drop_last()) =~= content(b));
    } else {
        assert(content(b) =~= Seq::<u8>::empty());
    }
}

/// The content is never longer than the string.
pub proof fn lemma_content_len(b: Seq<u8>)
    ensures
        content(b).len() <= b.len(),
{
    b.lemma_filter_len(|x: u8| x != 0);
}

/// Content bytes are non-zero.
pub proof fn lemma_content_pred(b: Seq<u8>)
    ensures
        no_zero(content(b)),
        ascii_or_zero(b) ==> ascii_content(content(b)),
{
    assert forall|i: int| 0 <= i < content(b).len() implies content(b)[i] != 0 by {
        b.lemma_filter_pred(|x: u8| x != 0, i);
    }
    if ascii_or_zero(b) {
        assert forall|i: int| 0 <= i < content(b).len() implies 1 <= #[trigger] content(b)[i]
            <= 127 by {
            let elem = content(b)[i];
            assert(content(b).contains(elem));
            b.lemma_filter_contains_rev(|x: u8| x != 0, elem);
            let wit = choose|w: int| 0 <= w < b.len() && b[w] == elem;
            assert(b[wit] <= 127);
        }
    }
}

/// In a string whose zeros sit in the tail, the content is exactly the
/// prefix that precedes the first zero.
pub proof fn lemma_content_of_tail_padded(b: Seq<u8>, k: int)
    requires
        0 <= k <= b.len(),
        forall|i: int| 0 <= i < k ==> b[i] != 0,
        forall|i: int| k <= i < b.len() ==> b[i] == 0,
    ensures
        content(b) == b.take(k),
{
    assert(b =~= b.take(k) + b.skip(k));
    lemma_content_app(b.take(k), b.skip(k));
    lemma_content_no_zero(b.take(k));
    lemma_content_all_zero(b.skip(k));
    assert(content(b.take(k)) + content(b.skip(k)) =~= b.take(k));
}

/// A tail-padded string splits into non-zero prefix and zero tail at the
/// length of its content.
pub proof fn lemma_tail_padded_split_point(b: Seq<u8>)
    requires
        zeros_in_tail(b),
    ensures
        content(b).len() <= b.len(),
        forall|i: int| 0 <= i < content(b).len() ==> b[i] != 0,
        forall|i: int| content(b).len() <= i < b.len() ==> b[i] == 0,
        content(b) == b.take(content(b).len() as int),
    decreases b.len(),
{
    lemma_content_len(b);
    if b.len() == 0 {
        assert(content(b) =~= b.take(content(b).len() as int));
    } else if exists|z: int| 0 <= z < b.len() && b[z] == 0 {
        let z = choose|z: int| 0 <= z < b.len() && b[z] == 0;
        let k = first_zero(b);
        lemma_first_zero(b);
        assert(forall|i: int| k <= i < b.len() ==> b[i] == 0);
        lemma_content_of_tail_padded(b, k);
    } else {
        assert(no_zero(b));
        lemma_content_no_zero(b);
        assert(content(b) =~= b.take(content(b).len() as int));
    }
}

/// One byte under case folding: shifted by 32 inside the letter range,
/// unchanged outside it.
pub open spec fn fold_byte_spec(b: u8, low: u8, high: u8, to_lower: bool) -> u8 {
    if low <= b <= high {
        if to_lower {
            (b + 32) as u8
        } else {
            (b - 32) as u8
        }
    } else {
        b
    }
}

/// A byte string under case folding.
pub open spec fn fold_bytes(b: Seq<u8>, low: u8, high: u8, to_lower: bool) -> Seq<u8> {
    b.map_values(|x: u8| fold_byte_spec(x, low, high, to_lower))
}

/// Case folding maps zero to zero and non-zero to non-zero, so it commutes
/// with taking the content of a padded string.
pub proof fn lemma_content_fold_commute(b: Seq<u8>, low: u8, high: u8, to_lower: bool)
    requires
        low >= 33,
        high <= 127,
    ensures
        content(fold_bytes(b, low, high, to_lower)) == fold_bytes(content(b), low, high, to_lower),
    decreases b.len(),
{
    reveal(Seq::filter);
    if b.len() == 0 {
        assert(fold_bytes(b, low, high, to_lower) =~= Seq::<u8>::empty());
        assert(content(fold_bytes(b, low, high, to_lower)) =~= fold_bytes(
            content(b),
            low,
            high,
            to_lower,
        ));
    } else {
        lemma_content_fold_commute(b.drop_last(), low, high, to_lower);
        let f = fold_bytes(b, low, high, to_lower);
        assert(f.drop_last() =~= fold_bytes(b.drop_last(), low, high, to_lower));
        assert(f.last() == fold_byte_spec(b.last(), low, high, to_lower));
        if b.last() == 0 {
            assert(f.last() == 0);
            assert(content(b) == content(b.drop_last()));
            assert(content(f) == content(f.drop_last()));
        } else {
            assert(f.last() != 0);
            assert(content(b) == content(b.drop_last()) + seq![b.last()]);
            assert(content(f) == content(f.drop_last()) + seq![f.last()]);
            assert(content(f.drop_last()) + seq![f.last()] =~= fold_bytes(
                content(b),
                low,
                high,
                to_lower,
            )) by {
                assert(fold_bytes(content(b), low, high, to_lower).drop_last() =~= fold_bytes(
                    content(b).drop_last(),
                    low,
                    high,
                    to_lower,
                ));
                assert(content(b).drop_last() =~= content(b.drop_last()));
            }
        }
    }
}

/// Case folding keeps zeros in the tail and zero-freeness.
pub proof fn lemma_fold_preserves_padding_shape(b: Seq<u8>, low: u8, high: u8, to_lower: bool)
    requires
        low >= 33,
        high <= 127,
    ensures
        zeros_in_tail(b) ==> zeros_in_tail(fold_bytes(b, low, high, to_lower)),
        no_zero(b) ==> no_zero(fold_bytes(b, low, high, to_lower)),
{
    let f = fold_bytes(b, low, high, to_lower);
    assert(forall|i: int| 0 <= i < b.len() ==> (#[trigger] f[i] == 0) == (b[i] == 0));
}

/// A string's content is empty exactly when all its bytes are zero.
pub proof fn lemma_content_empty_iff(b: Seq<u8>)
    ensures
        (content(b).len() == 0) <==> all_zero(b),
{
    if all_zero(b) {
        lemma_content_all_zero(b);
    } else {
        let w = choose|i: int| 0 <= i < b.len() && b[i] != 0;
        b.lemma_filter_contains(|x: u8| x != 0, w);
    }
}

/// Two tail-padded strings have the same content exactly when they agree on
/// the shorter one's positions and the longer one's overhang is all zeros.
pub proof fn lemma_content_eq_iff(b1: Seq<u8>, b2: Seq<u8>)
    requires
        zeros_in_tail(b1),
        zeros_in_tail(b2),
        b2.len() <= b1.len(),
    ensures
        (content(b1) == content(b2)) <==> (b1.take(b2.len() as int) == b2 && all_zero(
            b1.skip(b2.len() as int),
        )),
{
    let l2 = b2.len() as int;
    lemma_tail_padded_split_point(b1);
    lemma_tail_padded_split_point(b2);
    let k1 = content(b1).len() as int;
    let k2 = content(b2).len() as int;
    if b1.take(l2) == b2 && all_zero(b1.skip(l2)) {
        assert(b1 =~= b1.take(l2) + b1.skip(l2));
        lemma_content_app(b1.take(l2), b1.skip(l2));
        lemma_content_all_zero(b1.skip(l2));
        assert(content(b1) =~= content(b2));
    }
    if content(b1) == content(b2) {
        assert(k1 == k2);
        assert(k1 <= l2) by {
            if k1 > l2 {
                assert(b2[l2 - 1] == content(b2)[l2 - 1]);
            }
        }
        assert forall|i: int| 0 <= i < l2 implies b1.take(l2)[i] == b2[i] by {
            if i < k1 {
                assert(b1[i] == content(b1)[i]);
                assert(b2[i] == content(b2)[i]);
            } else {
                assert(b1[i] == 0);
                assert(b2[i] == 0);
            }
        }
        assert(b1.take(l2) =~= b2);
        assert forall|i: int| 0 <= i < b1.skip(l2).len() implies b1.skip(l2)[i] == 0 by {
            assert(b1[l2 + i] == 0);
        }
    }
}

/// Whether `p` occurs in `s` starting at position `i`.
pub open spec fn matches_at(s: Seq<u8>, p: Seq<u8>, i: int) -> bool {
    &&& 0 <= i
    &&& i + p.len() <= s.len()
    &&& s.subrange(i, i + p.len()) == p
}

/// Whether `p` occurs somewhere in `s`.
pub open spec fn contains_seq(s: Seq<u8>, p: Seq<u8>) -> bool {
    exists|i: int| matches_at(s, p, i)
}

/// Whether `p` is a prefix of `s`.
pub open spec fn starts_with_seq(s: Seq<u8>, p: Seq<u8>) -> bool {
    matches_at(s, p, 0)
}

/// Whether `p` is a suffix of `s`.
pub open spec fn ends_with_seq(s: Seq<u8>, p: Seq<u8>) -> bool {
    matches_at(s, p, s.len() - p.len())
}

/// The per-position test of the oblivious search kernel: at every offset of
/// the (possibly padded) pattern, either the pattern byte is padding, or the
/// position lands in the string and the bytes agree.
pub open spec fn pad_matches_at(s: Seq<u8>, p: Seq<u8>, i: int) -> bool {
    forall|j: int|
        0 <= j < p.len() ==> ((#[trigger] p[j]) == 0 || (i + j < s.len() && s[i + j] == p[j]))
}

/// For tail-padded inputs with a non-empty pattern content, the kernel's
/// per-position test agrees with an exact occurrence of the content of the
/// pattern inside the content of the string.
pub proof fn lemma_pad_match_iff_content(s: Seq<u8>, p: Seq<u8>, i: int)
    requires
        zeros_in_tail(s),
        zeros_in_tail(p),
        content(p).len() > 0,
        0 <= i,
    ensures
        pad_matches_at(s, p, i) <==> matches_at(content(s), content(p), i),
{
    lemma_tail_padded_split_point(s);
    lemma_tail_padded_split_point(p);
    let cs = content(s);
    let cp = content(p);
    let ks = cs.len() as int;
    let kp = cp.len() as int;
    if pad_matches_at(s, p, i) {
        assert forall|j: int| 0 <= j < kp implies i + j < ks && s[i + j] == cp[j] by {
            assert(p[j] == cp[j]);
            assert(p[j] != 0);
            assert(i + j < s.len() && s[i + j] == p[j]);
            assert(s[i + j] != 0);
            if i + j >= ks {
                assert(s[i + j] == 0);
            }
        }
        assert(i + kp <= ks) by {
            assert(s[i + (kp - 1)] == cp[kp - 1]);
            assert(i + (kp - 1) < ks);
        }
        assert(cs.subrange(i, i + kp) =~= cp) by {
            assert forall|j: int| 0 <= j < kp implies cs.subrange(i, i + kp)[j] == cp[j] by {
                assert(cs[i + j] == s[i + j]);
            }
        }
    }
    if matches_at(cs, cp, i) {
        assert forall|j: int|
            0 <= j < p.len() implies ((#[trigger] p[j]) == 0 || (i + j < s.len() && s[i + j]
            == p[j])) by {
            if p[j] != 0 {
                assert(j < kp);
                assert(cp[j] == cs.subrange(i, i + kp)[j]);
                assert(cs[i + j] == cp[j]);
                assert(i + j < ks <= s.len());
                assert(s[i + j] == cs[i + j]);
                assert(p[j] == cp[j]);
            }
        }
    }
}

/// Strict lexicographic order on byte strings, the zero byte being the
/// lowest and a proper prefix ordering below its extensions.
pub open spec fn lex_lt(a: Seq<u8>, b: Seq<u8>) -> bool
    decreases a.len(),
{
    if b.len() == 0 {
        false
    } else if a.len() == 0 {
        true
    } else if a[0] < b[0] {
        true
    } else if a[0] > b[0] {
        false
    } else {
        lex_lt(a.skip(1), b.skip(1))
    }
}

/// The shorter of two lengths.
pub open spec fn min_len(a: Seq<u8>, b: Seq<u8>) -> int {
    if a.len() <= b.len() {
        a.len() as int
    } else {
        b.len() as int
    }
}

/// Pointwise characterisation of the lexicographic order: a strictly
/// smaller byte after an equal run, or an equal run over a shorter string.
pub open spec fn pt_lt(a: Seq<u8>, b: Seq<u8>) -> bool {
    ||| exists|i: int|
        0 <= i < min_len(a, b) && a[i] < b[i] && (forall|k: int| 0 <= k < i ==> a[k] == b[k])
    ||| ((forall|k: int| 0 <= k < min_len(a, b) ==> a[k] == b[k]) && a.len() < b.len())
}

pub proof fn lemma_lex_lt_pointwise(a: Seq<u8>, b: Seq<u8>)
    ensures
        lex_lt(a, b) == pt_lt(a, b),
    decreases a.len(),
{
    if b.len() == 0 {
        assert(!pt_lt(a, b));
    } else if a.len() == 0 {
        assert(pt_lt(a, b));
    } else if a[0] < b[0] {
        assert(forall|k: int| 0 <= k < 0 ==> a[k] == b[k]);
        assert(pt_lt(a, b));
    } else if a[0] > b[0] {
        assert(!pt_lt(a, b));
    } else {
        lemma_lex_lt_pointwise(a.skip(1), b.skip(1));
        let a1 = a.skip(1);
        let b1 = b.skip(1);
        if pt_lt(a1, b1) {
            if exists|i: int|
                0 <= i < min_len(a1, b1) && a1[i] < b1[i] && (forall|k: int|
                    0 <= k < i ==> a1[k] == b1[k]) {
                let i = choose|i: int|
                    0 <= i < min_len(a1, b1) && a1[i] < b1[i] && (forall|k: int|
                        0 <= k < i ==> a1[k] == b1[k]);
                assert(a[i + 1] == a1[i] && b[i + 1] == b1[i]);
                assert(forall|k: int| 1 <= k < i + 1 ==> a[k] == a1[k - 1] && b[k] == b1[k - 1]);
                assert(0 <= i + 1 < min_len(a, b) && a[i + 1] < b[i + 1] && (forall|k: int|
                    0 <= k < i + 1 ==> a[k] == b[k]));
                assert(pt_lt(a, b));
            } else {
                assert(forall|k: int| 1 <= k < min_len(a, b) ==> a[k] == a1[k - 1] && b[k] == b1[k
                    - 1]);
                assert((forall|k: int| 0 <= k < min_len(a, b) ==> a[k] == b[k]) && a.len()
                    < b.len());
                assert(pt_lt(a, b));
            }
        }
        if pt_lt(a, b) {
            if exists|i: int|
                0 <= i < min_len(a, b) && a[i] < b[i] && (forall|k: int|
                    0 <= k < i ==> a[k] == b[k]) {
                let i = choose|i: int|
                    0 <= i < min_len(a, b) && a[i] < b[i] && (forall|k: int|
                        0 <= k < i ==> a[k] == b[k]);
                assert(i >= 1);
                assert(a1[i - 1] == a[i] && b1[i - 1] == b[i]);
                assert(forall|k: int| 0 <= k < i - 1 ==> a1[k] == a[k + 1] && b1[k] == b[k + 1]);
                assert(0 <= i - 1 < min_len(a1, b1) && a1[i - 1] < b1[i - 1] && (forall|k: int|
                    0 <= k < i - 1 ==> a1[k] == b1[k]));
                assert(pt_lt(a1, b1));
            } else {
                assert(forall|k: int| 0 <= k < min_len(a1, b1) ==> a1[k] == a[k + 1] && b1[k] == b[k
                    + 1]);
                assert(pt_lt(a1, b1));
            }
        }
    }
}

/// The comparison computed over the raw padded strings agrees with the
/// lexicographic order of their contents: a strictly smaller byte after an
/// equal run within the common visible length, or an equal common run with
/// real content left in the longer operand's overhang.
pub proof fn lemma_lex_lt_padded(b1: Seq<u8>, b2: Seq<u8>)
    requires
        zeros_in_tail(b1),
        zeros_in_tail(b2),
    ensures
        lex_lt(content(b1), content(b2)) == ({
            let m = min_len(b1, b2);
            let first_lower = exists|i: int|
                0 <= i < m && b1[i] < b2[i] && (forall|k: int| 0 <= k < i ==> b1[k] == b2[k]);
            let all_equal = forall|k: int| 0 <= k < m ==> b1[k] == b2[k];
            first_lower || (all_equal && b1.len() < b2.len() && !all_zero(
                b2.skip(b1.len() as int),
            ))
        }),
{
    let c1 = content(b1);
    let c2 = content(b2);
    let k1 = c1.len() as int;
    let k2 = c2.len() as int;
    let l1 = b1.len() as int;
    let l2 = b2.len() as int;
    let m = min_len(b1, b2);
    lemma_tail_padded_split_point(b1);
    lemma_tail_padded_split_point(b2);
    lemma_lex_lt_pointwise(c1, c2);
    assert(forall|k: int| 0 <= k < k1 ==> c1[k] == b1[k]);
    assert(forall|k: int| 0 <= k < k2 ==> c2[k] == b2[k]);
    let first_lower = exists|i: int|
        0 <= i < m && b1[i] < b2[i] && (forall|k: int| 0 <= k < i ==> b1[k] == b2[k]);
    let all_equal = forall|k: int| 0 <= k < m ==> b1[k] == b2[k];
    let raw = first_lower || (all_equal && l1 < l2 && !all_zero(b2.skip(l1)));
    if raw {
        if first_lower {
            let i = choose|i: int|
                0 <= i < m && b1[i] < b2[i] && (forall|k: int| 0 <= k < i ==> b1[k] == b2[k]);
            assert forall|k: int| 0 <= k < i implies b1[k] != 0 by {
                if b1[k] == 0 {
                    assert(b2[k] == 0);
                    assert(b1[i] == 0);
                    assert(b2[i] == 0);
                }
            }
            assert(i <= k1) by {
                if i > k1 {
                    assert(b1[k1] == 0);
                    assert(b1[k1] != 0);
                }
            }
            assert forall|k: int| 0 <= k < i implies b2[k] != 0 by {
                assert(b1[k] != 0);
            }
            assert(i <= k2) by {
                if i > k2 {
                    assert(b2[k2] == 0);
                    assert(b2[k2] != 0);
                }
            }
            assert(b2[i] != 0);
            assert(i < k2);
            if b1[i] == 0 {
                assert(k1 == i) by {
                    if k1 > i {
                        assert(b1[i] != 0);
                    }
                }
                assert(forall|k: int| 0 <= k < min_len(c1, c2) ==> c1[k] == c2[k]);
                assert(pt_lt(c1, c2));
            } else {
                assert(i < k1);
                assert(c1[i] < c2[i]);
                assert(forall|k: int| 0 <= k < i ==> c1[k] == c2[k]);
                assert(pt_lt(c1, c2));
            }
        } else {
            // equal common run; content continues in the longer operand
            assert(l1 < l2 && !all_zero(b2.skip(l1)));
            assert(m == l1);
            let w = choose|j: int| 0 <= j < b2.skip(l1).len() && b2.skip(l1)[j] != 0;
            assert(b2[l1 + w] != 0);
            assert(k2 > l1) by {
                if k2 <= l1 {
                    assert(b2[l1 + w] == 0);
                }
            }
            assert forall|k: int| 0 <= k < l1 implies b2[k] != 0 by {
                if b2[k] == 0 {
                    assert(b2[l1 + w] == 0);
                }
            }
            assert forall|k: int| 0 <= k < l1 implies b1[k] != 0 by {
                assert(b1[k] == b2[k]);
            }
            assert(k1 == l1) by {
                if k1 < l1 {
                    assert(b1[k1] == 0);
                    assert(b1[k1] != 0);
                }
            }
            assert(k1 < k2);
            assert(forall|k: int| 0 <= k < min_len(c1, c2) ==> c1[k] == c2[k]);
            assert(pt_lt(c1, c2));
        }
    }
    if pt_lt(c1, c2) {
        if exists|i: int|
            0 <= i < min_len(c1, c2) && c1[i] < c2[i] && (forall|k: int|
                0 <= k < i ==> c1[k] == c2[k]) {
            let i = choose|i: int|
                0 <= i < min_len(c1, c2) && c1[i] < c2[i] && (forall|k: int|
                    0 <= k < i ==> c1[k] == c2[k]);
            assert(k1 <= l1 && k2 <= l2);
            assert(i < m);
            assert(b1[i] == c1[i] && b2[i] == c2[i]);
            assert forall|k: int| 0 <= k < i implies b1[k] == b2[k] by {
                assert(b1[k] == c1[k] && b2[k] == c2[k]);
            }
            assert(first_lower);
        } else {
            assert(k1 < k2);
            if k1 < m {
                // the shorter content ends inside the common run: its
                // padding byte sits below the other side's content byte
                assert(b1[k1] == 0);
                assert(b2[k1] == c2[k1]);
                assert(b2[k1] != 0);
                assert(b1[k1] < b2[k1]);
                assert forall|k: int| 0 <= k < k1 implies b1[k] == b2[k] by {
                    assert(b1[k] == c1[k] && b2[k] == c2[k]);
                }
                assert(first_lower);
            } else {
                // the common run is all content and equal; the second
                // operand is longer and still has content past it
                assert(k1 <= l1);
                assert(m <= k1);
                if l2 <= l1 {
                    assert(m == l2);
                    assert(k2 <= l2);
                    assert(k2 <= m <= k1);
                    assert(false);
                }
                assert(m == l1);
                assert(k1 == l1);
                assert forall|k: int| 0 <= k < m implies b1[k] == b2[k] by {
                    assert(b1[k] == c1[k] && b2[k] == c2[k]);
                }
                assert(b2[l1] == c2[l1]);
                assert(b2[l1] != 0);
                assert(b2.skip(l1)[0] != 0);
                assert(!all_zero(b2.skip(l1)));
                assert(raw);
            }
        }
    }
}

/// A byte string padded with zeros up to length `n`.
pub open spec fn pad_to(b: Seq<u8>, n: int) -> Seq<u8>
    recommends
        b.len() <= n,
{
    b + zeros((n - b.len()) as nat)
}

/// A byte string shifted left by `k` positions, zeros entering at the tail.
pub open spec fn shift_bytes(b: Seq<u8>, k: int) -> Seq<u8> {
    Seq::new(
        b.len(),
        |n: int| if n + k < b.len() {
            b[n + k]
        } else {
            0u8
        },
    )
}

/// The content of a prefix is the corresponding prefix of the content.
pub proof fn lemma_content_take_prefix(b: Seq<u8>, j: int)
    requires
        0 <= j <= b.len(),
    ensures
        content(b.take(j)) == content(b).take(content(b.take(j)).len() as int),
        content(b.take(j)).len() <= content(b).len(),
{
    assert(b =~= b.take(j) + b.skip(j));
    lemma_content_app(b.take(j), b.skip(j));
    assert(content(b).take(content(b.take(j)).len() as int) =~= content(b.take(j)));
}

/// Appending zeros leaves the content unchanged.
pub proof fn lemma_content_pad_to(b: Seq<u8>, n: int)
    requires
        b.len() <= n,
    ensures
        content(pad_to(b, n)) == content(b),
{
    lemma_content_app(b, zeros((n - b.len()) as nat));
    lemma_content_all_zero(zeros((n - b.len()) as nat));
    assert(content(b) + Seq::<u8>::empty() =~= content(b));
}

/// The ASCII whitespace bytes recognised by trimming and whitespace splits:
/// space, tab and newline.
pub open spec fn is_ws(b: u8) -> bool {
    b == 32 || b == 9 || b == 10
}

/// Length of the leading whitespace run.
pub open spec fn ws_run_front(b: Seq<u8>) -> int
    decreases b.len(),
{
    if b.len() == 0 {
        0
    } else if !is_ws(b[0]) {
        0
    } else {
        1 + ws_run_front(b.skip(1))
    }
}

/// Length of the trailing whitespace run.
pub open spec fn ws_run_back(b: Seq<u8>) -> int
    decreases b.len(),
{
    if b.len() == 0 {
        0
    } else if !is_ws(b.last()) {
        0
    } else {
        1 + ws_run_back(b.drop_last())
    }
}

pub proof fn lemma_ws_run_front(b: Seq<u8>)
    ensures
        0 <= ws_run_front(b) <= b.len(),
        forall|i: int| 0 <= i < ws_run_front(b) ==> is_ws(#[trigger] b[i]),
        ws_run_front(b) < b.len() ==> !is_ws(b[ws_run_front(b)]),
    decreases b.len(),
{
    if b.len() > 0 && is_ws(b[0]) {
        lemma_ws_run_front(b.skip(1));
        assert forall|i: int| 0 <= i < ws_run_front(b) implies is_ws(#[trigger] b[i]) by {
            if i > 0 {
                assert(b[i] == b.skip(1)[i - 1]);
                assert(is_ws(b.skip(1)[i - 1]));
            }
        }
        if ws_run_front(b) < b.len() {
            assert(b[ws_run_front(b)] == b.skip(1)[ws_run_front(b) - 1]);
        }
    }
}

/// The leading whitespace run is pinned down by its characterisation.
pub proof fn lemma_ws_run_front_unique(b: Seq<u8>, r: int)
    requires
        0 <= r <= b.len(),
        forall|i: int| 0 <= i < r ==> is_ws(#[trigger] b[i]),
        r < b.len() ==> !is_ws(b[r]),
    ensures
        r == ws_run_front(b),
{
    lemma_ws_run_front(b);
    let w = ws_run_front(b);
    if r < w {
        assert(is_ws(b[r]));
    }
    if w < r {
        assert(is_ws(b[w]));
    }
}

pub proof fn lemma_ws_run_back(b: Seq<u8>)
    ensures
        0 <= ws_run_back(b) <= b.len(),
        forall|i: int| b.len() - ws_run_back(b) <= i < b.len() ==> is_ws(#[trigger] b[i]),
        ws_run_back(b) < b.len() ==> !is_ws(b[b.len() - ws_run_back(b) - 1]),
    decreases b.len(),
{
    if b.len() > 0 && is_ws(b.last()) {
        lemma_ws_run_back(b.drop_last());
        assert forall|i: int| b.len() - ws_run_back(b) <= i < b.len() implies is_ws(
            #[trigger] b[i],
        ) by {
            if i < b.len() - 1 {
                assert(b[i] == b.drop_last()[i]);
                assert(is_ws(b.drop_last()[i]));
            }
        }
        if ws_run_back(b) < b.len() {
            assert(b[b.len() - ws_run_back(b) - 1] == b.drop_last()[b.drop_last().len()
                - ws_run_back(b.drop_last()) - 1]);
        }
    }
}

/// The trailing whitespace run is pinned down by its characterisation.
pub proof fn lemma_ws_run_back_unique(b: Seq<u8>, r: int)
    requires
        0 <= r <= b.len(),
        forall|i: int| b.len() - r <= i < b.len() ==> is_ws(#[trigger] b[i]),
        r < b.len() ==> !is_ws(b[b.len() - r - 1]),
    ensures
        r == ws_run_back(b),
{
    lemma_ws_run_back(b);
    let w = ws_run_back(b);
    if r < w {
        assert(is_ws(b[b.len() - r - 1]));
    }
    if w < r {
        assert(is_ws(b[b.len() - w - 1]));
    }
}

/// Index of the first zero byte, or the length when there is none.
pub open spec fn first_zero(b: Seq<u8>) -> int
    decreases b.len(),
{
    if b.len() == 0 {
        0
    } else if b[0] == 0 {
        0
    } else {
        1 + first_zero(b.skip(1))
    }
}

pub proof fn lemma_first_zero(b: Seq<u8>)
    ensures
        0 <= first_zero(b) <= b.len(),
        forall|i: int| 0 <= i < first_zero(b) ==> b[i] != 0,
        first_zero(b) < b.len() ==> b[first_zero(b)] == 0,
    decreases b.len(),
{
    if b.len() > 0 && b[0] != 0 {
        lemma_first_zero(b.skip(1));
        assert forall|i: int| 0 <= i < first_zero(b) implies b[i] != 0 by {
            if i > 0 {
                assert(b.skip(1)[i - 1] != 0);
            }
        }
        if first_zero(b) < b.len() {
            assert(b[first_zero(b)] == b.skip(1)[first_zero(b) - 1]);
        }
    }
}


/// Starting positions of the greedy leftmost non-overlapping occurrences of
/// `q` in `c`, scanning from position `i`: a match is taken and the scan
/// resumes right after it, so matches inside a taken occurrence are skipped.
pub open spec fn occ_from(c: Seq<u8>, q: Seq<u8>, i: int) -> Seq<int>
    decreases c.len() - i,
{
    if q.len() <= 0 || i < 0 {
        Seq::empty()
    } else if i + q.len() > c.len() {
        Seq::empty()
    } else if c.subrange(i, i + q.len()) == q {
        seq![i] + occ_from(c, q, i + q.len())
    } else {
        occ_from(c, q, i + 1)
    }
}

/// The greedy leftmost non-overlapping occurrences of `q` in `c`.
pub open spec fn occurrences(c: Seq<u8>, q: Seq<u8>) -> Seq<int> {
    occ_from(c, q, 0)
}

/// The greedy occurrence list is sorted with gaps of at least the pattern
/// length, every element is a match, every match is covered by an
/// occurrence, and there are no more occurrences than scanned positions.
#[verifier::rlimit(100)]
pub proof fn lemma_occ_from(c: Seq<u8>, q: Seq<u8>, i: int)
    requires
        q.len() > 0,
        0 <= i,
    ensures
        forall|j: int| 0 <= j < occ_from(c, q, i).len() ==> i <= #[trigger] occ_from(c, q, i)[j],
        forall|j: int|
            0 <= j < occ_from(c, q, i).len() ==> matches_at(c, q, #[trigger] occ_from(c, q, i)[j]),
        forall|j: int|
            0 <= j < occ_from(c, q, i).len() - 1 ==> #[trigger] occ_from(c, q, i)[j] + q.len()
                <= occ_from(c, q, i)[j + 1],
        forall|m: int|
            i <= m && matches_at(c, q, m) ==> exists|j: int|
                0 <= j < occ_from(c, q, i).len() && #[trigger] occ_from(c, q, i)[j] <= m
                    < occ_from(c, q, i)[j] + q.len(),
        occ_from(c, q, i).len() <= c.len() - i || occ_from(c, q, i).len() == 0,
    decreases c.len() - i,
{
    let o = occ_from(c, q, i);
    if i + q.len() > c.len() {
        assert forall|m: int| i <= m && matches_at(c, q, m) implies exists|j: int|
            0 <= j < o.len() && #[trigger] o[j] <= m < o[j] + q.len() by {
            assert(m + q.len() <= c.len());
            assert(false);
        }
    } else if c.subrange(i, i + q.len()) == q {
        lemma_occ_from(c, q, i + q.len());
        let rest = occ_from(c, q, i + q.len());
        assert(o == seq![i] + rest);
        assert(o[0] == i);
        assert(forall|j: int| 1 <= j < o.len() ==> o[j] == rest[j - 1]);
        assert(matches_at(c, q, i));
        assert forall|j: int| 0 <= j < o.len() - 1 implies #[trigger] o[j] + q.len() <= o[j
            + 1] by {
            if j == 0 {
                assert(o[1] == rest[0]);
                assert(rest[0] >= i + q.len());
            } else {
                assert(rest[j - 1] + q.len() <= rest[j]);
            }
        }
        assert forall|m: int| i <= m && matches_at(c, q, m) implies exists|j: int|
            0 <= j < o.len() && #[trigger] o[j] <= m < o[j] + q.len() by {
            if m < i + q.len() {
                assert(o[0] <= m < o[0] + q.len());
            } else {
                let j0 = choose|j: int|
                    0 <= j < rest.len() && #[trigger] rest[j] <= m < rest[j] + q.len();
                assert(o[j0 + 1] <= m < o[j0 + 1] + q.len());
            }
        }
    } else {
        lemma_occ_from(c, q, i + 1);
        assert forall|m: int| i <= m && matches_at(c, q, m) implies exists|j: int|
            0 <= j < o.len() && #[trigger] o[j] <= m < o[j] + q.len() by {
            if m == i {
                assert(c.subrange(i, i + q.len()) == q);
                assert(false);
            }
        }
    }
}

/// The field number carried by a position under a list of occurrence starts
/// with pattern length `kp`: even between occurrences, odd inside one.
pub open spec fn pos_id(occs: Seq<int>, kp: int, idx: int) -> int
    decreases occs.len(),
{
    if occs.len() == 0 {
        0
    } else if idx < occs[0] {
        0
    } else if idx < occs[0] + kp {
        1
    } else {
        2 + pos_id(occs.skip(1), kp, idx)
    }
}

/// Start of the `k`-th split field of `c` under occurrence list `occs`.
pub open spec fn field_lo(occs: Seq<int>, kp: int, k: int) -> int {
    if k == 0 {
        0
    } else {
        occs[k - 1] + kp
    }
}

/// Evaluate `pos_id` from the number of occurrences strictly before the
/// position: `2k` right of the `k`-th gap, `2k - 1` inside occurrence
/// `k - 1`.
pub proof fn lemma_pos_id_at(occs: Seq<int>, kp: int, idx: int, k: int)
    requires
        kp > 0,
        forall|j: int| 0 <= j < occs.len() ==> 0 <= #[trigger] occs[j],
        forall|j: int| 0 <= j < occs.len() - 1 ==> #[trigger] occs[j] + kp <= occs[j + 1],
        0 <= k <= occs.len(),
        forall|j: int| 0 <= j < k ==> #[trigger] occs[j] < idx,
        k < occs.len() ==> idx <= occs[k as int],
    ensures
        pos_id(occs, kp, idx) == if k == 0 {
            if k < occs.len() && idx == occs[k as int] {
                1int
            } else {
                0int
            }
        } else if k < occs.len() && idx == occs[k as int] {
            2 * k + 1
        } else if idx < occs[k - 1] + kp {
            2 * k - 1
        } else {
            2 * k
        },
    decreases occs.len(),
{
    if occs.len() == 0 {
    } else if k == 0 {
        if idx == occs[0] {
            assert(idx < occs[0] + kp);
        } else {
            assert(idx < occs[0]);
        }
    } else {
        assert(occs[0] < idx);
        if idx < occs[0] + kp {
            assert(k == 1) by {
                if k > 1 {
                    assert(occs[0] + kp <= occs[1]);
                    assert(occs[1] < idx);
                }
            }
            assert(pos_id(occs, kp, idx) == 1);
            if k < occs.len() && idx == occs[k as int] {
                assert(occs[0] + kp <= occs[1]);
                assert(false);
            }
        } else {
            let rest = occs.skip(1);
            assert(forall|j: int| 0 <= j < rest.len() ==> rest[j] == occs[j + 1]);
            assert forall|j: int| 0 <= j < rest.len() - 1 implies #[trigger] rest[j] + kp
                <= rest[j + 1] by {
                assert(occs[j + 1] + kp <= occs[j + 2]);
            }
            assert forall|j: int| 0 <= j < k - 1 implies #[trigger] rest[j] < idx by {
                assert(occs[j + 1] < idx);
            }
            lemma_pos_id_at(rest, kp, idx, k - 1);
        }
    }
}


/// Adjacent gaps of at least `kp > 0` make the list strictly sorted
/// pairwise.
pub proof fn lemma_gaps_sorted(occs: Seq<int>, kp: int, j1: int, j2: int)
    requires
        kp > 0,
        forall|j: int| 0 <= j < occs.len() - 1 ==> #[trigger] occs[j] + kp <= occs[j + 1],
        0 <= j1 <= j2 < occs.len(),
    ensures
        occs[j1] <= occs[j2],
        j1 < j2 ==> occs[j1] + kp <= occs[j2],
    decreases j2 - j1,
{
    if j1 < j2 {
        lemma_gaps_sorted(occs, kp, j1 + 1, j2);
        assert(occs[j1] + kp <= occs[j1 + 1]);
    }
}

/// Where a position's field number sits relative to the field bounds: the
/// even value `2k` is carried exactly on `[field_lo(k), occs[k])` (to the
/// end for the last field), and values at least `2k` start at
/// `field_lo(k)`.
pub proof fn lemma_pos_id_window(occs: Seq<int>, kp: int, k: int, idx: int)
    requires
        kp > 0,
        forall|j: int| 0 <= j < occs.len() ==> 0 <= #[trigger] occs[j],
        forall|j: int| 0 <= j < occs.len() - 1 ==> #[trigger] occs[j] + kp <= occs[j + 1],
        0 <= k <= occs.len(),
        0 <= idx,
    ensures
        (pos_id(occs, kp, idx) == 2 * k) <==> (field_lo(occs, kp, k) <= idx && (k == occs.len()
            || idx < occs[k as int])),
        (pos_id(occs, kp, idx) >= 2 * k) <==> (field_lo(occs, kp, k) <= idx),
    decreases occs.len(),
{
    if occs.len() == 0 {
    } else if k == 0 {
        if idx >= occs[0] + kp {
            let rest = occs.skip(1);
            assert(forall|j: int| 0 <= j < rest.len() ==> rest[j] == occs[j + 1]);
            assert forall|j: int| 0 <= j < rest.len() - 1 implies #[trigger] rest[j] + kp
                <= rest[j + 1] by {
                assert(occs[j + 1] + kp <= occs[j + 2]);
            }
            lemma_pos_id_window(rest, kp, 0, idx);
            assert(pos_id(occs, kp, idx) == 2 + pos_id(rest, kp, idx));
        }
    } else {
        assert(occs[0] + kp <= occs[1] || occs.len() == 1);
        let rest = occs.skip(1);
        assert(forall|j: int| 0 <= j < rest.len() ==> rest[j] == occs[j + 1]);
        assert forall|j: int| 0 <= j < rest.len() - 1 implies #[trigger] rest[j] + kp <= rest[j
            + 1] by {
            assert(occs[j + 1] + kp <= occs[j + 2]);
        }
        lemma_pos_id_window(rest, kp, k - 1, idx);
        if idx < occs[0] {
            assert(pos_id(occs, kp, idx) == 0);
            assert(field_lo(occs, kp, k) == occs[k - 1] + kp);
            lemma_gaps_sorted(occs, kp, 0, k - 1);
            assert(occs[0] <= occs[k - 1]);
        } else if idx < occs[0] + kp {
            assert(pos_id(occs, kp, idx) == 1);
            assert(field_lo(occs, kp, k) == occs[k - 1] + kp);
            lemma_gaps_sorted(occs, kp, 0, k - 1);
        } else {
            assert(pos_id(occs, kp, idx) == 2 + pos_id(rest, kp, idx));
            assert(field_lo(occs, kp, k) == occs[k - 1] + kp);
            if k - 1 == 0 {
                assert(field_lo(rest, kp, k - 1) == 0);
            } else {
                assert(field_lo(rest, kp, k - 1) == rest[k - 2] + kp);
                assert(rest[k - 2] == occs[k - 1]);
            }
            if k < occs.len() {
                assert(rest[k - 1] == occs[k as int]);
            }
        }
    }
}

} // verus!
