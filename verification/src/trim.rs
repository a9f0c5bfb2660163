//! Trimming whitespace and stripping prefixes and suffixes from encrypted
//! strings: masked blanking, with optional left-shift compaction.

use vstd::prelude::*;

use crate::cipher::Cipher;
use crate::ciphertext::FheString;
use crate::model::{
    content, is_ws, lemma_content_len, lemma_content_of_tail_padded, lemma_tail_padded_split_point,
    lemma_ws_run_back, lemma_ws_run_back_unique, lemma_ws_run_front, lemma_ws_run_front_unique,
    ws_run_back, ws_run_front, zeros,
};
use crate::par::{par_scalar_cmp_chars, ScalarCmp};
use crate::server_key::{wf_bool, wf_bool_seq, ServerKey};

verus! {

impl ServerKey {
    /// Per-position whitespace test: space, tab or newline.
    pub(crate) fn is_whitespace(&self, fhe_string: &FheString) -> (r: Vec<Cipher>)
        requires
            fhe_string.wf(),
            fhe_string.encrypted(),
        ensures
            r@.len() == fhe_string.bytes().len(),
            wf_bool_seq(r@),
            forall|i: int|
                0 <= i < r@.len() ==> (#[trigger] r@[i]).as_bool() == is_ws(
                    fhe_string.bytes()[i],
                ),
    {
        let ghost b = fhe_string.bytes();
        let fhe_chars = fhe_string.fhe_chars();
        let len = fhe_chars.len();
        let eq_space = par_scalar_cmp_chars(&self.key, fhe_chars, 0, len, ScalarCmp::Eq, 32u64);
        let eq_tab = par_scalar_cmp_chars(&self.key, fhe_chars, 0, len, ScalarCmp::Eq, 9u64);
        let eq_newline = par_scalar_cmp_chars(&self.key, fhe_chars, 0, len, ScalarCmp::Eq, 10u64);
        let mut r: Vec<Cipher> = Vec::new();
        let mut i: usize = 0;
        while i < len
            invariant
                0 <= i <= len,
                len == b.len(),
                eq_space@.len() == len,
                eq_tab@.len() == len,
                eq_newline@.len() == len,
                wf_bool_seq(eq_space@),
                wf_bool_seq(eq_tab@),
                wf_bool_seq(eq_newline@),
                forall|k: int| 0 <= k < len ==> (#[trigger] eq_space@[k]).as_bool() == (b[k] == 32),
                forall|k: int| 0 <= k < len ==> (#[trigger] eq_tab@[k]).as_bool() == (b[k] == 9),
                forall|k: int|
                    0 <= k < len ==> (#[trigger] eq_newline@[k]).as_bool() == (b[k] == 10),
                r@.len() == i,
                wf_bool_seq(r@),
                forall|k: int| 0 <= k < i ==> (#[trigger] r@[k]).as_bool() == is_ws(b[k]),
            decreases len - i,
        {
            let nt = self.key.bitor(&eq_newline[i], &eq_tab[i]);
            r.push(self.key.bitor(&nt, &eq_space[i]));
            i += 1;
        }
        r
    }

    /// Prefix conjunction of the whitespace bits: set exactly on the leading
    /// whitespace run.
    fn keep_starting_whitespaces_only(
        &self,
        is_whitespace: &Vec<Cipher>,
        Ghost(b): Ghost<Seq<u8>>,
    ) -> (r: Vec<Cipher>)
        requires
            wf_bool_seq(is_whitespace@),
            is_whitespace@.len() == b.len(),
            forall|i: int|
                0 <= i < b.len() ==> (#[trigger] is_whitespace@[i]).as_bool() == is_ws(b[i]),
        ensures
            r@.len() == b.len(),
            wf_bool_seq(r@),
            forall|i: int|
                0 <= i < r@.len() ==> (#[trigger] r@[i]).as_bool() == (i < ws_run_front(b)),
    {
        proof {
            lemma_ws_run_front(b);
        }
        let len = is_whitespace.len();
        let mut only_ones_before = self.make_trivial_bool(true);
        let mut r: Vec<Cipher> = Vec::new();
        let mut i: usize = 0;
        while i < len
            invariant
                0 <= i <= len,
                len == b.len(),
                wf_bool_seq(is_whitespace@),
                is_whitespace@.len() == len,
                forall|k: int|
                    0 <= k < len ==> (#[trigger] is_whitespace@[k]).as_bool() == is_ws(b[k]),
                wf_bool(only_ones_before),
                only_ones_before.as_bool() == (forall|k: int| 0 <= k < i ==> is_ws(#[trigger] b[k])),
                r@.len() == i,
                wf_bool_seq(r@),
                forall|k: int|
                    0 <= k < i ==> (#[trigger] r@[k]).as_bool() == (k < ws_run_front(b)),
            decreases len - i,
        {
            self.key.bitand_assign(&mut only_ones_before, &is_whitespace[i]);
            proof {
                lemma_ws_run_front(b);
                if only_ones_before.as_bool() {
                    assert forall|k: int| 0 <= k < i + 1 implies is_ws(#[trigger] b[k]) by {
                        if k < i {
                        } else {
                            assert(is_whitespace@[i as int].as_bool());
                        }
                    }
                    assert(i < ws_run_front(b)) by {
                        if ws_run_front(b) <= i {
                            assert(!is_ws(b[ws_run_front(b)]));
                            assert(is_ws(b[ws_run_front(b)]));
                        }
                    }
                } else {
                    assert(i >= ws_run_front(b)) by {
                        if i < ws_run_front(b) {
                            assert(forall|k: int| 0 <= k <= i ==> is_ws(#[trigger] b[k]));
                        }
                    }
                }
            }
            r.push(only_ones_before.clone());
            i += 1;
        }
        r
    }

    /// Trim whitespace from the start of the string by blanking the leading
    /// whitespace run. The blanked positions become interior zeros, so the
    /// result is not reusable unless it is empty.
    pub fn trim_start(&self, fhe_string: &FheString) -> (r: FheString)
        requires
            fhe_string.wf(),
            fhe_string.reusable(),
        ensures
            r.wf(),
            r.encrypted() == fhe_string.encrypted(),
            r.padded() == fhe_string.encrypted(),
            r.hidden() == fhe_string.hidden().skip(ws_run_front(fhe_string.hidden())),
            r.reusable() == (!fhe_string.encrypted() || fhe_string.bytes().len() == 0),
            fhe_string.encrypted() ==> r.bytes().len() == fhe_string.bytes().len(),
    {
        let ghost b = fhe_string.bytes();
        let ghost cs = fhe_string.hidden();
        proof {
            lemma_tail_padded_split_point(b);
            lemma_ws_run_front(b);
            lemma_ws_run_front(cs);
        }
        if !fhe_string.is_encrypted() {
            // clear path: drop the leading run outright
            let chars = fhe_string.chars();
            let len = chars.len();
            if len == 0 {
                let r = fhe_string.clone();
                proof {
                    assert(r.bytes() =~= cs.skip(ws_run_front(cs)));
                }
                return r;
            }
            let mut w: usize = 0;
            let mut stop = false;
            while w < len && !stop
                invariant
                    0 <= w <= len,
                    len == b.len(),
                    chars@ == b,
                    forall|k: int| 0 <= k < w ==> is_ws(#[trigger] b[k]),
                    stop ==> w < len && !is_ws(b[w as int]),
                decreases len - w + (if stop {
                    0int
                } else {
                    1int
                }),
            {
                let c = chars[w];
                if !(c == 32 || c == 9 || c == 10) {
                    stop = true;
                } else {
                    w += 1;
                }
            }
            proof {
                lemma_ws_run_front_unique(b, w as int);
                crate::model::lemma_content_no_zero(b);
            }
            let r = fhe_string.sub_string(w, len - 1);
            proof {
                assert(r.bytes() =~= b.skip(w as int));
                assert(r.bytes() =~= cs.skip(ws_run_front(cs)));
                crate::model::lemma_content_no_zero(r.bytes());
            }
            return r;
        }
        let len = fhe_string.len();
        let ws_bits = self.is_whitespace(fhe_string);
        let starting = self.keep_starting_whitespaces_only(&ws_bits, Ghost(b));
        let blanked = self.set_zero_where(fhe_string, &starting);
        let ghost w = ws_run_front(b);
        proof {
            assert(blanked@.map_values(|c: Cipher| c.val as u8) =~= zeros(w as nat) + b.skip(w));
        }
        let r = FheString::from_encrypted(blanked, true, len == 0);
        proof {
            lemma_trimmed_front_content(b, w);
            assert(r.bytes() == zeros(w as nat) + b.skip(w));
            if len == 0 {
                assert(r.bytes().len() == 0);
            }
        }
        r
    }

    /// Trim whitespace from the end of the string by blanking the trailing
    /// whitespace run together with the padding. The result stays reusable.
    pub fn trim_end(&self, fhe_string: &FheString) -> (r: FheString)
        requires
            fhe_string.wf(),
            fhe_string.reusable(),
        ensures
            r.wf(),
            r.encrypted() == fhe_string.encrypted(),
            r.padded() == fhe_string.encrypted(),
            r.hidden() == fhe_string.hidden().take(
                fhe_string.hidden().len() - ws_run_back(fhe_string.hidden()),
            ),
            r.reusable(),
            fhe_string.encrypted() ==> r.bytes().len() == fhe_string.bytes().len(),
    {
        let ghost b = fhe_string.bytes();
        let ghost cs = fhe_string.hidden();
        proof {
            lemma_tail_padded_split_point(b);
            lemma_ws_run_back(cs);
        }
        if !fhe_string.is_encrypted() {
            let chars = fhe_string.chars();
            let len = chars.len();
            if len == 0 {
                let r = fhe_string.clone();
                proof {
                    assert(r.bytes() =~= cs.take(cs.len() - ws_run_back(cs)));
                }
                return r;
            }
            let mut e: usize = len;
            let mut stop = false;
            while e > 0 && !stop
                invariant
                    0 <= e <= len,
                    len == b.len(),
                    chars@ == b,
                    forall|k: int| e <= k < len ==> is_ws(#[trigger] b[k]),
                    stop ==> e > 0 && !is_ws(b[e - 1]),
                decreases e + (if stop {
                    0int
                } else {
                    1int
                }),
            {
                let c = chars[e - 1];
                if !(c == 32 || c == 9 || c == 10) {
                    stop = true;
                } else {
                    e -= 1;
                }
            }
            proof {
                crate::model::lemma_content_no_zero(b);
                lemma_ws_run_back_unique(b, len - e);
            }
            let r = if e == 0 {
                fhe_string.sub_string(len, len - 1)
            } else {
                fhe_string.sub_string(0, e - 1)
            };
            proof {
                if e == 0 {
                    assert(r.bytes() =~= cs.take(cs.len() - ws_run_back(cs)));
                } else {
                    assert(r.bytes() =~= b.take(e as int));
                    assert(r.bytes() =~= cs.take(cs.len() - ws_run_back(cs)));
                }
                crate::model::lemma_content_no_zero(r.bytes());
            }
            return r;
        }
        let len = fhe_string.len();
        let ws_bits = self.is_whitespace(fhe_string);
        let ending = self.keep_ending_blank_only(fhe_string, &ws_bits);
        let blanked = self.set_zero_where(fhe_string, &ending);
        let ghost cut = cs.len() - ws_run_back(cs);
        proof {
            assert(blanked@.map_values(|c: Cipher| c.val as u8) =~= b.take(cut) + zeros(
                (b.len() - cut) as nat,
            ));
        }
        let r = FheString::from_encrypted(blanked, true, true);
        proof {
            assert(r.bytes() == b.take(cut) + zeros((b.len() - cut) as nat));
            lemma_trimmed_back_content(b, cut);
        }
        r
    }

    /// Suffix conjunction of whitespace-or-padding: set exactly on the
    /// positions at or past the start of the trailing blank run.
    fn keep_ending_blank_only(&self, fhe_string: &FheString, is_whitespace: &Vec<Cipher>) -> (r:
        Vec<Cipher>)
        requires
            fhe_string.wf(),
            fhe_string.encrypted(),
            fhe_string.reusable(),
            wf_bool_seq(is_whitespace@),
            is_whitespace@.len() == fhe_string.bytes().len(),
            forall|i: int|
                0 <= i < fhe_string.bytes().len() ==> (#[trigger] is_whitespace@[i]).as_bool()
                    == is_ws(fhe_string.bytes()[i]),
        ensures
            r@.len() == fhe_string.bytes().len(),
            wf_bool_seq(r@),
            forall|i: int|
                0 <= i < r@.len() ==> (#[trigger] r@[i]).as_bool() == (i >= fhe_string.hidden().len()
                    - ws_run_back(fhe_string.hidden())),
    {
        let ghost b = fhe_string.bytes();
        let ghost cs = fhe_string.hidden();
        let ghost cut = cs.len() - ws_run_back(cs);
        proof {
            lemma_tail_padded_split_point(b);
            lemma_ws_run_back(cs);
        }
        let len = fhe_string.len();
        let fhe_chars = fhe_string.fhe_chars();
        let is_zero = par_scalar_cmp_chars(&self.key, fhe_chars, 0, len, ScalarCmp::Eq, 0u64);
        let mut only_ones_after = self.make_trivial_bool(true);
        let mut rev: Vec<Cipher> = Vec::new();
        let mut i: usize = 0;
        // scan from the end: a position is blanked when everything from it
        // to the end is whitespace or padding
        while i < len
            invariant
                0 <= i <= len,
                len == b.len(),
                cs == content(b),
                cs.len() <= len,
                cut == cs.len() - ws_run_back(cs),
                0 <= cut <= cs.len(),
                forall|k: int| 0 <= k < cs.len() ==> b[k] == cs[k],
                forall|k: int| cs.len() <= k < len ==> b[k] == 0,
                forall|k: int| cut <= k < cs.len() ==> is_ws(#[trigger] cs[k]),
                cut > 0 ==> !is_ws(cs[cut - 1]),
                cut > 0 ==> cs[cut - 1] != 0,
                wf_bool_seq(is_whitespace@),
                is_whitespace@.len() == len,
                forall|k: int|
                    0 <= k < len ==> (#[trigger] is_whitespace@[k]).as_bool() == is_ws(b[k]),
                is_zero@.len() == len,
                wf_bool_seq(is_zero@),
                forall|k: int| 0 <= k < len ==> (#[trigger] is_zero@[k]).as_bool() == (b[k] == 0),
                wf_bool(only_ones_after),
                only_ones_after.as_bool() == (forall|k: int|
                    len - i <= k < len ==> (is_ws(#[trigger] b[k]) || b[k] == 0)),
                rev@.len() == i,
                wf_bool_seq(rev@),
                forall|k: int|
                    0 <= k < i ==> (#[trigger] rev@[k]).as_bool() == (len - 1 - k >= cut),
            decreases len - i,
        {
            let pos = len - 1 - i;
            let here = self.key.bitor(&is_whitespace[pos], &is_zero[pos]);
            self.key.bitand_assign(&mut only_ones_after, &here);
            proof {
                if only_ones_after.as_bool() {
                    assert forall|k: int| len - (i + 1) <= k < len implies (is_ws(#[trigger] b[k])
                        || b[k] == 0) by {
                        if k == pos {
                            assert(here.as_bool());
                        }
                    }
                    assert(pos as int >= cut) by {
                        if (pos as int) < cut {
                            assert(cut - 1 >= pos);
                            assert(cut - 1 < cs.len());
                            assert(is_ws(b[cut - 1]) || b[cut - 1] == 0);
                            assert(b[cut - 1] == cs[cut - 1]);
                        }
                    }
                } else {
                    assert((pos as int) < cut) by {
                        if pos as int >= cut {
                            assert forall|k: int| len - (i + 1) <= k < len implies (is_ws(
                                #[trigger] b[k],
                            ) || b[k] == 0) by {
                                if k >= cs.len() {
                                } else {
                                    assert(k >= cut);
                                    assert(is_ws(cs[k]));
                                    assert(b[k] == cs[k]);
                                }
                            }
                        }
                    }
                }
            }
            rev.push(only_ones_after.clone());
            i += 1;
        }
        // reverse into index order
        let mut r: Vec<Cipher> = Vec::new();
        let mut j: usize = 0;
        while j < len
            invariant
                0 <= j <= len,
                len == b.len(),
                cs == content(b),
                cut == cs.len() - ws_run_back(cs),
                rev@.len() == len,
                wf_bool_seq(rev@),
                forall|k: int|
                    0 <= k < len ==> (#[trigger] rev@[k]).as_bool() == (len - 1 - k >= cut),
                r@.len() == j,
                wf_bool_seq(r@),
                forall|k: int| 0 <= k < j ==> (#[trigger] r@[k]).as_bool() == (k >= cut),
            decreases len - j,
        {
            r.push(rev[len - 1 - j].clone());
            j += 1;
        }
        r
    }

    /// Trim whitespace from both ends: blank the trailing run and the
    /// padding, then the leading run. Not reusable unless empty.
    pub fn trim(&self, fhe_string: &FheString) -> (r: FheString)
        requires
            fhe_string.wf(),
            fhe_string.reusable(),
        ensures
            r.wf(),
            r.encrypted() == fhe_string.encrypted(),
            r.padded() == fhe_string.encrypted(),
            r.hidden() == ({
                let t = fhe_string.hidden().take(
                    fhe_string.hidden().len() - ws_run_back(fhe_string.hidden()),
                );
                t.skip(ws_run_front(t))
            }),
            r.reusable() == (!fhe_string.encrypted() || fhe_string.bytes().len() == 0),
    {
        let trimmed_end = self.trim_end(fhe_string);
        self.trim_start(&trimmed_end)
    }
}

/// Blanking the leading whitespace run of a tail-padded string leaves the
/// content of the string minus the leading whitespace run of its content.
proof fn lemma_trimmed_front_content(b: Seq<u8>, w: int)
    requires
        crate::model::zeros_in_tail(b),
        w == ws_run_front(b),
    ensures
        content(zeros(w as nat) + b.skip(w)) == content(b).skip(ws_run_front(content(b))),
{
    let cs = content(b);
    lemma_tail_padded_split_point(b);
    lemma_ws_run_front(b);
    assert(w <= cs.len()) by {
        if w > cs.len() {
            assert(is_ws(b[cs.len() as int]));
            assert(b[cs.len() as int] == 0);
        }
    }
    assert(w == ws_run_front(cs)) by {
        assert(forall|i: int| 0 <= i < w ==> is_ws(#[trigger] cs[i]));
        if w < cs.len() {
            assert(!is_ws(cs[w]));
        }
        lemma_ws_run_front_unique(cs, w);
    }
    crate::model::lemma_content_app(zeros(w as nat), b.skip(w));
    crate::model::lemma_content_all_zero(zeros(w as nat));
    lemma_content_of_tail_padded(b.skip(w), cs.len() - w);
    assert(b.skip(w).take(cs.len() - w) =~= cs.skip(w));
    assert(Seq::<u8>::empty() + cs.skip(w) =~= cs.skip(w));
}

/// Blanking everything at or past the cut of a tail-padded string leaves
/// the prefix of the content before the cut.
proof fn lemma_trimmed_back_content(b: Seq<u8>, cut: int)
    requires
        crate::model::zeros_in_tail(b),
        0 <= cut <= content(b).len(),
    ensures
        content(b.take(cut) + zeros((b.len() - cut) as nat)) == content(b).take(cut),
{
    let cs = content(b);
    lemma_tail_padded_split_point(b);
    crate::model::lemma_content_app(b.take(cut), zeros((b.len() - cut) as nat));
    crate::model::lemma_content_all_zero(zeros((b.len() - cut) as nat));
    assert(b.take(cut) =~= cs.take(cut));
    crate::model::lemma_content_no_zero(b.take(cut));
    assert(content(b.take(cut)) + Seq::<u8>::empty() =~= cs.take(cut));
}

/// Blanking a prefix that sits inside the content leaves the content minus
/// that prefix.
proof fn lemma_blank_prefix_content(b: Seq<u8>, k: int)
    requires
        crate::model::zeros_in_tail(b),
        0 <= k <= content(b).len(),
    ensures
        content(zeros(k as nat) + b.skip(k)) == content(b).skip(k),
{
    let cs = content(b);
    lemma_tail_padded_split_point(b);
    crate::model::lemma_content_app(zeros(k as nat), b.skip(k));
    crate::model::lemma_content_all_zero(zeros(k as nat));
    lemma_content_of_tail_padded(b.skip(k), cs.len() - k);
    assert(b.skip(k).take(cs.len() - k) =~= cs.skip(k));
    assert(Seq::<u8>::empty() + cs.skip(k) =~= cs.skip(k));
}

/// A content prefix followed by zeros keeps the zeros in the tail.
proof fn lemma_blanked_tail_reusable(b: Seq<u8>, cut: int, rb: Seq<u8>)
    requires
        crate::model::zeros_in_tail(b),
        0 <= cut <= content(b).len(),
        rb == b.take(cut) + zeros((b.len() - cut) as nat),
    ensures
        crate::model::zeros_in_tail(rb),
{
    lemma_tail_padded_split_point(b);
    assert forall|x: int, y: int| 0 <= x < y < rb.len() && rb[x] == 0 implies rb[y] == 0 by {
        if x < cut {
            assert(rb[x] == b[x]);
            assert(b[x] != 0);
        }
        if y < cut {
            assert(false);
        }
    }
}

/// The leading whitespace run of a tail-padded string equals that of its
/// content and stays within it: padding is not whitespace.
proof fn lemma_ws_run_raw_content(b: Seq<u8>)
    requires
        crate::model::zeros_in_tail(b),
    ensures
        ws_run_front(b) <= content(b).len(),
        ws_run_front(b) == ws_run_front(content(b)),
{
    let cs = content(b);
    lemma_tail_padded_split_point(b);
    lemma_ws_run_front(b);
    let w = ws_run_front(b);
    assert(w <= cs.len()) by {
        if w > cs.len() {
            assert(is_ws(b[cs.len() as int]));
            assert(b[cs.len() as int] == 0);
        }
    }
    assert(forall|i: int| 0 <= i < w ==> is_ws(#[trigger] cs[i]));
    if w < cs.len() {
        assert(!is_ws(cs[w]));
    }
    lemma_ws_run_front_unique(cs, w);
}

/// Shifting a tail-padded string left by a cut inside its content keeps the
/// zeros in the tail and drops exactly the cut prefix of the content.
proof fn lemma_shift_within_content(b: Seq<u8>, k: int)
    requires
        crate::model::zeros_in_tail(b),
        0 <= k <= content(b).len(),
    ensures
        crate::model::zeros_in_tail(crate::model::shift_bytes(b, k)),
        content(crate::model::shift_bytes(b, k)) == content(b).skip(k),
{
    let cs = content(b);
    let sh = crate::model::shift_bytes(b, k);
    lemma_tail_padded_split_point(b);
    assert forall|x: int, y: int| 0 <= x < y < sh.len() && sh[x] == 0 implies sh[y] == 0 by {
        if y + k < b.len() {
            if x + k < b.len() {
                assert(b[x + k] == 0);
                assert(b[y + k] == 0);
            }
        }
    }
    lemma_content_of_tail_padded(sh, cs.len() - k);
    assert(sh.take(cs.len() - k) =~= cs.skip(k));
}

impl ServerKey {
    /// Trim whitespace from the start and shift the remaining characters to
    /// the front, so the result is reusable.
    pub fn trim_start_reusable(&self, fhe_string: &FheString) -> (r: FheString)
        requires
            fhe_string.wf(),
            fhe_string.reusable(),
        ensures
            r.wf(),
            r.encrypted() == fhe_string.encrypted(),
            r.hidden() == fhe_string.hidden().skip(ws_run_front(fhe_string.hidden())),
            r.reusable(),
    {
        let ghost b = fhe_string.bytes();
        let ghost cs = fhe_string.hidden();
        if !fhe_string.is_encrypted() {
            // the clear path of trim_start already compacts
            return self.trim_start(fhe_string);
        }
        let len = fhe_string.len();
        let ws_bits = self.is_whitespace(fhe_string);
        let starting = self.keep_starting_whitespaces_only(&ws_bits, Ghost(b));
        let ghost w = ws_run_front(b);
        proof {
            lemma_ws_run_front(b);
            lemma_ws_run_raw_content(b);
        }
        // mark the position where the leading whitespace run ends
        let mut marker: Vec<Cipher> = Vec::new();
        let mut i: usize = 0;
        while i < len
            invariant
                0 <= i <= len,
                len == b.len(),
                w == ws_run_front(b),
                0 <= w <= len,
                starting@.len() == len,
                wf_bool_seq(starting@),
                forall|k: int| 0 <= k < len ==> (#[trigger] starting@[k]).as_bool() == (k < w),
                marker@.len() == i,
                wf_bool_seq(marker@),
                forall|k: int| 0 <= k < i ==> (#[trigger] marker@[k]).as_bool() == (k == w),
            decreases len - i,
        {
            if i == 0 {
                marker.push(self.not(&starting[0]));
            } else {
                let not_here = self.not(&starting[i]);
                marker.push(self.key.bitand(&starting[i - 1], &not_here));
            }
            i += 1;
        }
        proof {
            lemma_shift_within_content(b, w);
            if w == len {
                assert(forall|k: int| 0 <= k < marker@.len() ==> !(#[trigger] marker@[k]).as_bool());
                assert(cs.len() == w) by {
                    crate::model::lemma_content_len(b);
                    if cs.len() < w {
                        lemma_tail_padded_split_point(b);
                        assert(b[cs.len() as int] == 0);
                        assert(is_ws(b[cs.len() as int]));
                    }
                }
            }
        }
        let r = self.left_shift(fhe_string, &marker, fhe_string.is_reusable());
        proof {
            if w < len {
                assert(marker@[w].as_bool());
                assert(r.bytes() == crate::model::shift_bytes(b, w));
            } else {
                assert(r.bytes() == zeros(b.len()));
                crate::model::lemma_content_all_zero(r.bytes());
                assert(cs.skip(ws_run_front(cs)) =~= Seq::<u8>::empty());
            }
        }
        r
    }

    /// The string itself, trivially encrypted when it is clear but the
    /// other operand of the operation is encrypted: results follow the
    /// operands' encryption.
    fn align_encryption(&self, fhe_string: &FheString, other_encrypted: bool) -> (r: FheString)
        requires
            fhe_string.wf(),
        ensures
            r.wf(),
            r.bytes() == fhe_string.bytes(),
            r.hidden() == fhe_string.hidden(),
            r.encrypted() == (fhe_string.encrypted() || other_encrypted),
            r.reusable() == fhe_string.reusable(),
    {
        if !fhe_string.is_encrypted() && other_encrypted {
            let r = self.trivial_encrypt_fhe_string(fhe_string, 0);
            proof {
                assert(r.bytes() =~= fhe_string.bytes());
            }
            r
        } else {
            fhe_string.clone()
        }
    }

    /// Whether one clear string starts with another.
    fn clear_starts_with(&self, fhe_string: &FheString, pattern: &FheString) -> (r: bool)
        requires
            fhe_string.wf(),
            pattern.wf(),
            !fhe_string.encrypted(),
            !pattern.encrypted(),
        ensures
            r == crate::model::starts_with_seq(fhe_string.hidden(), pattern.hidden()),
    {
        let ghost b = fhe_string.bytes();
        let ghost pb = pattern.bytes();
        proof {
            crate::model::lemma_content_no_zero(b);
            crate::model::lemma_content_no_zero(pb);
        }
        let chars = fhe_string.chars();
        let p_chars = pattern.chars();
        let slen = chars.len();
        let plen = p_chars.len();
        if plen > slen {
            return false;
        }
        let mut i: usize = 0;
        let mut ok = true;
        while i < plen
            invariant
                0 <= i <= plen,
                plen <= slen,
                slen == b.len(),
                plen == pb.len(),
                chars@ == b,
                p_chars@ == pb,
                ok == (forall|k: int| 0 <= k < i ==> b[k] == pb[k]),
            decreases plen - i,
        {
            let same = chars[i] == p_chars[i];
            proof {
                if ok && same {
                    assert(forall|k: int| 0 <= k < i + 1 ==> b[k] == pb[k]);
                }
                if !same {
                    assert(b[i as int] != pb[i as int]);
                }
            }
            ok = ok && same;
            i += 1;
        }
        proof {
            if ok {
                assert(b.subrange(0, plen as int) =~= pb);
            } else {
                let w = choose|k: int| 0 <= k < plen && b[k] != pb[k];
                if crate::model::matches_at(b, pb, 0) {
                    assert(b.subrange(0, plen as int)[w] == pb[w]);
                }
            }
        }
        ok
    }

    /// Whether one clear string ends with another.
    fn clear_ends_with(&self, fhe_string: &FheString, pattern: &FheString) -> (r: bool)
        requires
            fhe_string.wf(),
            pattern.wf(),
            !fhe_string.encrypted(),
            !pattern.encrypted(),
        ensures
            r == crate::model::ends_with_seq(fhe_string.hidden(), pattern.hidden()),
    {
        let ghost b = fhe_string.bytes();
        let ghost pb = pattern.bytes();
        proof {
            crate::model::lemma_content_no_zero(b);
            crate::model::lemma_content_no_zero(pb);
        }
        let chars = fhe_string.chars();
        let p_chars = pattern.chars();
        let slen = chars.len();
        let plen = p_chars.len();
        if plen > slen {
            return false;
        }
        let off = slen - plen;
        let mut i: usize = 0;
        let mut ok = true;
        while i < plen
            invariant
                0 <= i <= plen,
                plen <= slen,
                off == slen - plen,
                slen == b.len(),
                plen == pb.len(),
                chars@ == b,
                p_chars@ == pb,
                ok == (forall|k: int| 0 <= k < i ==> b[off + k] == pb[k]),
            decreases plen - i,
        {
            let same = chars[off + i] == p_chars[i];
            proof {
                if ok && same {
                    assert(forall|k: int| 0 <= k < i + 1 ==> b[off + k] == pb[k]);
                }
                if !same {
                    assert(b[off + i] != pb[i as int]);
                }
            }
            ok = ok && same;
            i += 1;
        }
        proof {
            if ok {
                assert(b.subrange(off as int, slen as int) =~= pb);
            } else {
                let w = choose|k: int| 0 <= k < plen && b[off + k] != pb[k];
                if crate::model::matches_at(b, pb, off as int) {
                    assert(b.subrange(off as int, slen as int)[w] == pb[w]);
                }
            }
        }
        ok
    }

    /// Strip a prefix: blank the pattern's positions at the start when the
    /// string starts with it, and report whether it did. The blanked zeros
    /// sit before the remaining content, so the result is not reusable.
    pub fn strip_prefix(&self, fhe_string: &FheString, pattern: &FheString) -> (r: (
        FheString,
        Cipher,
    ))
        requires
            fhe_string.wf(),
            pattern.wf(),
            fhe_string.reusable(),
            pattern.reusable(),
        ensures
            r.0.wf(),
            wf_bool(r.1),
            r.1.as_bool() == crate::model::starts_with_seq(fhe_string.hidden(), pattern.hidden()),
            r.0.hidden() == if crate::model::starts_with_seq(
                fhe_string.hidden(),
                pattern.hidden(),
            ) {
                fhe_string.hidden().skip(pattern.hidden().len() as int)
            } else {
                fhe_string.hidden()
            },
            r.0.encrypted() == (fhe_string.encrypted() || pattern.encrypted()),
    {
        let ghost b = fhe_string.bytes();
        let ghost pb = pattern.bytes();
        let ghost cs = fhe_string.hidden();
        let ghost cp = pattern.hidden();
        proof {
            lemma_content_len(b);
            lemma_content_len(pb);
            lemma_tail_padded_split_point(b);
            lemma_tail_padded_split_point(pb);
        }
        let slen = fhe_string.len();
        let plen = pattern.len();
        if plen == 0 {
            proof {
                assert(pb.len() == 0);
                crate::model::lemma_content_all_zero(pb);
                assert(cs.subrange(0, 0) =~= cp);
                assert(cs.skip(0) =~= cs);
            }
            return (self.align_encryption(fhe_string, pattern.is_encrypted()), self.make_trivial_bool(true));
        }
        if slen == 0 {
            let found = self.is_empty(pattern);
            proof {
                assert(b.len() == 0);
                crate::model::lemma_content_all_zero(b);
                if cp.len() == 0 {
                    assert(cs.subrange(0, 0) =~= cp);
                    assert(cs.skip(cp.len() as int) =~= cs);
                }
            }
            return (self.align_encryption(fhe_string, pattern.is_encrypted()), found);
        }
        if !fhe_string.is_encrypted() && !pattern.is_encrypted() {
            let sw = self.clear_starts_with(fhe_string, pattern);
            let res = if sw {
                proof {
                    crate::model::lemma_content_no_zero(b);
                    crate::model::lemma_content_no_zero(pb);
                    assert(plen <= slen);
                }
                let sub = fhe_string.sub_string(plen, slen - 1);
                proof {
                    assert(sub.bytes() =~= b.skip(plen as int));
                    crate::model::lemma_content_no_zero(b);
                    crate::model::lemma_content_no_zero(pb);
                    crate::model::lemma_content_no_zero(sub.bytes());
                }
                sub
            } else {
                fhe_string.clone()
            };
            return (res, self.make_trivial_bool(sw));
        }
        if !pattern.is_padded() && plen > slen {
            proof {
                crate::model::lemma_content_no_zero(pb);
                assert(cp.len() > cs.len());
            }
            return (self.align_encryption(fhe_string, pattern.is_encrypted()), self.make_trivial_bool(false));
        }
        // at least one side is encrypted and the pattern may fit
        let starts_with = self.starts_with(fhe_string, pattern);
        let mut to_remove: Vec<Cipher> = Vec::new();
        let ghost cut = cp.len() as int;
        if !pattern.is_padded() {
            proof {
                crate::model::lemma_content_no_zero(pb);
            }
            let mut i: usize = 0;
            while i < plen
                invariant
                    0 <= i <= plen,
                    cut == plen,
                    wf_bool(starts_with),
                    to_remove@.len() == i,
                    wf_bool_seq(to_remove@),
                    forall|k: int|
                        0 <= k < i ==> (#[trigger] to_remove@[k]).as_bool() == (k < cut
                            && starts_with.as_bool()),
                decreases plen - i,
            {
                to_remove.push(starts_with.clone());
                i += 1;
            }
        } else {
            let shift_index = self.len(pattern);
            let mut i: usize = 0;
            while i < plen
                invariant
                    0 <= i <= plen,
                    cut == cp.len(),
                    cp.len() <= plen,
                    wf_bool(starts_with),
                    shift_index.wf(),
                    shift_index.val == cp.len(),
                    to_remove@.len() == i,
                    wf_bool_seq(to_remove@),
                    forall|k: int|
                        0 <= k < i ==> (#[trigger] to_remove@[k]).as_bool() == (k < cut
                            && starts_with.as_bool()),
                decreases plen - i,
            {
                let is_gt = self.key.scalar_gt(&shift_index, i as u64);
                to_remove.push(self.key.bitand(&is_gt, &starts_with));
                i += 1;
            }
        }
        let s_enc: FheString = if fhe_string.is_encrypted() {
            fhe_string.clone()
        } else {
            self.trivial_encrypt_fhe_string(fhe_string, 0)
        };
        proof {
            assert(s_enc.bytes() =~= b);
        }
        let end = if plen > slen {
            plen
        } else {
            slen
        };
        let striped = self.set_zero_where_indices(&s_enc, &to_remove, 0, end);
        let ghost rb = striped@.map_values(|c: Cipher| c.val as u8);
        proof {
            if starts_with.as_bool() {
                assert(cut <= cs.len());
                assert(rb =~= (zeros(cut as nat) + b.skip(cut)) + zeros((end - slen) as nat));
                lemma_blank_prefix_content(b, cut);
                crate::model::lemma_content_app(
                    zeros(cut as nat) + b.skip(cut),
                    zeros((end - slen) as nat),
                );
                crate::model::lemma_content_all_zero(zeros((end - slen) as nat));
                assert(content(rb) =~= cs.skip(cut));
            } else {
                assert(rb =~= b + zeros((end - slen) as nat));
                crate::model::lemma_content_app(b, zeros((end - slen) as nat));
                crate::model::lemma_content_all_zero(zeros((end - slen) as nat));
                assert(content(rb) =~= cs);
            }
        }
        let res = FheString::from_encrypted(striped, true, false);
        (res, starts_with)
    }

    /// Strip a suffix: blank the pattern's positions at the end of the
    /// hidden content when the string ends with it, and report whether it
    /// did. The result stays reusable.
    #[verifier::rlimit(100)]
    pub fn strip_suffix(&self, fhe_string: &FheString, pattern: &FheString) -> (r: (
        FheString,
        Cipher,
    ))
        requires
            fhe_string.wf(),
            pattern.wf(),
            fhe_string.reusable(),
            pattern.reusable(),
            fhe_string.bytes().len() + pattern.bytes().len() <= u64::MAX,
        ensures
            r.0.wf(),
            wf_bool(r.1),
            r.1.as_bool() == crate::model::ends_with_seq(fhe_string.hidden(), pattern.hidden()),
            r.0.hidden() == if crate::model::ends_with_seq(fhe_string.hidden(), pattern.hidden()) {
                fhe_string.hidden().take(
                    fhe_string.hidden().len() - pattern.hidden().len(),
                )
            } else {
                fhe_string.hidden()
            },
            r.0.reusable(),
            r.0.bytes().len() <= fhe_string.bytes().len(),
            r.0.encrypted() == (fhe_string.encrypted() || pattern.encrypted()),
    {
        let ghost b = fhe_string.bytes();
        let ghost pb = pattern.bytes();
        let ghost cs = fhe_string.hidden();
        let ghost cp = pattern.hidden();
        proof {
            lemma_content_len(b);
            lemma_content_len(pb);
            lemma_tail_padded_split_point(b);
            lemma_tail_padded_split_point(pb);
        }
        let slen = fhe_string.len();
        let plen = pattern.len();
        if plen == 0 {
            proof {
                assert(pb.len() == 0);
                crate::model::lemma_content_all_zero(pb);
                assert(cs.subrange(cs.len() as int, cs.len() as int) =~= cp);
                assert(cs.take(cs.len() as int) =~= cs);
            }
            return (self.align_encryption(fhe_string, pattern.is_encrypted()), self.make_trivial_bool(true));
        }
        if slen == 0 {
            let found = self.is_empty(pattern);
            proof {
                assert(b.len() == 0);
                crate::model::lemma_content_all_zero(b);
                if cp.len() == 0 {
                    assert(cs.subrange(cs.len() as int, cs.len() as int) =~= cp);
                    assert(cs.take(cs.len() - cp.len()) =~= cs);
                }
            }
            return (self.align_encryption(fhe_string, pattern.is_encrypted()), found);
        }
        if !fhe_string.is_encrypted() && !pattern.is_encrypted() {
            let ew = self.clear_ends_with(fhe_string, pattern);
            let res = if ew {
                proof {
                    crate::model::lemma_content_no_zero(b);
                    crate::model::lemma_content_no_zero(pb);
                    assert(plen <= slen);
                }
                let cut = slen - plen;
                let sub = if cut == 0 {
                    fhe_string.sub_string(slen, slen - 1)
                } else {
                    fhe_string.sub_string(0, cut - 1)
                };
                proof {
                    assert(sub.bytes() =~= b.take(slen - plen));
                    crate::model::lemma_content_no_zero(b);
                    crate::model::lemma_content_no_zero(pb);
                    crate::model::lemma_content_no_zero(sub.bytes());
                }
                sub
            } else {
                fhe_string.clone()
            };
            return (res, self.make_trivial_bool(ew));
        }
        if !pattern.is_padded() && plen > slen {
            proof {
                crate::model::lemma_content_no_zero(pb);
                assert(cp.len() > cs.len());
            }
            return (self.align_encryption(fhe_string, pattern.is_encrypted()), self.make_trivial_bool(false));
        }
        let ends_with = self.ends_with(fhe_string, pattern);
        let ghost cut: int = if ends_with.as_bool() {
            cs.len() - cp.len()
        } else {
            cs.len() as int
        };
        proof {
            if ends_with.as_bool() {
                assert(cp.len() <= cs.len());
            }
        }
        // position where the suffix starts, zero pattern length when absent
        let mut len_1 = self.len(fhe_string);
        let len_2 = self.len(pattern);
        let ew_wide = self.key.extend_blocks(&ends_with, len_2.blocks - 1);
        proof {
            if ew_wide.val == 0 {
                assert(len_2.val * ew_wide.val == 0);
            } else {
                assert(ew_wide.val == 1);
                assert(len_2.val * ew_wide.val == len_2.val);
            }
        }
        let mut conditional_len_2 = self.key.mul(&len_2, &ew_wide);
        self.extend_equally(&mut len_1, &mut conditional_len_2);
        let sufix_start_index = self.key.sub(&len_1, &conditional_len_2);
        let mut to_remove: Vec<Cipher> = Vec::new();
        let mut i: usize = 0;
        while i < slen
            invariant
                0 <= i <= slen,
                wf_bool(ends_with),
                sufix_start_index.wf(),
                sufix_start_index.val == cut,
                to_remove@.len() == i,
                wf_bool_seq(to_remove@),
                forall|k: int|
                    0 <= k < i ==> (#[trigger] to_remove@[k]).as_bool() == (cut <= k
                        && ends_with.as_bool()),
            decreases slen - i,
        {
            let is_le = self.key.scalar_le(&sufix_start_index, i as u64);
            to_remove.push(self.key.bitand(&is_le, &ends_with));
            i += 1;
        }
        let s_enc: FheString = if fhe_string.is_encrypted() {
            fhe_string.clone()
        } else {
            self.trivial_encrypt_fhe_string(fhe_string, 0)
        };
        proof {
            assert(s_enc.bytes() =~= b);
        }
        let striped = self.set_zero_where(&s_enc, &to_remove);
        let ghost rb = striped@.map_values(|c: Cipher| c.val as u8);
        proof {
            if ends_with.as_bool() {
                assert(rb =~= b.take(cut) + zeros((b.len() - cut) as nat));
                lemma_trimmed_back_content(b, cut);
                assert(content(rb) == cs.take(cut));
                lemma_blanked_tail_reusable(b, cut, rb);
            } else {
                assert(rb =~= b.take(cut) + zeros((b.len() - cut) as nat)) by {
                    assert(forall|k: int| 0 <= k < cs.len() ==> b[k] == cs[k]);
                }
                lemma_trimmed_back_content(b, cut);
                assert(content(rb) == cs.take(cut));
                assert(cs.take(cut) =~= cs);
                lemma_blanked_tail_reusable(b, cut, rb);
            }
        }
        let res = FheString::from_encrypted(striped, true, true);
        (res, ends_with)
    }

    /// Strip a prefix and shift the remaining characters to the front, so
    /// the result is reusable.
    pub fn strip_prefix_reusable(&self, fhe_string: &FheString, pattern: &FheString) -> (r: (
        FheString,
        Cipher,
    ))
        requires
            fhe_string.wf(),
            pattern.wf(),
            fhe_string.reusable(),
            pattern.reusable(),
            pattern.bytes().len() < 0x1000_0000,
        ensures
            r.0.wf(),
            wf_bool(r.1),
            r.1.as_bool() == crate::model::starts_with_seq(fhe_string.hidden(), pattern.hidden()),
            r.0.hidden() == if crate::model::starts_with_seq(
                fhe_string.hidden(),
                pattern.hidden(),
            ) {
                fhe_string.hidden().skip(pattern.hidden().len() as int)
            } else {
                fhe_string.hidden()
            },
            r.0.reusable(),
            r.0.encrypted() == (fhe_string.encrypted() || pattern.encrypted()),
    {
        let ghost b = fhe_string.bytes();
        let ghost pb = pattern.bytes();
        let ghost cs = fhe_string.hidden();
        let ghost cp = pattern.hidden();
        proof {
            lemma_content_len(b);
            lemma_content_len(pb);
            lemma_tail_padded_split_point(b);
            lemma_tail_padded_split_point(pb);
        }
        let slen = fhe_string.len();
        let plen = pattern.len();
        if plen == 0 {
            proof {
                assert(pb.len() == 0);
                crate::model::lemma_content_all_zero(pb);
                assert(cs.subrange(0, 0) =~= cp);
                assert(cs.skip(0) =~= cs);
            }
            return (self.align_encryption(fhe_string, pattern.is_encrypted()), self.make_trivial_bool(true));
        }
        if slen == 0 {
            let found = self.is_empty(pattern);
            proof {
                assert(b.len() == 0);
                crate::model::lemma_content_all_zero(b);
                if cp.len() == 0 {
                    assert(cs.subrange(0, 0) =~= cp);
                    assert(cs.skip(cp.len() as int) =~= cs);
                }
            }
            return (self.align_encryption(fhe_string, pattern.is_encrypted()), found);
        }
        if !fhe_string.is_encrypted() && !pattern.is_encrypted() {
            let sw = self.clear_starts_with(fhe_string, pattern);
            let res = if sw {
                proof {
                    crate::model::lemma_content_no_zero(b);
                    crate::model::lemma_content_no_zero(pb);
                    assert(plen <= slen);
                }
                let sub = fhe_string.sub_string(plen, slen - 1);
                proof {
                    assert(sub.bytes() =~= b.skip(plen as int));
                    crate::model::lemma_content_no_zero(sub.bytes());
                }
                sub
            } else {
                fhe_string.clone()
            };
            return (res, self.make_trivial_bool(sw));
        }
        if !pattern.is_padded() && plen > slen {
            proof {
                crate::model::lemma_content_no_zero(pb);
                assert(cp.len() > cs.len());
            }
            return (self.align_encryption(fhe_string, pattern.is_encrypted()), self.make_trivial_bool(false));
        }
        let starts_with = self.starts_with(fhe_string, pattern);
        let shift_index = self.len(pattern);
        let not_sw = self.not(&starts_with);
        let ghost sel: int = if starts_with.as_bool() {
            cp.len() as int
        } else {
            0
        };
        proof {
            if starts_with.as_bool() {
                assert(cp.len() <= cs.len());
            }
        }
        // a single marker bit: at the prefix's end when it is present, at
        // the front (no shift) when it is not
        let mut index_vec: Vec<Cipher> = Vec::new();
        let mut i: usize = 0;
        while i < plen + 1
            invariant
                0 <= i <= plen + 1,
                plen < 0x1000_0000,
                wf_bool(starts_with),
                wf_bool(not_sw),
                not_sw.as_bool() == !starts_with.as_bool(),
                shift_index.wf(),
                shift_index.val == cp.len(),
                cp.len() <= plen,
                sel == if starts_with.as_bool() {
                    cp.len() as int
                } else {
                    0int
                },
                index_vec@.len() == i,
                wf_bool_seq(index_vec@),
                forall|k: int| 0 <= k < i ==> (#[trigger] index_vec@[k]).as_bool() == (k == sel),
            decreases plen + 1 - i,
        {
            let at_end = self.key.scalar_eq(&shift_index, i as u64);
            let mut bit = self.key.bitand(&at_end, &starts_with);
            if i == 0 {
                bit = self.key.bitor(&bit, &not_sw);
            }
            index_vec.push(bit);
            i += 1;
        }
        let s_enc: FheString = if fhe_string.is_encrypted() {
            fhe_string.clone()
        } else {
            self.trivial_encrypt_fhe_string(fhe_string, 0)
        };
        proof {
            assert(s_enc.bytes() =~= b);
            assert(crate::server_key::at_most_one_set(index_vec@));
            lemma_shift_within_content(b, sel);
        }
        let shifted = self.left_shift(&s_enc, &index_vec, true);
        proof {
            if sel <= plen {
                assert(index_vec@[sel].as_bool());
            }
            assert(shifted.bytes() == crate::model::shift_bytes(b, sel));
            if !starts_with.as_bool() {
                assert(crate::model::shift_bytes(b, 0) =~= b);
            }
        }
        (shifted, starts_with)
    }

    /// Trim whitespace from both ends and shift the remaining characters to
    /// the front, so the result is reusable.
    pub fn trim_reusable(&self, fhe_string: &FheString) -> (r: FheString)
        requires
            fhe_string.wf(),
            fhe_string.reusable(),
        ensures
            r.wf(),
            r.encrypted() == fhe_string.encrypted(),
            r.hidden() == ({
                let t = fhe_string.hidden().take(
                    fhe_string.hidden().len() - ws_run_back(fhe_string.hidden()),
                );
                t.skip(ws_run_front(t))
            }),
            r.reusable(),
    {
        let trimmed_end = self.trim_end(fhe_string);
        self.trim_start_reusable(&trimmed_end)
    }
}

} // verus!
