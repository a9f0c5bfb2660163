//! Model of the homomorphic integer layer: radix ciphertexts and the
//! evaluation key that operates on them.
//!
//! A radix ciphertext carries an integer value in a run of blocks, each block
//! holding two message bits, so `blocks` blocks can carry any value below
//! `4^blocks`. The model records the carried value and the block count;
//! every homomorphic operation is specified exactly by its effect on the
//! carried values. Operations never wrap: each one requires that its result
//! fits in the result's blocks.

use vstd::prelude::*;

verus! {

/// Largest number of values that `blocks` radix blocks can carry:
/// `4^blocks`, since each block holds two message bits.
pub open spec fn block_cap(blocks: nat) -> nat
    decreases blocks,
{
    if blocks == 0 {
        1
    } else {
        4 * block_cap((blocks - 1) as nat)
    }
}

/// Block counts stay small enough that every carried value fits in a `u64`.
pub const MAX_BLOCKS: usize = 32;

pub proof fn lemma_block_cap_monotone(b1: nat, b2: nat)
    requires
        b1 <= b2,
    ensures
        block_cap(b1) <= block_cap(b2),
    decreases b2,
{
    if b1 < b2 {
        lemma_block_cap_monotone(b1, (b2 - 1) as nat);
    }
}

pub proof fn lemma_block_cap_fits_u64(b: nat)
    requires
        b <= MAX_BLOCKS,
    ensures
        block_cap(b) <= 0x1_0000_0000_0000_0000,
    decreases MAX_BLOCKS - b,
{
    if b < MAX_BLOCKS {
        lemma_block_cap_fits_u64((b + 1) as nat);
    } else {
        reveal_with_fuel(block_cap, 33);
        assert(block_cap(32) == 0x1_0000_0000_0000_0000);
    }
}

pub proof fn lemma_block_cap_byte()
    ensures
        block_cap(1) == 4,
        block_cap(2) == 16,
        block_cap(3) == 64,
        block_cap(4) == 256,
{
    reveal_with_fuel(block_cap, 5);
}

/// Model of one radix ciphertext: the value it carries and its block count.
pub struct Cipher {
    /// The carried (hidden) value.
    pub val: u64,
    /// Public width of the ciphertext, in radix blocks.
    pub blocks: usize,
}

impl Cipher {
    /// A ciphertext is well formed when its carried value fits in its blocks.
    pub open spec fn wf(&self) -> bool {
        1 <= self.blocks <= MAX_BLOCKS && (self.val as nat) < block_cap(self.blocks as nat)
    }

    /// Carried value of a single-bit (boolean) ciphertext, as a boolean.
    pub open spec fn as_bool(&self) -> bool {
        self.val == 1
    }

    /// A boolean ciphertext carries zero or one.
    pub open spec fn is_bool(&self) -> bool {
        self.val <= 1
    }
}

impl Clone for Cipher {
    fn clone(&self) -> (r: Self)
        ensures
            r == *self,
    {
        Cipher { val: self.val, blocks: self.blocks }
    }
}

/// Model of the client (decryption) key of the homomorphic integer layer.
/// The key material itself is outside the scope of this crate; in the model,
/// encryption wraps a value and decryption reads it back.
pub struct RadixClientKey {}

impl Clone for RadixClientKey {
    fn clone(&self) -> (r: Self)
        ensures
            r == *self,
    {
        RadixClientKey {}
    }
}

impl RadixClientKey {
    pub fn new() -> (r: Self) {
        RadixClientKey {}
    }

    /// Encrypt one byte into a byte-wide radix ciphertext.
    pub fn encrypt(&self, value: u8) -> (r: Cipher)
        ensures
            r.val == value,
            r.blocks == crate::NUMBER_OF_BLOCKS,
            r.wf(),
    {
        proof {
            lemma_block_cap_byte();
        }
        Cipher { val: value as u64, blocks: crate::NUMBER_OF_BLOCKS }
    }

    /// Decrypt a ciphertext whose carried value fits one byte.
    pub fn decrypt_u8(&self, c: &Cipher) -> (r: u8)
        requires
            c.wf(),
            c.val <= 255,
        ensures
            r == c.val,
    {
        c.val as u8
    }

    /// Decrypt a ciphertext to its full carried value.
    pub fn decrypt_u64(&self, c: &Cipher) -> (r: u64)
        requires
            c.wf(),
        ensures
            r == c.val,
    {
        c.val
    }
}

/// Model of the evaluation key of the homomorphic integer layer. The key
/// material itself is outside the scope of this crate; the methods specify
/// exactly what each homomorphic operation does to the carried values.
pub struct IntegerKey {}

impl Clone for IntegerKey {
    fn clone(&self) -> (r: Self)
        ensures
            r == *self,
    {
        IntegerKey {}
    }
}

impl IntegerKey {
    pub fn new() -> (r: Self) {
        IntegerKey {}
    }

    /// Trivial (public) encryption of a value into `blocks` radix blocks.
    pub fn create_trivial(&self, value: u64, blocks: usize) -> (r: Cipher)
        requires
            1 <= blocks <= MAX_BLOCKS,
            (value as nat) < block_cap(blocks as nat),
        ensures
            r.val == value,
            r.blocks == blocks,
            r.wf(),
    {
        Cipher { val: value, blocks }
    }

    /// Trivial encryption of zero into `blocks` radix blocks.
    pub fn create_trivial_zero(&self, blocks: usize) -> (r: Cipher)
        requires
            1 <= blocks <= MAX_BLOCKS,
        ensures
            r.val == 0,
            r.blocks == blocks,
            r.wf(),
    {
        proof {
            lemma_block_cap_monotone(0, blocks as nat);
        }
        Cipher { val: 0, blocks }
    }

    /// Homomorphic addition; the sum must fit in the (common) block count.
    pub fn add(&self, a: &Cipher, b: &Cipher) -> (r: Cipher)
        requires
            a.wf(),
            b.wf(),
            a.blocks == b.blocks,
            a.val + b.val < block_cap(a.blocks as nat),
        ensures
            r.val == a.val + b.val,
            r.blocks == a.blocks,
            r.wf(),
    {
        proof {
            lemma_block_cap_fits_u64(a.blocks as nat);
        }
        Cipher { val: a.val + b.val, blocks: a.blocks }
    }

    /// Homomorphic addition in place.
    pub fn add_assign(&self, a: &mut Cipher, b: &Cipher)
        requires
            old(a).wf(),
            b.wf(),
            old(a).blocks == b.blocks,
            old(a).val + b.val < block_cap(old(a).blocks as nat),
        ensures
            final(a).val == old(a).val + b.val,
            final(a).blocks == old(a).blocks,
            final(a).wf(),
    {
        *a = self.add(&a.clone(), b);
    }

    /// Homomorphic addition of a public scalar.
    pub fn scalar_add(&self, a: &Cipher, scalar: u64) -> (r: Cipher)
        requires
            a.wf(),
            a.val + scalar < block_cap(a.blocks as nat),
        ensures
            r.val == a.val + scalar,
            r.blocks == a.blocks,
            r.wf(),
    {
        proof {
            lemma_block_cap_fits_u64(a.blocks as nat);
        }
        Cipher { val: a.val + scalar, blocks: a.blocks }
    }

    /// Homomorphic subtraction; the first operand must be the larger one.
    pub fn sub(&self, a: &Cipher, b: &Cipher) -> (r: Cipher)
        requires
            a.wf(),
            b.wf(),
            a.blocks == b.blocks,
            b.val <= a.val,
        ensures
            r.val == a.val - b.val,
            r.blocks == a.blocks,
            r.wf(),
    {
        Cipher { val: a.val - b.val, blocks: a.blocks }
    }

    /// Homomorphic subtraction in place.
    pub fn sub_assign(&self, a: &mut Cipher, b: &Cipher)
        requires
            old(a).wf(),
            b.wf(),
            old(a).blocks == b.blocks,
            b.val <= old(a).val,
        ensures
            final(a).val == old(a).val - b.val,
            final(a).blocks == old(a).blocks,
            final(a).wf(),
    {
        *a = self.sub(&a.clone(), b);
    }

    /// Homomorphic multiplication; the product must fit in the block count.
    pub fn mul(&self, a: &Cipher, b: &Cipher) -> (r: Cipher)
        requires
            a.wf(),
            b.wf(),
            a.blocks == b.blocks,
            a.val * b.val < block_cap(a.blocks as nat),
        ensures
            r.val == a.val * b.val,
            r.blocks == a.blocks,
            r.wf(),
    {
        proof {
            lemma_block_cap_fits_u64(a.blocks as nat);
        }
        Cipher { val: a.val * b.val, blocks: a.blocks }
    }

    /// Homomorphic integer division by a non-zero divisor.
    pub fn div(&self, a: &Cipher, b: &Cipher) -> (r: Cipher)
        requires
            a.wf(),
            b.wf(),
            a.blocks == b.blocks,
            b.val > 0,
        ensures
            r.val == a.val as nat / b.val as nat,
            r.blocks == a.blocks,
            r.wf(),
    {
        proof {
            assert(a.val as nat / b.val as nat <= a.val as nat) by (nonlinear_arith)
                requires
                    b.val > 0,
            ;
        }
        Cipher { val: a.val / b.val, blocks: a.blocks }
    }

    /// Boolean AND of two single-bit ciphertexts.
    pub fn bitand(&self, a: &Cipher, b: &Cipher) -> (r: Cipher)
        requires
            a.wf(),
            b.wf(),
            a.is_bool(),
            b.is_bool(),
            a.blocks == b.blocks,
        ensures
            r.as_bool() == (a.as_bool() && b.as_bool()),
            r.is_bool(),
            r.blocks == a.blocks,
            r.wf(),
    {
        Cipher { val: if a.val == 1 && b.val == 1 { 1 } else { 0 }, blocks: a.blocks }
    }

    /// Boolean AND in place.
    pub fn bitand_assign(&self, a: &mut Cipher, b: &Cipher)
        requires
            old(a).wf(),
            b.wf(),
            old(a).is_bool(),
            b.is_bool(),
            old(a).blocks == b.blocks,
        ensures
            final(a).as_bool() == (old(a).as_bool() && b.as_bool()),
            final(a).is_bool(),
            final(a).blocks == old(a).blocks,
            final(a).wf(),
    {
        *a = self.bitand(&a.clone(), b);
    }

    /// Boolean OR of two single-bit ciphertexts.
    pub fn bitor(&self, a: &Cipher, b: &Cipher) -> (r: Cipher)
        requires
            a.wf(),
            b.wf(),
            a.is_bool(),
            b.is_bool(),
            a.blocks == b.blocks,
        ensures
            r.as_bool() == (a.as_bool() || b.as_bool()),
            r.is_bool(),
            r.blocks == a.blocks,
            r.wf(),
    {
        Cipher { val: if a.val == 1 || b.val == 1 { 1 } else { 0 }, blocks: a.blocks }
    }

    /// Boolean OR in place.
    pub fn bitor_assign(&self, a: &mut Cipher, b: &Cipher)
        requires
            old(a).wf(),
            b.wf(),
            old(a).is_bool(),
            b.is_bool(),
            old(a).blocks == b.blocks,
        ensures
            final(a).as_bool() == (old(a).as_bool() || b.as_bool()),
            final(a).is_bool(),
            final(a).blocks == old(a).blocks,
            final(a).wf(),
    {
        *a = self.bitor(&a.clone(), b);
    }

    /// Boolean XOR of two single-bit ciphertexts.
    pub fn bitxor(&self, a: &Cipher, b: &Cipher) -> (r: Cipher)
        requires
            a.wf(),
            b.wf(),
            a.is_bool(),
            b.is_bool(),
            a.blocks == b.blocks,
        ensures
            r.as_bool() == (a.as_bool() != b.as_bool()),
            r.is_bool(),
            r.blocks == a.blocks,
            r.wf(),
    {
        Cipher { val: if (a.val == 1) != (b.val == 1) { 1 } else { 0 }, blocks: a.blocks }
    }

    /// Homomorphic equality test; returns a single-bit ciphertext.
    pub fn eq(&self, a: &Cipher, b: &Cipher) -> (r: Cipher)
        requires
            a.wf(),
            b.wf(),
            a.blocks == b.blocks,
        ensures
            r.as_bool() == (a.val == b.val),
            r.is_bool(),
            r.blocks == 1,
            r.wf(),
    {
        proof {
            lemma_block_cap_byte();
        }
        Cipher { val: if a.val == b.val { 1 } else { 0 }, blocks: 1 }
    }

    /// Homomorphic disequality test; returns a single-bit ciphertext.
    pub fn ne(&self, a: &Cipher, b: &Cipher) -> (r: Cipher)
        requires
            a.wf(),
            b.wf(),
            a.blocks == b.blocks,
        ensures
            r.as_bool() == (a.val != b.val),
            r.is_bool(),
            r.blocks == 1,
            r.wf(),
    {
        proof {
            lemma_block_cap_byte();
        }
        Cipher { val: if a.val != b.val { 1 } else { 0 }, blocks: 1 }
    }

    /// Homomorphic strictly-less test; returns a single-bit ciphertext.
    pub fn lt(&self, a: &Cipher, b: &Cipher) -> (r: Cipher)
        requires
            a.wf(),
            b.wf(),
            a.blocks == b.blocks,
        ensures
            r.as_bool() == (a.val < b.val),
            r.is_bool(),
            r.blocks == 1,
            r.wf(),
    {
        proof {
            lemma_block_cap_byte();
        }
        Cipher { val: if a.val < b.val { 1 } else { 0 }, blocks: 1 }
    }

    /// Homomorphic greater-or-equal test; returns a single-bit ciphertext.
    pub fn ge(&self, a: &Cipher, b: &Cipher) -> (r: Cipher)
        requires
            a.wf(),
            b.wf(),
            a.blocks == b.blocks,
        ensures
            r.as_bool() == (a.val >= b.val),
            r.is_bool(),
            r.blocks == 1,
            r.wf(),
    {
        proof {
            lemma_block_cap_byte();
        }
        Cipher { val: if a.val >= b.val { 1 } else { 0 }, blocks: 1 }
    }

    /// Homomorphic equality test against a public scalar.
    pub fn scalar_eq(&self, a: &Cipher, scalar: u64) -> (r: Cipher)
        requires
            a.wf(),
        ensures
            r.as_bool() == (a.val == scalar),
            r.is_bool(),
            r.blocks == 1,
            r.wf(),
    {
        proof {
            lemma_block_cap_byte();
        }
        Cipher { val: if a.val == scalar { 1 } else { 0 }, blocks: 1 }
    }

    /// Homomorphic disequality test against a public scalar.
    pub fn scalar_ne(&self, a: &Cipher, scalar: u64) -> (r: Cipher)
        requires
            a.wf(),
        ensures
            r.as_bool() == (a.val != scalar),
            r.is_bool(),
            r.blocks == 1,
            r.wf(),
    {
        proof {
            lemma_block_cap_byte();
        }
        Cipher { val: if a.val != scalar { 1 } else { 0 }, blocks: 1 }
    }

    /// Homomorphic strictly-less test against a public scalar.
    pub fn scalar_lt(&self, a: &Cipher, scalar: u64) -> (r: Cipher)
        requires
            a.wf(),
        ensures
            r.as_bool() == (a.val < scalar),
            r.is_bool(),
            r.blocks == 1,
            r.wf(),
    {
        proof {
            lemma_block_cap_byte();
        }
        Cipher { val: if a.val < scalar { 1 } else { 0 }, blocks: 1 }
    }

    /// Homomorphic less-or-equal test against a public scalar.
    pub fn scalar_le(&self, a: &Cipher, scalar: u64) -> (r: Cipher)
        requires
            a.wf(),
        ensures
            r.as_bool() == (a.val <= scalar),
            r.is_bool(),
            r.blocks == 1,
            r.wf(),
    {
        proof {
            lemma_block_cap_byte();
        }
        Cipher { val: if a.val <= scalar { 1 } else { 0 }, blocks: 1 }
    }

    /// Homomorphic strictly-greater test against a public scalar.
    pub fn scalar_gt(&self, a: &Cipher, scalar: u64) -> (r: Cipher)
        requires
            a.wf(),
        ensures
            r.as_bool() == (a.val > scalar),
            r.is_bool(),
            r.blocks == 1,
            r.wf(),
    {
        proof {
            lemma_block_cap_byte();
        }
        Cipher { val: if a.val > scalar { 1 } else { 0 }, blocks: 1 }
    }

    /// Homomorphic greater-or-equal test against a public scalar.
    pub fn scalar_ge(&self, a: &Cipher, scalar: u64) -> (r: Cipher)
        requires
            a.wf(),
        ensures
            r.as_bool() == (a.val >= scalar),
            r.is_bool(),
            r.blocks == 1,
            r.wf(),
    {
        proof {
            lemma_block_cap_byte();
        }
        Cipher { val: if a.val >= scalar { 1 } else { 0 }, blocks: 1 }
    }

    /// Homomorphic select: the first operand where the condition bit is set,
    /// the second otherwise.
    pub fn if_then_else(&self, condition: &Cipher, a: &Cipher, b: &Cipher) -> (r: Cipher)
        requires
            condition.wf(),
            condition.is_bool(),
            a.wf(),
            b.wf(),
            a.blocks == b.blocks,
        ensures
            r == if condition.as_bool() {
                *a
            } else {
                *b
            },
            r.wf(),
    {
        if condition.val == 1 {
            a.clone()
        } else {
            b.clone()
        }
    }

    /// Widen a ciphertext with trivial zero blocks; the carried value is kept.
    pub fn extend_blocks(&self, a: &Cipher, extra: usize) -> (r: Cipher)
        requires
            a.wf(),
            a.blocks + extra <= MAX_BLOCKS,
        ensures
            r.val == a.val,
            r.blocks == a.blocks + extra,
            r.wf(),
    {
        proof {
            lemma_block_cap_monotone(a.blocks as nat, (a.blocks + extra) as nat);
        }
        Cipher { val: a.val, blocks: a.blocks + extra }
    }

    /// Widen a ciphertext in place with trivial zero blocks.
    pub fn extend_blocks_assign(&self, a: &mut Cipher, extra: usize)
        requires
            old(a).wf(),
            old(a).blocks + extra <= MAX_BLOCKS,
        ensures
            final(a).val == old(a).val,
            final(a).blocks == old(a).blocks + extra,
            final(a).wf(),
    {
        *a = self.extend_blocks(&a.clone(), extra);
    }

    /// Drop most-significant blocks; the carried value must fit in what is
    /// kept.
    pub fn trim_blocks_assign(&self, a: &mut Cipher, remove: usize)
        requires
            old(a).wf(),
            remove < old(a).blocks,
            (old(a).val as nat) < block_cap((old(a).blocks - remove) as nat),
        ensures
            final(a).val == old(a).val,
            final(a).blocks == old(a).blocks - remove,
            final(a).wf(),
    {
        let blocks = a.blocks - remove;
        *a = Cipher { val: a.val, blocks };
    }
}

} // verus!
