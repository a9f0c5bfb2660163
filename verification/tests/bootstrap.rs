//! Round trips of homomorphic evaluation at the two widest ciphertext
//! capacities the integer layer offers.

use fhe_string::cipher::{IntegerKey, RadixClientKey};

#[test]
fn test_bootstrap_u64() {
    let key = IntegerKey::new();
    let ck = RadixClientKey::new();
    // 32 radix blocks carry 64 bits
    let a = key.create_trivial(123_456_789_012_345u64, 32);
    let b = key.create_trivial(987_654_321u64, 32);
    let sum = key.add(&a, &b);
    assert_eq!(ck.decrypt_u64(&sum), 123_456_789_012_345 + 987_654_321);
    let diff = key.sub(&sum, &b);
    assert_eq!(ck.decrypt_u64(&diff), 123_456_789_012_345);
    let prod = key.mul(&key.create_trivial(3_000_000_000u64, 32), &key.create_trivial(5u64, 32));
    assert_eq!(ck.decrypt_u64(&prod), 15_000_000_000);
    let smaller = key.lt(&b, &a);
    assert_eq!(ck.decrypt_u64(&smaller), 1);
}

#[test]
fn test_bootstrap_u32() {
    let key = IntegerKey::new();
    let ck = RadixClientKey::new();
    // 16 radix blocks carry 32 bits
    let a = key.create_trivial(4_000_000_000u64, 16);
    let b = key.create_trivial(123_456u64, 16);
    let sum = key.add(&b, &key.create_trivial(654_321u64, 16));
    assert_eq!(ck.decrypt_u64(&sum), 777_777);
    let diff = key.sub(&a, &b);
    assert_eq!(ck.decrypt_u64(&diff), 4_000_000_000 - 123_456);
    let equal = key.eq(&a, &a);
    assert_eq!(ck.decrypt_u64(&equal), 1);
}
