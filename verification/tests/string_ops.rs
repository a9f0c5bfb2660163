use fhe_string::cipher::{IntegerKey, RadixClientKey};
use fhe_string::ciphertext::FheString;
use fhe_string::client_key::ClientKey;
use fhe_string::server_key::ServerKey;

fn keys() -> (ClientKey, ServerKey) {
    (ClientKey::new(RadixClientKey::new()), ServerKey::new(IntegerKey::new()))
}

fn enc(ck: &ClientKey, s: &str, padding: usize) -> FheString {
    ck.encrypt_str(s, padding)
}

fn dec(ck: &ClientKey, s: &FheString) -> String {
    ck.decrypt_to_string(s)
}

fn dec_fields(ck: &ClientKey, fields: &[FheString], count: u64) -> Vec<String> {
    let mut out = Vec::new();
    for i in 0..count as usize {
        out.push(dec(ck, &fields[i]));
    }
    out
}

#[test]
fn encrypt_decrypt_round_trip() {
    let (ck, _sk) = keys();
    for padding in [0usize, 1, 4] {
        let e = enc(&ck, "hello", padding);
        assert_eq!(dec(&ck, &e), "hello");
    }
    let e = enc(&ck, "", 3);
    assert_eq!(dec(&ck, &e), "");
}

#[test]
fn hidden_length_ignores_padding() {
    let (ck, sk) = keys();
    let e = enc(&ck, "hello", 7);
    let len = sk.len(&e);
    assert_eq!(ck.decrypt_u64(&len), 5);
    let empty = enc(&ck, "", 4);
    assert_eq!(ck.decrypt_u64(&sk.len(&empty)), 0);
}

#[test]
fn is_empty_detects_all_padding() {
    let (ck, sk) = keys();
    assert!(ck.decrypt_bool(&sk.is_empty(&enc(&ck, "", 5))));
    assert!(!ck.decrypt_bool(&sk.is_empty(&enc(&ck, "a", 5))));
}

#[test]
fn contains_with_padded_pattern() {
    let (ck, sk) = keys();
    let s = enc(&ck, "abcdef", 3);
    let p = enc(&ck, "cd", 2);
    assert!(ck.decrypt_bool(&sk.contains(&s, &p)));
    let q = enc(&ck, "ce", 2);
    assert!(!ck.decrypt_bool(&sk.contains(&s, &q)));
    let empty = enc(&ck, "", 2);
    assert!(ck.decrypt_bool(&sk.contains(&s, &empty)));
}

#[test]
fn starts_and_ends_with() {
    let (ck, sk) = keys();
    let s = enc(&ck, "hello", 2);
    assert!(ck.decrypt_bool(&sk.starts_with(&s, &enc(&ck, "he", 1))));
    assert!(!ck.decrypt_bool(&sk.starts_with(&s, &enc(&ck, "el", 0))));
    assert!(ck.decrypt_bool(&sk.ends_with(&s, &enc(&ck, "lo", 1))));
    assert!(!ck.decrypt_bool(&sk.ends_with(&s, &enc(&ck, "he", 0))));
    assert!(ck.decrypt_bool(&sk.ends_with(&s, &enc(&ck, "", 1))));
}

#[test]
fn find_first_occurrence() {
    let (ck, sk) = keys();
    let s = enc(&ck, "ababab", 0);
    let p = enc(&ck, "ab", 2);
    let (index, found) = sk.find(&s, &p);
    assert!(ck.decrypt_bool(&found));
    assert_eq!(ck.decrypt_u64(&index), 0);
    let (_, missing) = sk.find(&s, &enc(&ck, "ba!", 0));
    assert!(!ck.decrypt_bool(&missing));
    let (empty_index, empty_found) = sk.find(&s, &enc(&ck, "", 1));
    assert!(ck.decrypt_bool(&empty_found));
    assert_eq!(ck.decrypt_u64(&empty_index), 0);
}

#[test]
fn rfind_last_occurrence() {
    let (ck, sk) = keys();
    let s = enc(&ck, "ababab", 0);
    let p = enc(&ck, "ab", 2);
    let (index, found) = sk.rfind(&s, &p);
    assert!(ck.decrypt_bool(&found));
    assert_eq!(ck.decrypt_u64(&index), 4);
    let (empty_index, empty_found) = sk.rfind(&s, &enc(&ck, "", 2));
    assert!(ck.decrypt_bool(&empty_found));
    assert_eq!(ck.decrypt_u64(&empty_index), 6);
}

#[test]
fn comparison_family_is_consistent() {
    let (ck, sk) = keys();
    let pairs = [("abc", "abcd"), ("abcd", "abc"), ("abc", "abc"), ("", "a"), ("zb", "za")];
    for (x, y) in pairs {
        let a = enc(&ck, x, 1);
        let b = enc(&ck, y, 2);
        let eq_v = ck.decrypt_bool(&sk.eq(&a, &b));
        let ne_v = ck.decrypt_bool(&sk.ne(&a, &b));
        let lt_v = ck.decrypt_bool(&sk.lt(&a, &b));
        let le_v = ck.decrypt_bool(&sk.le(&a, &b));
        let gt_v = ck.decrypt_bool(&sk.gt(&a, &b));
        let ge_v = ck.decrypt_bool(&sk.ge(&a, &b));
        let lt_ba = ck.decrypt_bool(&sk.lt(&b, &a));
        assert_eq!(eq_v, x == y);
        assert_eq!(ne_v, !eq_v);
        assert_eq!(lt_v, x < y);
        assert_eq!(le_v, !lt_ba);
        assert_eq!(ge_v, !lt_v);
        assert_eq!(gt_v, lt_ba);
    }
}

#[test]
fn lt_clear_inputs() {
    let (ck, sk) = keys();
    let a = FheString::from_str("abc");
    let b = FheString::from_str("abcd");
    assert!(ck.decrypt_bool(&sk.lt(&a, &b)));
    assert!(!ck.decrypt_bool(&sk.lt(&b, &a)));
}

#[test]
fn case_folding() {
    let (ck, sk) = keys();
    let s = enc(&ck, "Hello, World!", 2);
    assert_eq!(dec(&ck, &sk.to_lowercase(&s)), "hello, world!");
    assert_eq!(dec(&ck, &sk.to_uppercase(&s)), "HELLO, WORLD!");
    let a = enc(&ck, "RuSt", 1);
    let b = enc(&ck, "rUsT", 3);
    assert!(ck.decrypt_bool(&sk.eq_ignore_case(&a, &b)));
    let c = enc(&ck, "rusty", 0);
    assert!(!ck.decrypt_bool(&sk.eq_ignore_case(&a, &c)));
}

#[test]
fn trim_family() {
    let (ck, sk) = keys();
    let s = enc(&ck, "  hi \t ", 1);
    assert_eq!(dec(&ck, &sk.trim(&s)), "hi");
    assert_eq!(dec(&ck, &sk.trim_start(&s)), "hi \t ");
    assert_eq!(dec(&ck, &sk.trim_end(&s)), "  hi");
    let r = sk.trim_reusable(&s);
    assert!(r.is_reusable());
    assert_eq!(dec(&ck, &r), "hi");
    let rs = sk.trim_start_reusable(&s);
    assert!(rs.is_reusable());
    assert_eq!(dec(&ck, &rs), "hi \t ");
    let all_ws = enc(&ck, " \t\n", 2);
    assert_eq!(dec(&ck, &sk.trim(&all_ws)), "");
}

#[test]
fn strip_prefix_and_suffix() {
    let (ck, sk) = keys();
    let s = enc(&ck, "hello", 2);
    let (stripped, found) = sk.strip_suffix(&s, &enc(&ck, "lo", 1));
    assert!(ck.decrypt_bool(&found));
    assert_eq!(dec(&ck, &stripped), "hel");
    let (unchanged, missing) = sk.strip_suffix(&s, &enc(&ck, "he", 0));
    assert!(!ck.decrypt_bool(&missing));
    assert_eq!(dec(&ck, &unchanged), "hello");
    let (prefix_stripped, pfound) = sk.strip_prefix(&s, &enc(&ck, "he", 1));
    assert!(ck.decrypt_bool(&pfound));
    assert_eq!(dec(&ck, &prefix_stripped), "llo");
    let (kept, pmissing) = sk.strip_prefix(&s, &enc(&ck, "lo", 0));
    assert!(!ck.decrypt_bool(&pmissing));
    assert_eq!(dec(&ck, &kept), "hello");
}

#[test]
fn split_with_empty_fields() {
    let (ck, sk) = keys();
    let s = enc(&ck, "a,,b,c", 2);
    let p = enc(&ck, ",", 0);
    let (fields, count) = sk.split(&s, &p);
    let n = ck.decrypt_u64(&count);
    assert_eq!(n, 4);
    assert_eq!(dec_fields(&ck, &fields, n), vec!["a", "", "b", "c"]);
}

#[test]
fn split_round_trip_rejoins() {
    let (ck, sk) = keys();
    let text = "one,two,three";
    let s = enc(&ck, text, 1);
    let p = enc(&ck, ",", 0);
    let (fields, count) = sk.split(&s, &p);
    let n = ck.decrypt_u64(&count);
    let joined = dec_fields(&ck, &fields, n).join(",");
    assert_eq!(joined, text);
}

#[test]
fn splitn_caps_fields() {
    let (ck, sk) = keys();
    let s = enc(&ck, "a,b,c,d", 0);
    let p = enc(&ck, ",", 0);
    let (fields, count) = sk.splitn(3, &s, &p);
    let n = ck.decrypt_u64(&count);
    assert_eq!(n, 3);
    assert_eq!(dec_fields(&ck, &fields, n), vec!["a", "b", "c,d"]);
}

#[test]
fn split_reusable_fields_are_reusable() {
    let (ck, sk) = keys();
    let s = enc(&ck, "x:y", 1);
    let p = enc(&ck, ":", 0);
    let (fields, count) = sk.split_reusable(&s, &p);
    let n = ck.decrypt_u64(&count);
    assert_eq!(n, 2);
    for i in 0..n as usize {
        assert!(fields[i].is_reusable());
    }
    assert_eq!(dec_fields(&ck, &fields, n), vec!["x", "y"]);
}

#[test]
fn rsplit_and_once_variants() {
    let (ck, sk) = keys();
    let s = enc(&ck, "a.b.c", 1);
    let p = enc(&ck, ".", 0);
    let (fields, count) = sk.rsplit(&s, &p);
    let n = ck.decrypt_u64(&count);
    assert_eq!(n, 3);
    assert_eq!(dec_fields(&ck, &fields, n), vec!["c", "b", "a"]);
    let (once, found) = sk.split_once(&s, &p);
    assert!(ck.decrypt_bool(&found));
    assert_eq!(dec(&ck, &once[0]), "a");
    assert_eq!(dec(&ck, &once[1]), "b.c");
    let (ronce, rfound) = sk.rsplit_once(&s, &p);
    assert!(ck.decrypt_bool(&rfound));
    assert_eq!(dec(&ck, &ronce[0]), "a.b");
    assert_eq!(dec(&ck, &ronce[1]), "c");
}

#[test]
fn split_terminator_drops_trailing_empty() {
    let (ck, sk) = keys();
    let s = enc(&ck, "a;b;", 1);
    let p = enc(&ck, ";", 0);
    let (fields, count) = sk.split_terminator(&s, &p);
    let n = ck.decrypt_u64(&count);
    assert_eq!(n, 2);
    assert_eq!(dec_fields(&ck, &fields, n), vec!["a", "b"]);
    let s2 = enc(&ck, "a;b", 1);
    let (inc_fields, inc_count) = sk.split_inclusive(&s2, &p);
    let m = ck.decrypt_u64(&inc_count);
    assert_eq!(m, 2);
    assert_eq!(dec_fields(&ck, &inc_fields, m), vec!["a;", "b"]);
}

#[test]
fn whitespace_split_collapses_runs() {
    let (ck, sk) = keys();
    let s = enc(&ck, "  a \t b\n\n c  ", 2);
    let (fields, count) = sk.split_ascii_whitespace(&s);
    let n = ck.decrypt_u64(&count);
    assert_eq!(n, 3);
    assert_eq!(dec_fields(&ck, &fields, n), vec!["a", "b", "c"]);
}

#[test]
fn replacen_caps_replacements() {
    let (ck, sk) = keys();
    let s = enc(&ck, "xxxx", 0);
    let f = enc(&ck, "x", 0);
    let t = enc(&ck, "yy", 0);
    let r = sk.replacen(&s, &f, &t, 2);
    assert_eq!(dec(&ck, &r), "yyyyxx");
}

#[test]
fn replace_all_occurrences() {
    let (ck, sk) = keys();
    let s = enc(&ck, "one two two", 1);
    let f = enc(&ck, "two", 1);
    let t = enc(&ck, "2", 0);
    assert_eq!(dec(&ck, &sk.replace(&s, &f, &t)), "one 2 2");
    let wide = sk.replace(&enc(&ck, "a-a", 0), &enc(&ck, "-", 0), &enc(&ck, "<->", 0));
    assert_eq!(dec(&ck, &wide), "a<->a");
}

#[test]
fn replace_identity_cases() {
    let (ck, sk) = keys();
    let s = enc(&ck, "abcabc", 1);
    let p = enc(&ck, "bc", 0);
    assert_eq!(dec(&ck, &sk.replace(&s, &p, &p)), "abcabc");
    let empty = enc(&ck, "", 0);
    assert_eq!(dec(&ck, &sk.replace(&s, &empty, &empty)), "abcabc");
}

#[test]
fn replace_missing_pattern_keeps_string() {
    let (ck, sk) = keys();
    let s = enc(&ck, "hello world", 2);
    let f = enc(&ck, "xyz", 0);
    let t = enc(&ck, "12", 1);
    assert_eq!(dec(&ck, &sk.replace(&s, &f, &t)), "hello world");
    assert_eq!(dec(&ck, &sk.replacen(&s, &f, &t, 3)), "hello world");
}

#[test]
fn rsplitn_bounded_from_right() {
    let (ck, sk) = keys();
    let s = enc(&ck, "a:b:c", 1);
    let p = enc(&ck, ":", 0);
    let (fields, count) = sk.rsplitn(2, &s, &p);
    let n = ck.decrypt_u64(&count);
    assert_eq!(n, 2);
    assert_eq!(dec_fields(&ck, &fields, n), vec!["c", "a:b"]);
}

#[test]
fn repeat_and_make_reusable() {
    let (ck, sk) = keys();
    let s = enc(&ck, "ab", 2);
    let repeated = sk.repeat(&s, 3);
    assert!(!repeated.is_reusable());
    assert_eq!(dec(&ck, &repeated), "ababab");
    let reusable = sk.repeat_reusable(&s, 3);
    assert!(reusable.is_reusable());
    assert_eq!(dec(&ck, &reusable), "ababab");
    let compacted = sk.make_reusable(&repeated);
    assert!(compacted.is_reusable());
    assert_eq!(dec(&ck, &compacted), "ababab");
    let again = sk.contains(&reusable, &s);
    assert!(ck.decrypt_bool(&again));
}

#[test]
fn string_model_operations() {
    let (ck, sk) = keys();
    let clear = FheString::from_string(&String::from("Hello"));
    assert!(clear.is_clear());
    assert!(!clear.is_encrypted());
    assert!(!clear.is_padded());
    assert!(clear.is_reusable());
    assert_eq!(clear.len(), 5);
    assert_eq!(clear.to_string(), "Hello");
    assert_eq!(clear.slice_to_string(1, 3), "el");
    let sub = clear.sub_string(1, 3);
    assert_eq!(sub.to_string(), "ell");
    let mut rev = clear.clone();
    rev.reverse();
    assert_eq!(rev.to_string(), "olleH");
    let rep = clear.repeat(2);
    assert_eq!(rep.to_string(), "HelloHello");
    let both = FheString::concatenate(&vec![clear.clone(), rep]);
    assert_eq!(both.to_string(), "HelloHelloHello");
    let trivially = sk.trivial_encrypt_str("Hi", 2);
    assert!(trivially.is_encrypted());
    assert!(trivially.is_padded());
    assert_eq!(dec(&ck, &trivially), "Hi");
    let mut padded = ck.encrypt_fhe_string(&clear, 0);
    assert!(!padded.is_padded());
    padded.pad(3, &ServerKey::new(IntegerKey::new()).key);
    assert!(padded.is_padded());
    assert_eq!(padded.len(), 8);
    assert_eq!(dec(&ck, &padded), "Hello");
    let empty = FheString::empty_encrypted();
    assert!(empty.is_encrypted());
    assert_eq!(empty.len(), 0);
}

#[test]
fn strip_prefix_reusable_compacts() {
    let (ck, sk) = keys();
    let s = enc(&ck, "prefix-body", 2);
    let p = enc(&ck, "prefix-", 1);
    let (stripped, found) = sk.strip_prefix_reusable(&s, &p);
    assert!(ck.decrypt_bool(&found));
    assert!(stripped.is_reusable());
    assert_eq!(dec(&ck, &stripped), "body");
    let (kept, missing) = sk.strip_prefix_reusable(&s, &enc(&ck, "body", 0));
    assert!(!ck.decrypt_bool(&missing));
    assert!(kept.is_reusable());
    assert_eq!(dec(&ck, &kept), "prefix-body");
}

#[test]
fn mixed_clear_and_encrypted_operands() {
    let (ck, sk) = keys();
    let enc_s = enc(&ck, "apple", 2);
    let clear_p = FheString::from_str("app");
    assert!(ck.decrypt_bool(&sk.starts_with(&enc_s, &clear_p)));
    assert!(ck.decrypt_bool(&sk.lt(&enc_s, &FheString::from_str("apq"))));
    assert!(ck.decrypt_bool(&sk.lt(&FheString::from_str("appl"), &enc_s)));
    assert!(ck.decrypt_bool(&sk.eq(&enc_s, &FheString::from_str("apple"))));
}

#[test]
fn reverse_and_concatenate_flags() {
    let (ck, sk) = keys();
    let mut padded = enc(&ck, "ab", 2);
    padded.reverse();
    assert!(!padded.is_reusable());
    let unpadded = enc(&ck, "cd", 0);
    let joined = FheString::concatenate(&vec![unpadded.clone(), enc(&ck, "ef", 1)]);
    assert!(joined.is_reusable());
    assert_eq!(dec(&ck, &joined), "cdef");
    let tangled = FheString::concatenate(&vec![enc(&ck, "gh", 1), unpadded]);
    assert!(!tangled.is_reusable());
    let repaired = sk.make_reusable(&tangled);
    assert_eq!(dec(&ck, &repaired), "ghcd");
}

#[test]
fn sub_string_of_encrypted() {
    let (ck, _sk) = keys();
    let s = enc(&ck, "window", 1);
    let mid = s.sub_string(1, 3);
    assert!(mid.is_padded());
    assert_eq!(dec(&ck, &mid), "ind");
}

#[test]
fn empty_pattern_split_yields_characters() {
    let (ck, sk) = keys();
    let s = enc(&ck, "ab", 0);
    let p = enc(&ck, "", 0);
    let (fields, count) = sk.split(&s, &p);
    let n = ck.decrypt_u64(&count);
    assert_eq!(n, 4);
    assert_eq!(dec_fields(&ck, &fields, n), vec!["", "a", "b", ""]);
}

#[test]
fn byte_and_bool_ciphertexts() {
    let ck = ClientKey::new(RadixClientKey::new());
    let c = ck.encrypt_u8(&42);
    assert_eq!(ck.decrypt_u8(&c), 42);
    assert_eq!(ck.decrypt_u64(&c), 42);
}
