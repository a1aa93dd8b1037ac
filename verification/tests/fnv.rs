use city_stats::fnv::{fingerprint_of, fnv_hash_byte, hash_bytes, FNV_OFFSET, FNV_PRIME};

#[test]
fn constants_are_the_fnv_64_parameters() {
    assert_eq!(FNV_OFFSET, 0xcbf29ce484222325);
    assert_eq!(FNV_PRIME, 0x100000001b3);
}

#[test]
fn one_round_xors_then_multiplies() {
    let mut hash = FNV_OFFSET;
    fnv_hash_byte(b'a', &mut hash);
    assert_eq!(hash, 0xaf63dc4c8601ec8c);
    let mut small = 1u64;
    fnv_hash_byte(3, &mut small);
    assert_eq!(small, 2 * FNV_PRIME);
}

#[test]
fn hashes_known_strings() {
    assert_eq!(hash_bytes(b""), 0xcbf29ce484222325);
    assert_eq!(hash_bytes(b"a"), 0xaf63dc4c8601ec8c);
    assert_eq!(hash_bytes(b"foobar"), 0x85944171f73967e8);
}

#[test]
fn hashing_is_order_sensitive() {
    assert_ne!(hash_bytes(b"ab"), hash_bytes(b"ba"));
}

#[test]
fn hashing_byte_by_byte_is_hashing_the_slice() {
    let mut hash = FNV_OFFSET;
    for byte in b"Hamburg" {
        fnv_hash_byte(*byte, &mut hash);
    }
    assert_eq!(hash, hash_bytes(b"Hamburg"));
}

#[test]
fn fingerprint_adds_a_round_for_the_length() {
    let mut expected = hash_bytes(b"Oslo");
    fnv_hash_byte(4, &mut expected);
    assert_eq!(fingerprint_of(b"Oslo"), expected);
    let mut empty = FNV_OFFSET;
    fnv_hash_byte(0, &mut empty);
    assert_eq!(fingerprint_of(b""), empty);
}

#[test]
fn fingerprint_takes_the_length_modulo_256() {
    let long = vec![b'x'; 300];
    let mut expected = hash_bytes(&long);
    fnv_hash_byte(44, &mut expected);
    assert_eq!(fingerprint_of(&long), expected);
}
