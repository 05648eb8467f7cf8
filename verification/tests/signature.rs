use bybit::digest::hmac_sha256_hex;
use bybit::signer::{base_string, generate_signature};
use bybit::Params;

fn params(pairs: &[(&str, &str)]) -> Params {
    let mut p = Params::new();
    for (k, v) in pairs {
        p.insert(k.to_string(), v.to_string());
    }
    p
}

#[test]
fn base_string_of_two_parameters() {
    let p = params(&[("a", "1"), ("b", "2")]);
    assert_eq!(base_string("k", "50000", &p, "1000"), "1000k50000a=1b=2");
}

#[test]
fn signature_matches_known_vector() {
    let p = params(&[("a", "1"), ("b", "2")]);
    assert_eq!(
        generate_signature("s", "k", "50000", &p, "1000"),
        "84f72294f56952ba479c35d7a8be0089af31495159ff1766c95e2d5dbd569a18"
    );
}

#[test]
fn signature_without_parameters() {
    let p = Params::new();
    assert_eq!(base_string("k", "50000", &p, "1000"), "1000k50000");
    assert_eq!(
        generate_signature("s", "k", "50000", &p, "1000"),
        "8a7651afd65d5bedb66cec76636aac8f6b5fe05f51c0be76b47c058229b55071"
    );
}

#[test]
fn signature_of_realistic_request() {
    let p = params(&[("symbol", "BTCUSDT"), ("category", "linear")]);
    assert_eq!(
        base_string("key", "50000", &p, "1700000000000"),
        "1700000000000key50000category=linearsymbol=BTCUSDT"
    );
    assert_eq!(
        generate_signature("secret", "key", "50000", &p, "1700000000000"),
        "10e754e16263a001e11ee66fa3df8e82b935666a98db7fd7fab751cca0cceb4b"
    );
}

#[test]
fn signature_is_deterministic() {
    let p = params(&[("a", "1"), ("b", "2")]);
    let q = params(&[("a", "1"), ("b", "2")]);
    let first = generate_signature("s", "k", "50000", &p, "1000");
    let second = generate_signature("s", "k", "50000", &p, "1000");
    let third = generate_signature("s", "k", "50000", &q, "1000");
    assert_eq!(first, second);
    assert_eq!(first, third);
}

#[test]
fn signature_is_sensitive_to_timestamp() {
    let p = params(&[("a", "1"), ("b", "2")]);
    assert_eq!(
        generate_signature("s", "k", "50000", &p, "1001"),
        "4d315077e53cb07e2fe4101025ff9324b815299bb221bbad9bd5dfb4204180f3"
    );
    assert_ne!(
        generate_signature("s", "k", "50000", &p, "1001"),
        generate_signature("s", "k", "50000", &p, "1000")
    );
}

#[test]
fn signature_is_sensitive_to_value() {
    let p = params(&[("a", "1"), ("b", "2")]);
    let q = params(&[("a", "1"), ("b", "3")]);
    assert_eq!(
        generate_signature("s", "k", "50000", &q, "1000"),
        "06218c1e78ada107270af4da66c9d700b3184aba406ed61c4ba925025d76cf8f"
    );
    assert_ne!(
        generate_signature("s", "k", "50000", &p, "1000"),
        generate_signature("s", "k", "50000", &q, "1000")
    );
}

#[test]
fn signature_is_sensitive_to_key_and_credentials() {
    let p = params(&[("a", "1"), ("b", "2")]);
    let q = params(&[("a", "1"), ("c", "2")]);
    let expected = generate_signature("s", "k", "50000", &p, "1000");
    assert_ne!(expected, generate_signature("s", "k", "50000", &q, "1000"));
    assert_ne!(expected, generate_signature("t", "k", "50000", &p, "1000"));
    assert_ne!(expected, generate_signature("s", "j", "50000", &p, "1000"));
    assert_ne!(expected, generate_signature("s", "k", "5000", &p, "1000"));
}

#[test]
fn renamed_key_can_leave_the_message_unchanged() {
    let p = params(&[("==Z", "="), ("==Z=", "==")]);
    let q = params(&[("Z==", "="), ("==Z=", "==")]);
    assert_eq!(base_string("k", "50000", &p, "1000"), "1000k50000==Z====Z====");
    assert_eq!(
        base_string("k", "50000", &p, "1000"),
        base_string("k", "50000", &q, "1000")
    );
    assert_eq!(
        generate_signature("s", "k", "50000", &p, "1000"),
        generate_signature("s", "k", "50000", &q, "1000")
    );
}

#[test]
fn signature_ignores_insertion_order() {
    let p = params(&[("a", "1"), ("b", "2"), ("c", "3")]);
    let q = params(&[("c", "3"), ("a", "1"), ("b", "2")]);
    let r = Params::from_pairs(&[
        ("b".to_string(), "2".to_string()),
        ("c".to_string(), "3".to_string()),
        ("a".to_string(), "1".to_string()),
    ]);
    let expected = generate_signature("s", "k", "50000", &p, "1000");
    assert_eq!(base_string("k", "50000", &q, "1000"), "1000k50000a=1b=2c=3");
    assert_eq!(expected, generate_signature("s", "k", "50000", &q, "1000"));
    assert_eq!(expected, generate_signature("s", "k", "50000", &r, "1000"));
}

#[test]
fn signature_is_lowercase_hex_of_32_bytes() {
    let p = params(&[("a", "1")]);
    let sig = generate_signature("s", "k", "50000", &p, "1000");
    assert_eq!(sig.len(), 64);
    assert!(sig.chars().all(|c| c.is_ascii_digit() || ('a'..='f').contains(&c)));
}

#[test]
fn hmac_hex_known_vectors() {
    assert_eq!(
        hmac_sha256_hex(b"key", b"The quick brown fox jumps over the lazy dog"),
        "f7bc83f430538424b13298e6aa6fb143ef4d59a14946175997479dbc2d1a3cd8"
    );
    assert_eq!(
        hmac_sha256_hex(b"", b""),
        "b613679a0814d9ec772f95d778c35fc5ff1697c493715653c6c712144292c5ad"
    );
}

#[test]
fn hmac_accepts_long_keys() {
    let key = vec![0xaau8; 131];
    let code = hmac_sha256_hex(&key, b"Test Using Larger Than Block-Size Key - Hash Key First");
    assert_eq!(code, "60e431591ee0b67f0d8a26aacbf5b77f8e0bc6213728c5140546040f0ee37f54");
}

#[test]
fn keys_are_signed_in_byte_order() {
    let p = params(&[("a", "1"), ("B", "2"), ("\u{e9}", "3"), ("z", "4"), ("ab", "5")]);
    assert_eq!(
        base_string("k", "50000", &p, "1"),
        "1k50000B=2a=1ab=5z=4\u{e9}=3"
    );
}
