use vaultmesh::receipts_engine::hash_receipt;

#[test]
fn hashes_are_stable_for_same_input() {
    let a = br#"{"id":1,"amount":100}"#;
    let b = br#"{"id":1,"amount":100}"#;
    assert_eq!(hash_receipt(a), hash_receipt(b));
}

#[test]
fn hashes_differ_for_different_input() {
    let a = br#"{"id":1,"amount":100}"#;
    let b = br#"{"id":2,"amount":100}"#;
    assert_ne!(hash_receipt(a), hash_receipt(b));
}

#[test]
fn hash_receipt_is_lowercase_hex_of_blake3() {
    assert_eq!(
        hash_receipt(b""),
        "af1349b9f5f9a1a6a0404dea36dcc9499bcb25c9adc112b7cc9a93cae41f3262"
    );
    let h = hash_receipt(br#"{"id":1,"amount":100}"#);
    assert_eq!(h.len(), 64);
    assert!(h.chars().all(|c| c.is_ascii_hexdigit() && !c.is_ascii_uppercase()));
}
