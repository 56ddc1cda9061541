use vaultmesh::digest::{digest, keyed_digest, to_hex};

#[test]
fn empty_input_has_the_blake3_empty_digest() {
    let d = digest(b"");
    assert_eq!(
        to_hex(&d),
        "af1349b9f5f9a1a6a0404dea36dcc9499bcb25c9adc112b7cc9a93cae41f3262"
    );
}

#[test]
fn digest_matches_blake3_and_is_stable() {
    let input = b"receipt bytes";
    assert_eq!(digest(input), *blake3::hash(input).as_bytes());
    assert_eq!(digest(input), digest(input));
    assert_ne!(digest(b"abc"), digest(b"abd"));
}

#[test]
fn keyed_digest_matches_blake3_keyed_hash() {
    let key = [7u8; 32];
    let d = keyed_digest(&key, b"message");
    assert_eq!(d, *blake3::keyed_hash(&key, b"message").as_bytes());
    assert_ne!(d, key);
    assert_ne!(d, digest(b"message"));
    assert_ne!(keyed_digest(&[8u8; 32], b"message"), d);
}

#[test]
fn hex_encoding_is_two_lowercase_digits_per_byte() {
    assert_eq!(to_hex(&[]), "");
    assert_eq!(to_hex(&[0x00, 0xff, 0x1a, 0x09, 0xa0]), "00ff1a09a0");
}
