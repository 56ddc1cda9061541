use vaultmesh::canonical::{ReceiptError, Value};
use vaultmesh::json::{canonicalize_json, digest_json, parse_receipt};
use vaultmesh::receipts_engine::hash_receipt;

#[test]
fn scenario_reordered_json_canonicalizes_and_hashes_identically() {
    let a = br#"{"id":1,"amount":100}"#;
    let b = br#"{"amount":100,"id":1}"#;
    let c = br#"{"id":2,"amount":100}"#;
    let ca = canonicalize_json(a).unwrap();
    assert_eq!(ca, br#"{"amount":100,"id":1}"#.to_vec());
    assert_eq!(ca, canonicalize_json(b).unwrap());
    assert_eq!(digest_json(a).unwrap(), digest_json(b).unwrap());
    assert_ne!(digest_json(c).unwrap(), digest_json(a).unwrap());
    assert_ne!(digest_json(c).unwrap(), digest_json(b).unwrap());
}

#[test]
fn canonical_digest_is_the_hash_of_the_canonical_bytes() {
    let d = digest_json(b"{ \"id\" : 1 , \"amount\" : 100 }").unwrap();
    assert_eq!(
        vaultmesh::digest::to_hex(&d),
        hash_receipt(br#"{"amount":100,"id":1}"#)
    );
}

#[test]
fn whitespace_is_insignificant() {
    let spaced = b"\n\t{ \"note\" :\r\n \"two words\" ,\"n\":  -42 }  \n";
    assert_eq!(
        canonicalize_json(spaced).unwrap(),
        br#"{"n":-42,"note":"two words"}"#.to_vec()
    );
    assert_eq!(canonicalize_json(b" { } ").unwrap(), b"{}".to_vec());
}

#[test]
fn integers_are_read_within_i64() {
    let r = parse_receipt(br#"{"lo":-9223372036854775808,"hi":9223372036854775807,"z":0,"m":-0}"#)
        .unwrap();
    assert_eq!(r.len(), 4);
    assert_eq!(
        r.canonicalize(),
        br#"{"hi":9223372036854775807,"lo":-9223372036854775808,"m":0,"z":0}"#.to_vec()
    );
    assert_eq!(
        parse_receipt(br#"{"x":9223372036854775808}"#).err(),
        Some(ReceiptError::MalformedReceipt)
    );
    assert_eq!(
        parse_receipt(br#"{"x":-9223372036854775809}"#).err(),
        Some(ReceiptError::MalformedReceipt)
    );
    assert_eq!(
        parse_receipt(br#"{"x":123456789012345678901234567890}"#).err(),
        Some(ReceiptError::MalformedReceipt)
    );
}

#[test]
fn parsed_receipt_accepts_further_fields() {
    let mut r = parse_receipt(br#"{"id":7}"#).unwrap();
    r.insert(b"amount", Value::Int(5)).unwrap();
    assert_eq!(r.canonicalize(), br#"{"amount":5,"id":7}"#.to_vec());
}

#[test]
fn malformed_documents_are_rejected() {
    let bad: [&[u8]; 16] = [
        b"",
        b"   ",
        b"{",
        b"}",
        b"[1]",
        br#"{"id":1,"id":2}"#,
        br#"{"id":01}"#,
        br#"{"id":1.5}"#,
        br#"{"id":true}"#,
        br#"{"id":-}"#,
        br#"{"id":1,}"#,
        br#"{"id" 1}"#,
        br#"{id:1}"#,
        br#"{"a\"b":1}"#,
        br#"{"id":1} x"#,
        br#"{"id":1}{"id":2}"#,
    ];
    for doc in bad.iter() {
        assert_eq!(
            canonicalize_json(doc).err(),
            Some(ReceiptError::MalformedReceipt),
            "{:?}",
            String::from_utf8_lossy(doc)
        );
        assert_eq!(digest_json(doc).err(), Some(ReceiptError::MalformedReceipt));
    }
}
