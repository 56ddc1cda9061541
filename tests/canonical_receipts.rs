use vaultmesh::canonical::{check_text, Receipt, ReceiptError, Value};
use vaultmesh::receipts_engine::hash_receipt;

fn receipt(fields: &[(&[u8], Value)]) -> Receipt {
    let mut r = Receipt::new();
    for (k, v) in fields {
        let v = match v {
            Value::Int(n) => Value::Int(*n),
            Value::Text(t) => Value::Text(t.clone()),
        };
        r.insert(k, v).unwrap();
    }
    r
}

#[test]
fn field_order_does_not_change_the_encoding() {
    let a = receipt(&[(b"id", Value::Int(1)), (b"amount", Value::Int(100))]);
    let b = receipt(&[(b"amount", Value::Int(100)), (b"id", Value::Int(1))]);
    assert_eq!(a.canonicalize(), br#"{"amount":100,"id":1}"#.to_vec());
    assert_eq!(a.canonicalize(), b.canonicalize());
    assert_eq!(a.digest(), b.digest());
    assert_eq!(a.digest_hex(), b.digest_hex());
}

#[test]
fn scenario_equal_receipts_hash_alike_and_a_changed_id_differs() {
    let a = receipt(&[(b"id", Value::Int(1)), (b"amount", Value::Int(100))]);
    let b = receipt(&[(b"amount", Value::Int(100)), (b"id", Value::Int(1))]);
    let c = receipt(&[(b"id", Value::Int(2)), (b"amount", Value::Int(100))]);
    assert_eq!(a.canonicalize(), b.canonicalize());
    assert_eq!(a.digest(), b.digest());
    assert_ne!(c.digest(), a.digest());
    assert_ne!(c.digest(), b.digest());
    // the digest is the hash of the canonical bytes
    assert_eq!(a.digest_hex(), hash_receipt(br#"{"amount":100,"id":1}"#));
}

#[test]
fn digest_is_stable_across_calls() {
    let a = receipt(&[(b"id", Value::Int(1)), (b"note", Value::Text(b"ok".to_vec()))]);
    assert_eq!(a.digest(), a.digest());
    let again = receipt(&[(b"note", Value::Text(b"ok".to_vec())), (b"id", Value::Int(1))]);
    assert_eq!(a.digest(), again.digest());
}

#[test]
fn one_character_change_changes_the_digest() {
    let a = receipt(&[(b"id", Value::Int(1)), (b"note", Value::Text(b"paid".to_vec()))]);
    let b = receipt(&[(b"id", Value::Int(1)), (b"note", Value::Text(b"paif".to_vec()))]);
    assert_ne!(a.canonicalize(), b.canonicalize());
    assert_ne!(a.digest(), b.digest());
}

#[test]
fn integers_and_text_are_encoded_canonically() {
    let r = receipt(&[
        (b"z", Value::Int(-5)),
        (b"a", Value::Text(b"hello world".to_vec())),
        (b"m", Value::Int(0)),
        (b"min", Value::Int(i64::MIN)),
        (b"max", Value::Int(i64::MAX)),
    ]);
    assert_eq!(
        r.canonicalize(),
        br#"{"a":"hello world","m":0,"max":9223372036854775807,"min":-9223372036854775808,"z":-5}"#
            .to_vec()
    );
    assert_eq!(r.len(), 5);
}

#[test]
fn empty_receipt_encodes_as_empty_object() {
    let r = Receipt::new();
    assert_eq!(r.canonicalize(), b"{}".to_vec());
    assert_eq!(r.len(), 0);
}

#[test]
fn keys_order_bytewise_with_prefix_first() {
    let r = receipt(&[(b"ab", Value::Int(2)), (b"a", Value::Int(1)), (b"B", Value::Int(3))]);
    assert_eq!(r.canonicalize(), br#"{"B":3,"a":1,"ab":2}"#.to_vec());
}

#[test]
fn duplicate_key_is_malformed_and_changes_nothing() {
    let mut r = receipt(&[(b"id", Value::Int(1))]);
    assert_eq!(r.insert(b"id", Value::Int(2)), Err(ReceiptError::MalformedReceipt));
    assert_eq!(r.canonicalize(), br#"{"id":1}"#.to_vec());
}

#[test]
fn disallowed_characters_are_malformed() {
    let mut r = Receipt::new();
    assert_eq!(r.insert(b"bad\"key", Value::Int(1)), Err(ReceiptError::MalformedReceipt));
    assert_eq!(
        r.insert(b"note", Value::Text(b"back\\slash".to_vec())),
        Err(ReceiptError::MalformedReceipt)
    );
    assert_eq!(r.insert(b"tab\t", Value::Int(1)), Err(ReceiptError::MalformedReceipt));
    assert_eq!(
        r.insert(b"note", Value::Text(vec![0xc3, 0xa9])),
        Err(ReceiptError::MalformedReceipt)
    );
    assert_eq!(r.len(), 0);
    assert!(check_text(b"plain text ~!"));
    assert!(!check_text(b"line\n"));
}
