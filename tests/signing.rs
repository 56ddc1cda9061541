use vaultmesh::digest::{digest, keyed_digest};
use vaultmesh::merkle::MerkleBatch;
use vaultmesh::pq_signer;
use vaultmesh::signer::{
    commit_batch, is_operational, sign_digest, verify_attestation, verify_digest, Algorithm,
    SignError, Signature,
};

const KEY: [u8; 32] = [42u8; 32];

#[test]
fn pq_sign_is_not_implemented() {
    assert_eq!(
        pq_signer::sign(b"msg"),
        Err("pq_signer feature enabled but signer not implemented")
    );
}

#[test]
fn pq_sign_fails_alike_for_every_message() {
    assert_eq!(pq_signer::sign(b"abc"), pq_signer::sign(b""));
    assert_eq!(pq_signer::sign(&[0u8; 1000]), pq_signer::sign(b"abc"));
    assert!(pq_signer::sign(b"abc").is_err());
}

#[test]
fn keyed_signature_round_trips() {
    for i in 0..8u8 {
        let d = digest(&[i]);
        let sig = sign_digest(Algorithm::KeyedBlake3, &KEY, &d).unwrap();
        assert_eq!(sig.algorithm, Algorithm::KeyedBlake3);
        assert_eq!(sig.bytes, keyed_digest(&KEY, &d).to_vec());
        assert_eq!(verify_digest(&KEY, &d, &sig), Ok(true));
    }
}

#[test]
fn flipped_signature_byte_is_rejected() {
    let d = digest(b"root");
    let sig = sign_digest(Algorithm::KeyedBlake3, &KEY, &d).unwrap();
    for i in 0..sig.bytes.len() {
        let mut bytes = sig.bytes.clone();
        bytes[i] ^= 0x01;
        let bad = Signature { algorithm: Algorithm::KeyedBlake3, bytes };
        assert_eq!(verify_digest(&KEY, &d, &bad), Ok(false));
    }
    assert_eq!(verify_digest(&[1u8; 32], &d, &sig), Ok(false));
    assert_eq!(verify_digest(&KEY, &digest(b"other"), &sig), Ok(false));
}

#[test]
fn wrong_length_signature_is_malformed() {
    let d = digest(b"root");
    let short = Signature { algorithm: Algorithm::KeyedBlake3, bytes: vec![0u8; 31] };
    assert_eq!(verify_digest(&KEY, &d, &short), Err(SignError::MalformedSignature));
    let long = Signature { algorithm: Algorithm::KeyedBlake3, bytes: vec![0u8; 33] };
    assert_eq!(verify_digest(&KEY, &d, &long), Err(SignError::MalformedSignature));
}

#[test]
fn unavailable_algorithm_fails_with_a_typed_error() {
    let d = digest(b"root");
    assert!(is_operational(Algorithm::KeyedBlake3));
    assert!(!is_operational(Algorithm::MlDsa));
    assert_eq!(
        sign_digest(Algorithm::MlDsa, &KEY, &d),
        Err(SignError::SigningUnavailable)
    );
    let sig = Signature { algorithm: Algorithm::MlDsa, bytes: vec![0u8; 32] };
    assert_eq!(verify_digest(&KEY, &d, &sig), Err(SignError::SigningUnavailable));
}

#[test]
fn commit_and_verify_an_attestation() {
    let leaves: Vec<[u8; 32]> = (0..3u8).map(|i| digest(&[i])).collect();
    let mut b = MerkleBatch::new();
    for l in &leaves {
        b.append(*l).unwrap();
    }
    let att = commit_batch(&mut b, Algorithm::KeyedBlake3, &KEY, b"node-1").unwrap();
    assert!(b.is_sealed_batch());
    assert_eq!(att.signer, b"node-1".to_vec());
    assert_eq!(att.root, b.seal());
    for (i, l) in leaves.iter().enumerate() {
        let p = b.prove(i).unwrap();
        assert_eq!(verify_attestation(&att, &KEY, l, &p), Ok(true));
        assert_eq!(verify_attestation(&att, &[0u8; 32], l, &p), Ok(false));
        assert_eq!(verify_attestation(&att, &KEY, &digest(b"stranger"), &p), Ok(false));
    }
}

#[test]
fn commit_under_unavailable_algorithm_leaves_batch_open() {
    let mut b = MerkleBatch::new();
    b.append(digest(b"a")).unwrap();
    assert_eq!(
        commit_batch(&mut b, Algorithm::MlDsa, &KEY, b"node-1"),
        Err(SignError::SigningUnavailable)
    );
    assert!(!b.is_sealed_batch());
    assert!(b.append(digest(b"b")).is_ok());
    assert!(commit_batch(&mut b, Algorithm::KeyedBlake3, &KEY, b"node-1").is_ok());
}
