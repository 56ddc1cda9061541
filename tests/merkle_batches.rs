use vaultmesh::digest::digest;
use vaultmesh::merkle::{node_digest, verify_proof, MerkleBatch, MerkleError};

fn sealed(leaves: &[[u8; 32]]) -> (MerkleBatch, [u8; 32]) {
    let mut b = MerkleBatch::new();
    for l in leaves {
        b.append(*l).unwrap();
    }
    let root = b.seal();
    (b, root)
}

fn leaves(n: usize) -> Vec<[u8; 32]> {
    (0..n).map(|i| digest(format!("receipt {}", i).as_bytes())).collect()
}

#[test]
fn empty_batch_seals_to_zero_sentinel() {
    let (_, root) = sealed(&[]);
    assert_eq!(root, [0u8; 32]);
}

#[test]
fn single_leaf_batch_seals_to_the_leaf() {
    let l = digest(b"only");
    let (b, root) = sealed(&[l]);
    assert_eq!(root, l);
    let p = b.prove(0).unwrap();
    assert!(p.is_empty());
    assert!(verify_proof(&l, &p, &root));
}

#[test]
fn three_leaves_pair_the_odd_one_with_itself() {
    let ls = leaves(3);
    let (_, root) = sealed(&ls);
    let left = node_digest(&ls[0], &ls[1]);
    let right = node_digest(&ls[2], &ls[2]);
    assert_eq!(root, node_digest(&left, &right));
}

#[test]
fn node_digest_hashes_the_concatenation() {
    let a = digest(b"a");
    let b = digest(b"b");
    let mut cat = a.to_vec();
    cat.extend_from_slice(&b);
    assert_eq!(node_digest(&a, &b), digest(&cat));
    assert_ne!(node_digest(&a, &b), node_digest(&b, &a));
}

#[test]
fn every_leaf_proves_against_the_root() {
    for n in 1..=9 {
        let ls = leaves(n);
        let (b, root) = sealed(&ls);
        for (i, l) in ls.iter().enumerate() {
            let p = b.prove(i).unwrap();
            assert!(verify_proof(l, &p, &root), "n = {}, i = {}", n, i);
        }
    }
}

#[test]
fn tampered_sibling_or_root_is_rejected() {
    let ls = leaves(5);
    let (b, root) = sealed(&ls);
    for i in 0..5 {
        let p = b.prove(i).unwrap();
        for s in 0..p.len() {
            let mut q = p.clone();
            q[s].sibling[0] ^= 1;
            assert!(!verify_proof(&ls[i], &q, &root));
        }
        let mut other = root;
        other[31] ^= 0x80;
        assert!(!verify_proof(&ls[i], &p, &other));
        assert!(!verify_proof(&ls[(i + 1) % 5], &p, &root));
    }
}

#[test]
fn append_after_seal_is_refused() {
    let (mut b, root) = sealed(&leaves(2));
    assert_eq!(b.append(digest(b"late")), Err(MerkleError::BatchSealed));
    assert_eq!(b.len(), 2);
    assert_eq!(b.seal(), root);
    assert!(b.is_sealed_batch());
}

#[test]
fn proofs_need_a_sealed_batch_and_a_valid_index() {
    let mut b = MerkleBatch::new();
    b.append(digest(b"x")).unwrap();
    assert!(!b.is_sealed_batch());
    assert_eq!(b.prove(0), Err(MerkleError::UnsealedTree));
    b.seal();
    assert_eq!(b.prove(1), Err(MerkleError::IndexOutOfRange));
    assert!(b.prove(0).is_ok());
}

#[test]
fn sealing_twice_gives_the_same_root() {
    let ls = leaves(4);
    let mut b = MerkleBatch::new();
    for l in &ls {
        b.append(*l).unwrap();
    }
    let r1 = b.seal();
    let r2 = b.seal();
    assert_eq!(r1, r2);
    let l01 = node_digest(&ls[0], &ls[1]);
    let l23 = node_digest(&ls[2], &ls[3]);
    assert_eq!(r1, node_digest(&l01, &l23));
}
