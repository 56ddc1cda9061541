//! Algorithm-tagged signing and verification of digests, and attestations
//! that bind a signature to a sealed batch's root.
//!
//! `KeyedBlake3` is operational: its signature is the keyed BLAKE3 hash of the
//! message digest, and the verification key is the signing key itself.
//! `MlDsa` (post-quantum, lattice-based) is declared but not yet operational:
//! signing under it always fails with `SigningUnavailable`.
use vstd::prelude::*;
use crate::digest::{keyed_blake3_of, keyed_digest};
use crate::merkle::{path_root, root_of, steps_view, verify_proof, MerkleBatch, ProofStep};
use crate::canonical::copy_bytes;
use crate::pq_signer;

verus! {

/// Length in bytes of a `KeyedBlake3` signature.
pub const SIGNATURE_LEN: usize = 32;

#[derive(Debug, Clone, Copy, PartialEq, Eq, Structural)]
pub enum Algorithm {
    KeyedBlake3,
    MlDsa,
}

#[derive(Debug, Clone, Copy, PartialEq, Eq, Structural)]
pub enum SignError {
    /// The algorithm is declared but has no implementation.
    SigningUnavailable,
    /// The signature bytes do not have the algorithm's shape.
    MalformedSignature,
}

/// Signature bytes with the algorithm that produced them.
#[derive(Debug, PartialEq, Eq)]
pub struct Signature {
    pub algorithm: Algorithm,
    pub bytes: Vec<u8>,
}

/// A signed commitment to a batch root.
#[derive(Debug, PartialEq, Eq)]
pub struct Attestation {
    pub root: [u8; 32],
    pub signature: Signature,
    pub signer: Vec<u8>,
}

/// Whether signing under `alg` is implemented.
pub open spec fn operational(alg: Algorithm) -> bool {
    alg == Algorithm::KeyedBlake3
}

/// What verification answers for signature bytes `sig` under `alg`.
pub open spec fn verify_outcome(alg: Algorithm, key: Seq<u8>, message: Seq<u8>, sig: Seq<u8>) -> Result<
    bool,
    SignError,
> {
    if !operational(alg) {
        Err(SignError::SigningUnavailable)
    } else if sig.len() != SIGNATURE_LEN {
        Err(SignError::MalformedSignature)
    } else {
        Ok(sig == keyed_blake3_of(key, message))
    }
}

/// Whether signing under `alg` is implemented.
pub fn is_operational(alg: Algorithm) -> (r: bool)
    ensures
        r == operational(alg),
{
    match alg {
        Algorithm::KeyedBlake3 => true,
        Algorithm::MlDsa => false,
    }
}

/// Signs a message digest. Under an operational algorithm this succeeds with
/// the algorithm's signature; under a declared-unavailable one it fails with
/// `SigningUnavailable` and yields no signature at all.
pub fn sign_digest(algorithm: Algorithm, secret_key: &[u8; 32], message: &[u8; 32]) -> (r: Result<
    Signature,
    SignError,
>)
    ensures
        operational(algorithm) <==> r is Ok,
        r is Ok ==> r->Ok_0.algorithm == algorithm && r->Ok_0.bytes@ == keyed_blake3_of(
            secret_key@,
            message@,
        ) && r->Ok_0.bytes@.len() == SIGNATURE_LEN,
        r is Err ==> r == Err::<Signature, SignError>(SignError::SigningUnavailable),
{
    match algorithm {
        Algorithm::KeyedBlake3 => {
            let mac = keyed_digest(secret_key, message);
            let mut bytes: Vec<u8> = Vec::with_capacity(SIGNATURE_LEN);
            let mut i: usize = 0;
            while i < SIGNATURE_LEN
                invariant
                    i <= 32,
                    bytes@ == mac@.subrange(0, i as int),
                decreases 32 - i,
            {
                bytes.push(mac[i]);
                i = i + 1;
            }
            assert(bytes@ =~= mac@);
            Ok(Signature { algorithm, bytes })
        },
        Algorithm::MlDsa => match pq_signer::sign(message) {
            Ok(bytes) => Ok(Signature { algorithm, bytes }),
            Err(_) => Err(SignError::SigningUnavailable),
        },
    }
}

/// Checks a signature over a message digest. A well-formed signature that
/// does not match gives `Ok(false)`; bytes of the wrong length give
/// `MalformedSignature`; a declared-unavailable algorithm gives
/// `SigningUnavailable`.
pub fn verify_digest(public_key: &[u8; 32], message: &[u8; 32], signature: &Signature) -> (r: Result<
    bool,
    SignError,
>)
    ensures
        r == verify_outcome(signature.algorithm, public_key@, message@, signature.bytes@),
{
    match signature.algorithm {
        Algorithm::MlDsa => Err(SignError::SigningUnavailable),
        Algorithm::KeyedBlake3 => {
            if signature.bytes.len() != SIGNATURE_LEN {
                return Err(SignError::MalformedSignature);
            }
            let expected = keyed_digest(public_key, message);
            // every byte is compared, whatever the earlier ones gave
            let mut same = true;
            let mut i: usize = 0;
            while i < SIGNATURE_LEN
                invariant
                    i <= 32,
                    signature.bytes@.len() == 32,
                    same == (forall|t: int| 0 <= t < i ==> signature.bytes@[t] == expected@[t]),
                decreases 32 - i,
            {
                if signature.bytes[i] != expected[i] {
                    same = false;
                }
                i = i + 1;
            }
            if same {
                assert(signature.bytes@ =~= expected@);
            }
            Ok(same)
        },
    }
}

/// Seals `batch` and signs its root, as one step. Under a declared-unavailable
/// algorithm nothing happens: the batch is left as it was (still open if it
/// was open) and the call fails with `SigningUnavailable`.
pub fn commit_batch(
    batch: &mut MerkleBatch,
    algorithm: Algorithm,
    secret_key: &[u8; 32],
    signer: &[u8],
) -> (r: Result<Attestation, SignError>)
    requires
        old(batch).wf(),
    ensures
        final(batch).wf(),
        final(batch).leaves() == old(batch).leaves(),
        operational(algorithm) <==> r is Ok,
        r is Err ==> r == Err::<Attestation, SignError>(SignError::SigningUnavailable),
        r is Err ==> *final(batch) == *old(batch),
        r is Ok ==> final(batch).is_sealed() && r->Ok_0.root@ == root_of(old(batch).leaves())
            && r->Ok_0.signature.algorithm == algorithm && r->Ok_0.signature.bytes@
            == keyed_blake3_of(secret_key@, r->Ok_0.root@) && r->Ok_0.signer@ == signer@,
{
    if !is_operational(algorithm) {
        return Err(SignError::SigningUnavailable);
    }
    let root = batch.seal();
    match sign_digest(algorithm, secret_key, &root) {
        Ok(signature) => Ok(Attestation { root, signature, signer: copy_bytes(signer) }),
        Err(e) => Err(e),
    }
}

/// Checks an attestation and an inclusion proof together: the signature over
/// the attested root, then the proof from `leaf` to that root.
pub fn verify_attestation(
    attestation: &Attestation,
    public_key: &[u8; 32],
    leaf: &[u8; 32],
    proof: &[ProofStep],
) -> (r: Result<bool, SignError>)
    ensures
        r == match verify_outcome(
            attestation.signature.algorithm,
            public_key@,
            attestation.root@,
            attestation.signature.bytes@,
        ) {
            Ok(valid) => Ok(valid && path_root(leaf@, steps_view(proof@)) == attestation.root@),
            Err(e) => Err(e),
        },
{
    match verify_digest(public_key, &attestation.root, &attestation.signature) {
        Ok(valid) => {
            let included = verify_proof(leaf, proof, &attestation.root);
            Ok(valid && included)
        },
        Err(e) => Err(e),
    }
}

/// Signature round trip: a signature made under an operational algorithm
/// verifies under the same key and digest.
pub proof fn lemma_signature_round_trip(algorithm: Algorithm, key: Seq<u8>, message: Seq<u8>)
    requires
        operational(algorithm),
        keyed_blake3_of(key, message).len() == SIGNATURE_LEN,
    ensures
        verify_outcome(algorithm, key, message, keyed_blake3_of(key, message)) == Ok::<
            bool,
            SignError,
        >(true),
{
}

/// Changing any one byte of a valid signature makes verification answer
/// `false`.
pub proof fn lemma_flipped_signature_rejected(
    algorithm: Algorithm,
    key: Seq<u8>,
    message: Seq<u8>,
    i: int,
    b: u8,
)
    requires
        operational(algorithm),
        keyed_blake3_of(key, message).len() == SIGNATURE_LEN,
        0 <= i < SIGNATURE_LEN,
        b != keyed_blake3_of(key, message)[i],
    ensures
        verify_outcome(algorithm, key, message, keyed_blake3_of(key, message).update(i, b))
            == Ok::<bool, SignError>(false),
{
    let sig = keyed_blake3_of(key, message);
    assert(sig.update(i, b)[i] != sig[i]);
}

} // verus!
