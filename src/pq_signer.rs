//! The post-quantum signer: declared, not yet operational.
use vstd::prelude::*;

verus! {

/// Post-quantum signing entry point. No implementation is available yet, so
/// every call, whatever the message, fails with the same fixed message and
/// never yields a signature. `signer::sign_digest` turns this failure into
/// the typed `SignError::SigningUnavailable`.
pub fn sign(_msg: &[u8]) -> (r: Result<Vec<u8>, &'static str>)
    ensures
        r == Err::<Vec<u8>, &'static str>("pq_signer feature enabled but signer not implemented"),
{
    Err("pq_signer feature enabled but signer not implemented")
}

} // verus!
