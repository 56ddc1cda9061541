//! Receipt integrity engine: canonical receipt encoding (from fields or from
//! JSON text), content digests, Merkle aggregation with inclusion proofs, and
//! algorithm-tagged signing of batch roots.
pub mod canonical;
pub mod digest;
pub mod json;
pub mod merkle;
pub mod pq_signer;
pub mod receipts_engine;
pub mod signer;
