//! Hashing of receipts given as raw bytes.
use vstd::prelude::*;
use crate::digest::{blake3_of, digest, hex_of, to_hex};

verus! {

/// Hash a receipt (as JSON bytes) and return its digest as lowercase hex.
pub fn hash_receipt(json_bytes: &[u8]) -> (r: String)
    ensures
        r@ == hex_of(blake3_of(json_bytes@)),
{
    let d = digest(json_bytes);
    to_hex(&d)
}

} // verus!
