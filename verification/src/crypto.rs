//! Seed commitments and action-signature checking.

use vstd::prelude::*;

verus! {

/// The 32-byte digest of a byte string.
pub uninterp spec fn sha256_of(data: Seq<u8>) -> Seq<u8>;

/// Relies on sha2::Sha256::digest: the 32-byte digest is a function of the
/// input bytes alone.
#[verifier::external_body]
pub(crate) fn sha256(data: &[u8]) -> (r: [u8; 32])
    ensures
        r@ == sha256_of(data@),
{
    sha2::Sha256::digest(data).into()
}

/// Whether a 64-byte signature over a message verifies against a SEC1-encoded
/// public key.
pub uninterp spec fn sig_ok(msg: Seq<u8>, sig: Seq<u8>, pubkey: Seq<u8>) -> bool;

/// Relies on k256::ecdsa (VerifyingKey::from_sec1_bytes, Signature::from_slice
/// and Verifier::verify, ECDSA over secp256k1): whether a signature checks out
/// is a function of the message, signature and key bytes alone, and a
/// malformed key or signature is a verification failure, not a crash.
#[verifier::external_body]
pub(crate) fn verify_signature(msg: &[u8], sig: &[u8; 64], pubkey: &[u8]) -> (r: bool)
    ensures
        r == sig_ok(msg@, sig@, pubkey@),
{
    let key = match k256::ecdsa::VerifyingKey::from_sec1_bytes(pubkey) {
        Ok(k) => k,
        Err(_) => return false,
    };
    let s = match k256::ecdsa::Signature::from_slice(sig) {
        Ok(s) => s,
        Err(_) => return false,
    };
    k256::ecdsa::signature::Verifier::verify(&key, msg, &s).is_ok()
}

} // verus!

use sha2::Digest;
