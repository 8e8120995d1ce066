//! Trusted boundary to the cryptographic collaborators: hashing, Ed25519
//! signing and verification, and randomness. The consensus engine treats all
//! of these as opaque functions; nothing else in the crate calls `ring` or
//! `rand` directly.

use vstd::prelude::*;

verus! {

/// The SHA-256 digest of a byte string, as computed by `ring`.
pub uninterp spec fn sha256_of(bytes: Seq<u8>) -> Seq<u8>;

/// The Ed25519 signature produced from a 32-byte seed and a message.
pub uninterp spec fn ed25519_sig_of(seed: Seq<u8>, msg: Seq<u8>) -> Seq<u8>;

/// The Ed25519 public key derived from a 32-byte seed.
pub uninterp spec fn ed25519_pub_of(seed: Seq<u8>) -> Seq<u8>;

/// Whether an Ed25519 signature verifies against a public key and message.
pub uninterp spec fn ed25519_verifies(pk: Seq<u8>, msg: Seq<u8>, sig: Seq<u8>) -> bool;

/// Relies on ring::digest::digest with SHA-256: the digest is a function of
/// the input bytes alone, and its output is 32 bytes long.
#[verifier::external_body]
pub fn sha256(bytes: &Vec<u8>) -> (r: Vec<u8>)
    ensures
        r@ == sha256_of(bytes@),
        r@.len() == 32,
{
    ring::digest::digest(&ring::digest::SHA256, bytes.as_slice())
        .as_ref()
        .to_vec()
}

/// Relies on ring::signature::Ed25519KeyPair::from_seed_unchecked, which
/// accepts exactly 32-byte seeds, and on Ed25519KeyPair::sign: Ed25519
/// signing (RFC 8032) is deterministic in the seed and the message.
#[verifier::external_body]
pub fn ed25519_sign(seed: &Vec<u8>, msg: &Vec<u8>) -> (r: Option<Vec<u8>>)
    ensures
        r is Some <==> seed@.len() == 32,
        r is Some ==> r->Some_0@ == ed25519_sig_of(seed@, msg@),
{
    match ring::signature::Ed25519KeyPair::from_seed_unchecked(seed.as_slice()) {
        Ok(kp) => Some(kp.sign(msg.as_slice()).as_ref().to_vec()),
        Err(_) => None,
    }
}

/// Relies on ring::signature::Ed25519KeyPair::from_seed_unchecked and
/// ring::signature::KeyPair::public_key: the public key is derived from the
/// 32-byte seed alone.
#[verifier::external_body]
pub fn ed25519_public_key(seed: &Vec<u8>) -> (r: Option<Vec<u8>>)
    ensures
        r is Some <==> seed@.len() == 32,
        r is Some ==> r->Some_0@ == ed25519_pub_of(seed@),
{
    match ring::signature::Ed25519KeyPair::from_seed_unchecked(seed.as_slice()) {
        Ok(kp) => Some(ring::signature::KeyPair::public_key(&kp).as_ref().to_vec()),
        Err(_) => None,
    }
}

/// Relies on ring::signature::UnparsedPublicKey::verify with ED25519:
/// acceptance is a function of the public key, message and signature alone.
#[verifier::external_body]
pub fn ed25519_verify(pk: &Vec<u8>, msg: &Vec<u8>, sig: &Vec<u8>) -> (r: bool)
    ensures
        r == ed25519_verifies(pk@, msg@, sig@),
{
    ring::signature::UnparsedPublicKey::new(&ring::signature::ED25519, pk.as_slice())
        .verify(msg.as_slice(), sig.as_slice())
        .is_ok()
}

/// Relies on ring::rand::SystemRandom and SecureRandom::fill: on success the
/// 32-byte buffer has been filled with random bytes.
#[verifier::external_body]
pub fn generate_seed() -> (r: Option<Vec<u8>>)
    ensures
        r is Some ==> r->Some_0@.len() == 32,
{
    let mut buf = [0u8; 32];
    match ring::rand::SecureRandom::fill(&ring::rand::SystemRandom::new(), &mut buf) {
        Ok(()) => Some(buf.to_vec()),
        Err(_) => None,
    }
}

/// Relies on rand::random_range: the result lies in the given half-open
/// range, which must not be empty.
#[verifier::external_body]
pub fn random_below(n: usize) -> (r: usize)
    requires
        n > 0,
    ensures
        r < n,
{
    rand::random_range(0..n)
}

} // verus!
