//! The calls into the outside cryptography: SHA-256 from `sha2`, Ed25519 from
//! libp2p's identity module.
use vstd::prelude::*;
use libp2p::identity::ed25519;

verus! {

/// The SHA-256 digest of `b`.
pub uninterp spec fn sha256_of(b: Seq<u8>) -> Seq<u8>;

/// The Ed25519 public key that belongs to the 32-byte secret `seed`.
pub uninterp spec fn ed25519_public_of(seed: Seq<u8>) -> Seq<u8>;

/// The Ed25519 signature of `msg` under the 32-byte secret `seed`.
pub uninterp spec fn ed25519_signature(seed: Seq<u8>, msg: Seq<u8>) -> Seq<u8>;

/// Whether `sig` is a valid Ed25519 signature of `msg` under the key `public`.
pub uninterp spec fn ed25519_accepts(public: Seq<u8>, msg: Seq<u8>, sig: Seq<u8>) -> bool;

/// Relies on `sha2::Sha256::digest`: a digest of 32 bytes, a function of the input.
#[verifier::external_body]
pub(crate) fn sha256(b: &Vec<u8>) -> (r: Vec<u8>)
    ensures
        r@ == sha256_of(b@),
        r@.len() == 32,
{
    <sha2::Sha256 as sha2::Digest>::digest(b).to_vec()
}

/// Relies on `ed25519::SecretKey::generate`: 32 bytes drawn from the OS.
#[verifier::external_body]
pub(crate) fn random_seed() -> (r: Vec<u8>)
    ensures
        r@.len() == 32,
{
    ed25519::SecretKey::generate().as_ref().to_vec()
}

/// Relies on `ed25519::Keypair::public` (the key built from the secret by
/// `SecretKey::try_from_bytes`, which accepts any 32 bytes): 32 bytes of public key.
#[verifier::external_body]
pub(crate) fn public_of_seed(seed: &Vec<u8>) -> (r: Vec<u8>)
    requires
        seed@.len() == 32,
    ensures
        r@ == ed25519_public_of(seed@),
        r@.len() == 32,
{
    let secret = ed25519::SecretKey::try_from_bytes(seed.clone()).unwrap();
    ed25519::Keypair::from(secret).public().to_bytes().to_vec()
}

/// Relies on `ed25519::Keypair::sign` (the key built from the secret by
/// `SecretKey::try_from_bytes`, which accepts any 32 bytes): a 64-byte signature,
/// deterministic as Ed25519 is, which `PublicKey::verify` accepts under the
/// key's own public key.
#[verifier::external_body]
pub(crate) fn sign_with_seed(seed: &Vec<u8>, msg: &Vec<u8>) -> (r: Vec<u8>)
    requires
        seed@.len() == 32,
    ensures
        r@ == ed25519_signature(seed@, msg@),
        r@.len() == 64,
        ed25519_accepts(ed25519_public_of(seed@), msg@, r@),
{
    let secret = ed25519::SecretKey::try_from_bytes(seed.clone()).unwrap();
    ed25519::Keypair::from(secret).sign(msg)
}

/// Relies on `ed25519::PublicKey::verify` (the key read by
/// `PublicKey::try_from_bytes`; bytes that are no key verify nothing).
#[verifier::external_body]
pub(crate) fn verify_signature(public: &Vec<u8>, msg: &Vec<u8>, sig: &Vec<u8>) -> (r: bool)
    ensures
        r == ed25519_accepts(public@, msg@, sig@),
{
    match ed25519::PublicKey::try_from_bytes(public) {
        Ok(key) => key.verify(msg, sig),
        Err(_) => false,
    }
}

} // verus!
