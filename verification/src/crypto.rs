//! Calls into the hashing, signing and random-number crates.

use vstd::prelude::*;
use sha2::Digest;
use ed25519_dalek::Signer;
use ed25519_dalek::Verifier;
use rand::Rng;

verus! {

/// The SHA-256 digest of a byte string.
pub uninterp spec fn spec_sha256(data: Seq<u8>) -> Seq<u8>;

/// Calls `sha2::Sha256::digest`; the claim is that the 32 bytes returned are
/// the SHA-256 digest of `data`, a function of `data` alone.
#[verifier::external_body]
pub(crate) fn sha256(data: &[u8]) -> (res: [u8; 32])
    ensures
        res@ == spec_sha256(data@),
{
    sha2::Sha256::digest(data).into()
}

/// The Ed25519 public key of a 32-byte secret key.
pub uninterp spec fn spec_ed25519_public_key(secret_key: Seq<u8>) -> Seq<u8>;

/// The Ed25519 signature of `message` by a 32-byte secret key.
pub uninterp spec fn spec_ed25519_sign(secret_key: Seq<u8>, message: Seq<u8>) -> Seq<u8>;

/// Whether `signature` is a valid Ed25519 signature of `message` by the
/// holder of `public_key`.
pub uninterp spec fn spec_ed25519_verify(public_key: Seq<u8>, message: Seq<u8>, signature: Seq<u8>) -> bool;

/// Calls `ed25519_dalek::SecretKey::generate` with the operating system's
/// random source; nothing is claimed of the 32 bytes it returns.
#[verifier::external_body]
pub(crate) fn generate_secret_key() -> (res: [u8; 32]) {
    ed25519_dalek::SecretKey::generate(&mut rand::rngs::OsRng).to_bytes()
}

/// Calls `rand::thread_rng().gen::<[u8; 32]>()`; nothing is claimed of the
/// 32 bytes it returns.
#[verifier::external_body]
pub(crate) fn random_bytes32() -> (res: [u8; 32]) {
    rand::thread_rng().gen::<[u8; 32]>()
}

/// Calls `ed25519_dalek::PublicKey::from` on the secret key; the claim is
/// that the result is the public key of `secret_key`, a function of it alone.
/// (`SecretKey::from_bytes` fails only on a length other than 32.)
#[verifier::external_body]
pub(crate) fn public_key_of(secret_key: &[u8; 32]) -> (res: [u8; 32])
    ensures
        res@ == spec_ed25519_public_key(secret_key@),
{
    let secret = ed25519_dalek::SecretKey::from_bytes(secret_key).expect("a secret key has 32 bytes");
    ed25519_dalek::PublicKey::from(&secret).to_bytes()
}

/// Calls `Keypair::sign` on the key pair of the secret key; the claim is that
/// the result is the Ed25519 signature of `message` by `secret_key`, a
/// function of the two alone (Ed25519 signing is deterministic).
#[verifier::external_body]
pub(crate) fn sign(secret_key: &[u8; 32], message: &[u8]) -> (res: [u8; 64])
    ensures
        res@ == spec_ed25519_sign(secret_key@, message@),
{
    let secret = ed25519_dalek::SecretKey::from_bytes(secret_key).expect("a secret key has 32 bytes");
    let public = ed25519_dalek::PublicKey::from(&secret);
    ed25519_dalek::Keypair { secret, public }.sign(message).to_bytes()
}

/// Calls `PublicKey::verify` after decoding the key and the signature; the
/// result is false when either does not decode. The claims: the result is a
/// function of the three arguments, and a signature made with a secret key
/// verifies under that key's public key.
#[verifier::external_body]
pub(crate) fn verify(public_key: &[u8; 32], message: &[u8], signature: &[u8; 64]) -> (res: bool)
    ensures
        res == spec_ed25519_verify(public_key@, message@, signature@),
        forall|secret_key: Seq<u8>|
            secret_key.len() == 32 && public_key@ == spec_ed25519_public_key(secret_key) && signature@
                == spec_ed25519_sign(secret_key, message@) ==> res,
{
    let key = match ed25519_dalek::PublicKey::from_bytes(public_key) {
        Ok(key) => key,
        Err(_) => return false,
    };
    let signature = match ed25519_dalek::Signature::from_bytes(signature) {
        Ok(signature) => signature,
        Err(_) => return false,
    };
    key.verify(message, &signature).is_ok()
}

/// An Ed25519 signing key; its secret bytes stay inside.
pub struct SigningKey {
    secret: [u8; 32],
}

impl View for SigningKey {
    type V = Seq<u8>;

    closed spec fn view(&self) -> Seq<u8> {
        self.secret@
    }
}

impl SigningKey {
    /// A fresh key from the operating system's random source.
    pub fn generate() -> (res: SigningKey)
        ensures
            res@.len() == 32,
    {
        SigningKey { secret: generate_secret_key() }
    }

    /// The key with these secret bytes.
    pub fn from_secret(secret: [u8; 32]) -> (res: SigningKey)
        ensures
            res@ == secret@,
    {
        SigningKey { secret }
    }

    pub fn public_key(&self) -> (res: [u8; 32])
        ensures
            res@ == spec_ed25519_public_key(self@),
    {
        public_key_of(&self.secret)
    }

    pub fn sign(&self, message: &[u8]) -> (res: [u8; 64])
        ensures
            res@ == spec_ed25519_sign(self@, message@),
    {
        sign(&self.secret, message)
    }
}

} // verus!
