//! The cryptographic primitives that the ratchet is built on: an AEAD cipher
//! (XChaCha20-Poly1305), a key-encapsulation mechanism (Kyber) and the
//! operating system's random source. Each is a call into its crate; the
//! contracts below state what those crates document.
use chacha20poly1305::aead::{Aead, Payload};
use chacha20poly1305::{KeyInit, XChaCha20Poly1305, XNonce};
use rand::RngCore;
use vstd::prelude::*;

verus! {

/// Length in bytes of a symmetric key.
pub const KEY_LEN: usize = 32;

/// Length in bytes of an AEAD nonce.
pub const NONCE_LEN: usize = 24;

/// Length in bytes of an AEAD authentication tag.
pub const TAG_LEN: usize = 16;

/// Length in bytes of a Kyber public key.
pub const KEM_PUBLIC_KEY_LEN: usize = 1184;

/// Length in bytes of a Kyber secret key.
pub const KEM_SECRET_KEY_LEN: usize = 2400;

/// Length in bytes of a Kyber ciphertext.
pub const KEM_CIPHERTEXT_LEN: usize = 1088;

/// Length in bytes of a Kyber shared secret.
pub const KEM_SHARED_SECRET_LEN: usize = 32;

/// Longest plaintext that is sealed in one call (the cipher refuses more
/// than 2^32 - 1 blocks of 64 bytes).
pub const MAX_SEAL_LEN: usize = 0xffff_ffff;

/// The AEAD ciphertext, tag appended, of `pt` under `key`, `nonce` and the
/// associated data `ad`.
pub uninterp spec fn sealed(key: Seq<u8>, nonce: Seq<u8>, ad: Seq<u8>, pt: Seq<u8>) -> Seq<u8>;

/// The shared secret that Kyber decapsulation derives from a ciphertext and
/// a secret key.
pub uninterp spec fn decapsulated(ct: Seq<u8>, sk: Seq<u8>) -> Seq<u8>;

#[verifier::external_type_specification]
#[verifier::external_body]
pub struct ExAeadError(chacha20poly1305::Error);

#[verifier::external_type_specification]
#[verifier::external_body]
pub struct ExKyberError(pqc_kyber::KyberError);

#[verifier::external_type_specification]
#[verifier::external_body]
pub struct ExRandError(rand::Error);

/// Relies on `XChaCha20Poly1305::encrypt` (aead's `Aead` impl): the result is
/// a function of key, nonce, associated data and plaintext, 16 bytes longer
/// than the plaintext; it fails only for a plaintext of 2^32 blocks or more.
#[verifier::external_body]
pub(crate) fn aead_seal(key: &[u8], nonce: &[u8], ad: &[u8], pt: &[u8]) -> (r: Result<
    Vec<u8>,
    chacha20poly1305::Error,
>)
    requires
        key@.len() == KEY_LEN,
        nonce@.len() == NONCE_LEN,
    ensures
        pt@.len() <= MAX_SEAL_LEN ==> r is Ok,
        r is Ok ==> r->Ok_0@ == sealed(key@, nonce@, ad@, pt@),
        r is Ok ==> r->Ok_0@.len() == pt@.len() + TAG_LEN,
{
    let cipher = XChaCha20Poly1305::new(chacha20poly1305::Key::from_slice(key));
    cipher.encrypt(XNonce::from_slice(nonce), Payload { msg: pt, aad: ad })
}

/// Relies on `XChaCha20Poly1305::decrypt`: it accepts exactly the ciphertexts
/// that `encrypt` produces under the same key, nonce and associated data, and
/// returns the plaintext that was sealed (the ciphertext less its tag).
#[verifier::external_body]
pub(crate) fn aead_open(key: &[u8], nonce: &[u8], ad: &[u8], ct: &[u8]) -> (r: Result<
    Vec<u8>,
    chacha20poly1305::Error,
>)
    requires
        key@.len() == KEY_LEN,
        nonce@.len() == NONCE_LEN,
    ensures
        r is Ok ==> ct@ == sealed(key@, nonce@, ad@, r->Ok_0@),
        r is Ok ==> r->Ok_0@.len() + TAG_LEN == ct@.len(),
        forall|p: Seq<u8>|
            ct@.len() <= MAX_SEAL_LEN && ct@ == #[trigger] sealed(key@, nonce@, ad@, p) ==> (
            r is Ok && r->Ok_0@ == p),
{
    let cipher = XChaCha20Poly1305::new(chacha20poly1305::Key::from_slice(key));
    cipher.decrypt(XNonce::from_slice(nonce), Payload { msg: ct, aad: ad })
}

/// Relies on `OsRng::try_fill_bytes` (rand_core): fills a fresh nonce from
/// the operating system, or reports that the source failed.
#[verifier::external_body]
pub(crate) fn random_nonce() -> (r: Result<Vec<u8>, rand::Error>)
    ensures
        r is Ok ==> r->Ok_0@.len() == NONCE_LEN,
{
    let mut buf = vec![0u8; NONCE_LEN];
    rand::rngs::OsRng.try_fill_bytes(&mut buf).map(|_| buf)
}

/// Relies on `pqc_kyber::keypair`: a fresh (public, secret) key pair of the
/// crate's fixed sizes, drawn from the operating system's random source.
#[verifier::external_body]
pub(crate) fn kem_keypair() -> (r: Result<(Vec<u8>, Vec<u8>), pqc_kyber::KyberError>)
    ensures
        r is Ok ==> r->Ok_0.0@.len() == KEM_PUBLIC_KEY_LEN,
        r is Ok ==> r->Ok_0.1@.len() == KEM_SECRET_KEY_LEN,
{
    pqc_kyber::keypair(&mut rand::rngs::OsRng).map(|k| (k.public.to_vec(), k.secret.to_vec()))
}

/// Relies on `pqc_kyber::encapsulate`: refuses a public key of the wrong
/// length; otherwise returns a (ciphertext, shared secret) pair of the fixed
/// sizes, or an error where the random source failed.
#[verifier::external_body]
pub(crate) fn kem_encapsulate(pk: &[u8]) -> (r: Result<(Vec<u8>, Vec<u8>), pqc_kyber::KyberError>)
    ensures
        pk@.len() != KEM_PUBLIC_KEY_LEN ==> r is Err,
        r is Ok ==> r->Ok_0.0@.len() == KEM_CIPHERTEXT_LEN,
        r is Ok ==> r->Ok_0.1@.len() == KEM_SHARED_SECRET_LEN,
{
    pqc_kyber::encapsulate(pk, &mut rand::rngs::OsRng).map(|(ct, ss)| (ct.to_vec(), ss.to_vec()))
}

/// Relies on `pqc_kyber::decapsulate`: succeeds exactly when the ciphertext
/// and the secret key have the crate's fixed lengths, with a shared secret of
/// the fixed size that depends on the ciphertext and secret key alone.
#[verifier::external_body]
pub(crate) fn kem_decapsulate(ct: &[u8], sk: &[u8]) -> (r: Result<Vec<u8>, pqc_kyber::KyberError>)
    ensures
        r is Ok <==> (ct@.len() == KEM_CIPHERTEXT_LEN && sk@.len() == KEM_SECRET_KEY_LEN),
        r is Ok ==> r->Ok_0@.len() == KEM_SHARED_SECRET_LEN,
        r is Ok ==> r->Ok_0@ == decapsulated(ct@, sk@),
{
    pqc_kyber::decapsulate(ct, sk).map(|ss| ss.to_vec())
}

} // verus!
