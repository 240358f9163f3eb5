//! Trusted boundary to the cryptographic primitives.
//!
//! Every function here wraps one operation of the `sodiumoxide` bindings
//! to libsodium; its contract states only what that library's source and
//! documentation promise.  Key material crosses this boundary as plain
//! byte vectors.

use vstd::prelude::*;

verus! {

/// The signed-message form of `m` under the Ed25519 secret key `sk`: a
/// 64-byte signature followed by an unaltered copy of `m`.  Ed25519
/// signing is deterministic, so this is a function of the arguments alone.
pub uninterp spec fn signed_message_of(m: Seq<u8>, sk: Seq<u8>) -> Seq<u8>;

/// The Ed25519 keypair (public key, secret key) deterministically
/// derived from a 32-byte seed.
pub uninterp spec fn sign_keypair_of_seed(seed: Seq<u8>) -> (Seq<u8>, Seq<u8>);

/// The SHA-256 digest of a byte string.
pub uninterp spec fn sha256_of(m: Seq<u8>) -> Seq<u8>;

/// Relies on sodiumoxide `sign::sign` (libsodium `crypto_sign`): the
/// combined form is the 64-byte signature followed by an unaltered copy
/// of the message, and Ed25519 signing is deterministic.
#[verifier::external_body]
pub fn sign_attached(m: &[u8], sk: &[u8]) -> (r: Vec<u8>)
    requires
        sk@.len() == 64,
    ensures
        r@ == signed_message_of(m@, sk@),
        r@.len() == m@.len() + 64,
        r@.skip(64) == m@,
{
    let key = sodiumoxide::crypto::sign::SecretKey::from_slice(sk).unwrap();
    sodiumoxide::crypto::sign::sign(m, &key)
}

/// Whether `sm` passes Ed25519 signed-message verification under `pk`
/// (libsodium `crypto_sign_open`): a deterministic verdict over the two
/// byte strings.
pub uninterp spec fn attached_verifies(sm: Seq<u8>, pk: Seq<u8>) -> bool;

/// `sm` is the signed-message form of `msg` under a keypair derived
/// from some seed whose public half is `pk`.
pub open spec fn authentic_extra(sm: Seq<u8>, pk: Seq<u8>, msg: Seq<u8>) -> bool {
    exists|seed: Seq<u8>| #![auto]
        pk == sign_keypair_of_seed(seed).0 && sm == signed_message_of(
            msg,
            sign_keypair_of_seed(seed).1,
        )
}

/// Every message that `sm` authentically signs under `pk` is `m`.
pub open spec fn accepts_value(sm: Seq<u8>, pk: Seq<u8>, m: Seq<u8>) -> bool {
    forall|msg: Seq<u8>| #[trigger] authentic_extra(sm, pk, msg) ==> msg == m
}

/// `sm` signs no message at all under `pk`.
pub open spec fn rejects_authentic(sm: Seq<u8>, pk: Seq<u8>) -> bool {
    forall|msg: Seq<u8>| !(#[trigger] authentic_extra(sm, pk, msg))
}

/// Relies on sodiumoxide `sign::verify` (libsodium `crypto_sign_open`):
/// on success it returns the message part of the signed message (the
/// bytes after the 64-byte signature), and every signed message produced
/// with the secret key belonging to `pk` verifies successfully.
#[verifier::external_body]
pub fn verify_attached(sm: &[u8], pk: &[u8]) -> (r: Option<Vec<u8>>)
    requires
        pk@.len() == 32,
    ensures
        r is Some <==> attached_verifies(sm@, pk@),
        r matches Some(m) ==> sm@.len() >= 64 && m@ == sm@.skip(64) && accepts_value(
            sm@,
            pk@,
            m@,
        ),
        r is None ==> rejects_authentic(sm@, pk@),
{
    let key = sodiumoxide::crypto::sign::PublicKey::from_slice(pk).unwrap();
    match sodiumoxide::crypto::sign::verify(sm, &key) {
        Ok(m) => Some(m),
        Err(()) => None,
    }
}

/// The keypair is the seed derivation of some 32-byte seed.
pub open spec fn seed_derived(pk: Seq<u8>, sk: Seq<u8>) -> bool {
    exists|seed: Seq<u8>| #![auto] seed.len() == 32 && (pk, sk) == sign_keypair_of_seed(seed)
}

/// Relies on sodiumoxide `sign::gen_keypair` (libsodium
/// `crypto_sign_keypair`): libsodium draws a random 32-byte seed and
/// derives the keypair from it exactly as `crypto_sign_seed_keypair` does.
#[verifier::external_body]
pub fn gen_sign_keypair() -> (r: (Vec<u8>, Vec<u8>))
    ensures
        r.0@.len() == 32,
        r.1@.len() == 64,
        seed_derived(r.0@, r.1@),
{
    let (pk, sk) = sodiumoxide::crypto::sign::gen_keypair();
    (pk.0.to_vec(), sk.0.to_vec())
}

/// Relies on sodiumoxide `sign::keypair_from_seed` (libsodium
/// `crypto_sign_seed_keypair`): the deterministic derivation of an
/// Ed25519 keypair from a 32-byte seed.
#[verifier::external_body]
pub fn sign_keypair_from_seed(seed: &[u8]) -> (r: (Vec<u8>, Vec<u8>))
    requires
        seed@.len() == 32,
    ensures
        (r.0@, r.1@) == sign_keypair_of_seed(seed@),
        r.0@.len() == 32,
        r.1@.len() == 64,
{
    let s = sodiumoxide::crypto::sign::Seed::from_slice(seed).unwrap();
    let (pk, sk) = sodiumoxide::crypto::sign::keypair_from_seed(&s);
    (pk.0.to_vec(), sk.0.to_vec())
}

/// Relies on sodiumoxide `kx::gen_keypair` (libsodium
/// `crypto_kx_keypair`): a fresh X25519 key-exchange keypair.  Nothing
/// is promised of the random values beyond their lengths.
#[verifier::external_body]
pub fn gen_kx_keypair() -> (r: (Vec<u8>, Vec<u8>))
    ensures
        r.0@.len() == 32,
        r.1@.len() == 32,
{
    let (pk, sk) = sodiumoxide::crypto::kx::gen_keypair();
    (pk.0.to_vec(), sk.0.to_vec())
}

/// Relies on sodiumoxide `hash::sha256::hash`: the 32-byte SHA-256
/// digest, a function of the input alone.
#[verifier::external_body]
pub fn sha256(m: &[u8]) -> (r: Vec<u8>)
    ensures
        r@ == sha256_of(m@),
        r@.len() == 32,
{
    sodiumoxide::crypto::hash::sha256::hash(m).0.to_vec()
}

} // verus!
