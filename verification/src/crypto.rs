//! Key derivation and authenticated encryption.
//!
//! The password hash and the cipher come from outside crates; each call is
//! wrapped in one trusted function whose contract states what the crate's
//! documentation promises, over the two named results below.
use vstd::prelude::*;

use chacha20poly1305::aead::Aead;
use chacha20poly1305::aead::Generate;
use chacha20poly1305::ChaCha20Poly1305;
use chacha20poly1305::KeyInit;
use chacha20poly1305::Nonce;

verus! {

/// The error of the underlying cipher (an opaque unit value).
#[verifier::external_type_specification]
#[verifier::external_body]
pub struct ExAeadError(chacha20poly1305::Error);

/// The 32-byte key that the fixed Argon2id configuration of this vault
/// derives from a password and a salt: a pure function of the two inputs.
pub uninterp spec fn argon2_key_of(password: Seq<u8>, salt: Seq<u8>) -> Seq<u8>;

/// The plaintext that ChaCha20-Poly1305 decryption under `key` accepts for
/// the nonce-prefixed input `data`, or `None` when the tag does not verify:
/// a pure function of key and input.
pub uninterp spec fn chacha_decrypt_of(key: Seq<u8>, data: Seq<u8>) -> Option<Seq<u8>>;

/// Relies on `argon2::hash_raw` (package rust-argon2): with this fixed,
/// valid configuration (Argon2id, 32 MiB, 6 lanes, 5 passes, 32-byte output),
/// a 12-byte salt and a password no longer than `u32::MAX` bytes, every
/// parameter check passes and it returns a hash that is a pure function of
/// password and salt.
#[verifier::external_body]
pub fn argon2_hash(key: &[u8], salt: &[u8]) -> (r: Vec<u8>)
    requires
        salt@.len() == 12,
        key@.len() <= u32::MAX,
    ensures
        r@ == argon2_key_of(key@, salt@),
        r@.len() == 32,
{
    let config = argon2::Config {
        mem_cost: 32 * 1024,
        lanes: 6,
        time_cost: 5,
        variant: argon2::Variant::Argon2id,
        ..argon2::Config::default()
    };
    argon2::hash_raw(key, salt, &config).unwrap()
}

/// Relies on `ChaCha20Poly1305` (chacha20poly1305) and the system CSPRNG:
/// encrypts `data` under a fresh random 12-byte nonce and returns
/// nonce ‖ ciphertext ‖ 16-byte tag, which decryption under the same key
/// accepts and maps back to `data`.
#[verifier::external_body]
pub fn encrypt(key: &[u8], data: &[u8]) -> (r: Result<Vec<u8>, chacha20poly1305::Error>)
    requires
        key@.len() == 32,
    ensures
        r is Ok ==> r.unwrap()@.len() == data@.len() + 28,
        r is Ok ==> chacha_decrypt_of(key@, r.unwrap()@) == Some(data@),
{
    let cipher = match ChaCha20Poly1305::new_from_slice(key) {
        Ok(c) => c,
        Err(_) => return Err(chacha20poly1305::Error),
    };
    let nonce = match Nonce::try_generate() {
        Ok(n) => n,
        Err(_) => return Err(chacha20poly1305::Error),
    };
    let mut combined = nonce.to_vec();
    let encrypted = cipher.encrypt(&nonce, data)?;
    combined.extend(encrypted);
    Ok(combined)
}

/// Relies on `ChaCha20Poly1305` (chacha20poly1305): splits the first 12
/// bytes of `data` as the nonce and authenticated-decrypts the rest.
/// Acceptance and plaintext are a pure function of key and input; an
/// accepted input is the plaintext plus the 12-byte nonce and 16-byte tag.
#[verifier::external_body]
pub fn decrypt(key: &[u8], data: &[u8]) -> (r: Result<Vec<u8>, chacha20poly1305::Error>)
    requires
        key@.len() == 32,
        data@.len() >= 12,
    ensures
        r is Ok <==> chacha_decrypt_of(key@, data@) is Some,
        r is Ok ==> r.unwrap()@ == chacha_decrypt_of(key@, data@).unwrap() && r.unwrap()@.len()
            + 28 == data@.len(),
{
    let cipher = match ChaCha20Poly1305::new_from_slice(key) {
        Ok(c) => c,
        Err(_) => return Err(chacha20poly1305::Error),
    };
    let nonce = Nonce::try_from(&data[..12]).unwrap();
    cipher.decrypt(&nonce, &data[12..])
}

/// Relies on the system CSPRNG (`Generate` for a 12-byte array): returns 12
/// fresh random bytes, or the cipher error when the system source fails.
#[verifier::external_body]
pub(crate) fn random_salt() -> (r: Result<Vec<u8>, chacha20poly1305::Error>)
    ensures
        r is Ok ==> r.unwrap()@.len() == 12,
{
    match <[u8; 12] as Generate>::try_generate() {
        Ok(a) => Ok(a.to_vec()),
        Err(_) => Err(chacha20poly1305::Error),
    }
}

/// Key determinism: derivation is a pure function, so any two keys derived
/// from the same password and the same salt are equal.
pub proof fn lemma_key_determinism(k1: Seq<u8>, k2: Seq<u8>, password: Seq<u8>, salt: Seq<u8>)
    requires
        k1 == argon2_key_of(password, salt),
        k2 == argon2_key_of(password, salt),
    ensures
        k1 == k2,
{
}

} // verus!
