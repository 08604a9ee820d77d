//! The vault container: the on-disk layout `salt ‖ nonce ‖ ciphertext ‖ tag`
//! and the save/load protocol that composes the codec, key derivation and
//! the cipher.
use vstd::prelude::*;
use vstd::string::StringSliceAdditionalSpecFns;
use vstd::utf8::encode_utf8;

use crate::codec::dec_store_exact;
use crate::codec::decode_store;
use crate::codec::enc_store;
use crate::codec::encode_store;
use crate::codec::lemma_codec_round_trip;
use crate::codec::store_encodable;
use crate::crypto::argon2_hash;
use crate::crypto::argon2_key_of;
use crate::crypto::chacha_decrypt_of;
use crate::crypto::decrypt;
use crate::crypto::encrypt;
use crate::crypto::random_salt;
use crate::store::Store;
use crate::store::StoreView;

verus! {

/// The distinct recoverable failures of the vault operations.
#[derive(Clone, Copy, Debug, PartialEq, Eq, Structural)]
pub enum VaultError {
    /// The vault file could not be read or written.
    Io,
    /// The key-derivation step failed.
    KeyDerivation,
    /// The cipher or the random source failed while sealing.
    Encryption,
    /// The authentication tag did not verify: wrong password, or a tampered
    /// or corrupted file — the two are indistinguishable by design.
    Authentication,
    /// The file is too short to hold a salt and a nonce.
    MalformedVault,
    /// The payload decrypted but is no store encoding.
    MalformedPayload,
}

/// The exact result that loading the bytes `data` under the password `pw`
/// must produce.
pub open spec fn load_spec(data: Seq<u8>, pw: Seq<char>) -> Result<StoreView, VaultError> {
    if data.len() < 24 {
        Err(VaultError::MalformedVault)
    } else if encode_utf8(pw).len() > u32::MAX {
        Err(VaultError::KeyDerivation)
    } else {
        match chacha_decrypt_of(argon2_key_of(encode_utf8(pw), data.take(12)), data.skip(12)) {
            None => Err(VaultError::Authentication),
            Some(pt) => match dec_store_exact(pt) {
                Some(s) => Ok(s),
                None => Err(VaultError::MalformedPayload),
            },
        }
    }
}

/// Whether `sealed` is a vault image that saving `s` under `pw` may
/// produce: a 12-byte salt, then a sealed payload that decrypts under the
/// derived key to exactly the encoding of `s`.
pub open spec fn sealed_for(sealed: Seq<u8>, s: StoreView, pw: Seq<char>) -> bool {
    &&& sealed.len() == enc_store(s).len() + 40
    &&& chacha_decrypt_of(argon2_key_of(encode_utf8(pw), sealed.take(12)), sealed.skip(12))
        == Some(enc_store(s))
}

impl Store {
    /// Serialize this store and seal it under `password`: generate a fresh
    /// random salt, derive the key, encrypt, and return
    /// salt ‖ nonce ‖ ciphertext ‖ tag, ready to be written to disk.
    pub fn save_store(&self, password: &str) -> (r: Result<Vec<u8>, VaultError>)
        ensures
            store_encodable(self@),
            r is Ok ==> sealed_for(r.unwrap()@, self@, password@),
            r == Err::<Vec<u8>, VaultError>(VaultError::KeyDerivation) <==> password.spec_bytes().len() > u32::MAX,
            r is Err ==> r.unwrap_err() == VaultError::KeyDerivation || r.unwrap_err()
                == VaultError::Encryption,
    {
        let plaintext = encode_store(self);
        let pw = password.as_bytes();
        if pw.len() > 0xFFFF_FFFF {
            return Err(VaultError::KeyDerivation);
        }
        let mut out = match random_salt() {
            Ok(s) => s,
            Err(_) => return Err(VaultError::Encryption),
        };
        let key = argon2_hash(pw, out.as_slice());
        let mut sealed = match encrypt(key.as_slice(), plaintext.as_slice()) {
            Ok(c) => c,
            Err(_) => return Err(VaultError::Encryption),
        };
        let ghost salt_bytes = out@;
        let ghost sealed_bytes = sealed@;
        out.append(&mut sealed);
        proof {
            assert(out@.take(12) =~= salt_bytes);
            assert(out@.skip(12) =~= sealed_bytes);
        }
        Ok(out)
    }

    /// Open a vault image: check the header, derive the key from the salt
    /// and `password`, decrypt, and decode the payload into a store. Every
    /// outcome is fixed by [`load_spec`].
    pub fn load_store(data: &[u8], password: &str) -> (r: Result<Store, VaultError>)
        ensures
            match load_spec(data@, password@) {
                Ok(sv) => r is Ok && r.unwrap()@ == sv,
                Err(e) => r is Err && r.unwrap_err() == e,
            },
    {
        if data.len() < 24 {
            return Err(VaultError::MalformedVault);
        }
        let pw = password.as_bytes();
        if pw.len() > 0xFFFF_FFFF {
            return Err(VaultError::KeyDerivation);
        }
        let (salt, body) = data.split_at(12);
        proof {
            assert(salt@ =~= data@.take(12));
            assert(body@ =~= data@.skip(12));
        }
        let key = argon2_hash(pw, salt);
        match decrypt(key.as_slice(), body) {
            Err(_) => Err(VaultError::Authentication),
            Ok(pt) => match decode_store(pt.as_slice()) {
                Some(s) => Ok(s),
                None => Err(VaultError::MalformedPayload),
            },
        }
    }
}

/// Round trip: any sealed image that saving guarantees for a store `s` and
/// a password `pw` is loaded back, under the same password, as exactly `s`.
pub proof fn lemma_save_load_round_trip(s: StoreView, pw: Seq<char>, sealed: Seq<u8>)
    requires
        store_encodable(s),
        encode_utf8(pw).len() <= u32::MAX,
        sealed_for(sealed, s, pw),
    ensures
        load_spec(sealed, pw) == Ok::<StoreView, VaultError>(s),
{
    lemma_codec_round_trip(s);
}

/// Truncation below the fixed header is always rejected: bytes shorter than
/// a salt and a nonce load as a malformed vault, never as a store.
pub proof fn lemma_short_vault_rejected(data: Seq<u8>, pw: Seq<char>)
    requires
        data.len() < 24,
    ensures
        load_spec(data, pw) == Err::<StoreView, VaultError>(VaultError::MalformedVault),
{
}

} // verus!
