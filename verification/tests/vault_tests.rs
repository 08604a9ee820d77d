use chacha20poly1305::aead::Generate;
use rusty_pm::codec::decode_store;
use rusty_pm::codec::encode_store;
use rusty_pm::crypto::argon2_hash;
use rusty_pm::crypto::decrypt;
use rusty_pm::crypto::encrypt;
use rusty_pm::store::Entry;
use rusty_pm::store::Store;
use rusty_pm::vault::VaultError;

fn entry(name: &str, username: Option<&str>, password: Option<&str>) -> Entry {
    Entry {
        name: name.to_string(),
        username: username.map(|s| s.to_string()),
        password: password.map(|s| s.to_string()),
    }
}

#[test]
fn test_enc_dec() {
    // Generate random 32-byte key
    let rand_key = <[u8; 32] as Generate>::try_generate().unwrap();

    // Random data
    let some_data = [0x42; 100];

    let encrypted = encrypt(&rand_key, &some_data).unwrap();
    let decrypted = decrypt(&rand_key, &encrypted).unwrap();

    // Make sure we are not losing stuff on the way (it would be funny)
    assert_eq!(decrypted, some_data.to_vec());
}

#[test]
fn test_hash() {
    // Generate random 12-byte salt
    let rand_salt = <[u8; 12] as Generate>::try_generate().unwrap();

    let mega_passward = "1234";

    // Just make sure that two calls with the same params result in the same hash.
    assert_eq!(
        argon2_hash(mega_passward.as_bytes(), &rand_salt),
        argon2_hash(mega_passward.as_bytes(), &rand_salt)
    )
}

#[test]
fn test_save_load() {
    let created_store = Store {
        name: "testvault".to_string(),
        entries: vec![Entry {
            name: "testent".to_string(),
            username: Some("sigma".to_string()),
            password: None,
        }],
    };

    let arbitrary_pwd = "123";

    let saved = created_store.save_store(arbitrary_pwd).unwrap();
    let loaded_store = Store::load_store(&saved, arbitrary_pwd).unwrap();

    assert_eq!(created_store, loaded_store)
}

#[test]
fn wrong_password_rejected() {
    let store = Store { name: "vault".to_string(), entries: vec![entry("a", Some("u"), Some("p"))] };
    let saved = store.save_store("right horse").unwrap();
    let res = Store::load_store(&saved, "wrong horse");
    assert_eq!(res, Err(VaultError::Authentication));
}

#[test]
fn key_differs_across_salts() {
    let k1 = argon2_hash(b"same password", &[0u8; 12]);
    let k2 = argon2_hash(b"same password", &[1u8; 12]);
    assert_eq!(k1.len(), 32);
    assert_eq!(k2.len(), 32);
    assert_ne!(k1, k2);
}

#[test]
fn fresh_salt_and_nonce_per_save() {
    let store = Store { name: "vault".to_string(), entries: vec![entry("a", None, None)] };
    let first = store.save_store("pw").unwrap();
    let second = store.save_store("pw").unwrap();
    assert_eq!(first.len(), encode_store(&store).len() + 40);
    assert_eq!(first.len(), second.len());
    assert_ne!(first, second);
    // both the salt prefix and the nonce that follows it are fresh
    assert_ne!(first[..12], second[..12]);
    assert_ne!(first[12..24], second[12..24]);
}

#[test]
fn truncated_vault_rejected() {
    let store = Store { name: "vault".to_string(), entries: vec![entry("a", Some("u"), None)] };
    let saved = store.save_store("pw").unwrap();
    // one byte short of the tag: authentication must fail
    let res = Store::load_store(&saved[..saved.len() - 1], "pw");
    assert_eq!(res, Err(VaultError::Authentication));
    // too short for the fixed header
    assert_eq!(Store::load_store(&saved[..23], "pw"), Err(VaultError::MalformedVault));
    assert_eq!(Store::load_store(&[], "pw"), Err(VaultError::MalformedVault));
}

#[test]
fn duplicate_add_reported() {
    let mut store = Store { name: "db".to_string(), entries: Vec::new() };
    assert!(store.add_entry(entry("web", Some("me"), Some("secret"))));
    let saved = store.save_store("pw").unwrap();

    let mut loaded = Store::load_store(&saved, "pw").unwrap();
    assert_eq!(loaded, store);
    // a second entry under the same name is reported and changes nothing
    assert!(!loaded.add_entry(entry("web", Some("other"), None)));
    assert_eq!(loaded, store);
}

#[test]
fn remove_missing_reported() {
    let store = Store { name: "db".to_string(), entries: vec![entry("web", Some("me"), None)] };
    let saved = store.save_store("pw").unwrap();

    let mut loaded = Store::load_store(&saved, "pw").unwrap();
    assert!(!loaded.remove_entry("nope"));
    assert_eq!(loaded, store);
    // the persisted image is untouched and still loads as the original
    let reloaded = Store::load_store(&saved, "pw").unwrap();
    assert_eq!(reloaded, store);
}

#[test]
fn store_operations() {
    let mut store = Store::new("db".to_string());
    assert!(!store.has_entry("web"));
    assert!(store.add_entry(entry("web", Some("me"), None)));
    assert!(store.add_entry(entry("mail", None, Some("hunter2"))));
    assert!(store.has_entry("web"));
    assert!(store.has_entry("mail"));
    assert!(!store.has_entry("Web"));

    let found = store.find_entry("mail").unwrap();
    assert_eq!(found.password.as_deref(), Some("hunter2"));
    assert!(store.find_entry("gone").is_none());

    assert!(store.remove_entry("web"));
    assert!(!store.has_entry("web"));
    assert_eq!(store.entries.len(), 1);
    assert_eq!(store.entries[0].name, "mail");
}

#[test]
fn encode_layout_exact() {
    let store = Store { name: "a".to_string(), entries: Vec::new() };
    let bytes = encode_store(&store);
    // name length 1 (little-endian u64), the scalar 'a', entry count 0
    assert_eq!(
        bytes,
        vec![1, 0, 0, 0, 0, 0, 0, 0, 0x61, 0, 0, 0, 0, 0, 0, 0, 0, 0, 0, 0]
    );
}

#[test]
fn codec_round_trip() {
    let store = Store {
        name: "p\u{e4}ss \u{1f511}".to_string(),
        entries: vec![
            entry("", None, None),
            entry("unicode \u{2764}", Some(""), Some("s\u{f6}me")),
        ],
    };
    let bytes = encode_store(&store);
    let decoded = decode_store(&bytes).unwrap();
    assert_eq!(decoded, store);
}

#[test]
fn decode_rejects_malformed() {
    // empty input
    assert!(decode_store(&[]).is_none());

    let store = Store { name: "db".to_string(), entries: vec![entry("e", None, None)] };
    let good = encode_store(&store);
    assert!(decode_store(&good).is_some());

    // truncated anywhere
    assert!(decode_store(&good[..good.len() - 1]).is_none());
    // trailing garbage
    let mut long = good.clone();
    long.push(0);
    assert!(decode_store(&long).is_none());

    // an option tag that is neither 0 nor 1
    let mut bad_tag = good.clone();
    let tag_at = bad_tag.len() - 2;
    bad_tag[tag_at] = 7;
    assert!(decode_store(&bad_tag).is_none());

    // a character that is no Unicode scalar (a surrogate)
    let mut bad_char = vec![1, 0, 0, 0, 0, 0, 0, 0];
    bad_char.extend([0x00, 0xD8, 0x00, 0x00]);
    bad_char.extend([0, 0, 0, 0, 0, 0, 0, 0]);
    assert!(decode_store(&bad_char).is_none());

    // an entry count larger than what follows
    let mut short_count = vec![0, 0, 0, 0, 0, 0, 0, 0];
    short_count.extend([1, 0, 0, 0, 0, 0, 0, 0]);
    assert!(decode_store(&short_count).is_none());
}
