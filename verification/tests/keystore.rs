use ed25519_dalek::{Signature, SigningKey, Verifier, VerifyingKey};
use kassiber::keystore::{generate_seed, hw_sign_with_seed, KeystoreConfig, KeystoreState};

#[test]
fn test_keystore_store_retrieve() {
    let mut ks = KeystoreState::new(KeystoreConfig::default());
    let handle = ks
        .store_key("test_key_1".to_string(), b"secret_key_data".to_vec())
        .unwrap();
    assert_eq!(handle.key_id, "test_key_1");
    let retrieved = ks.retrieve_key("test_key_1").unwrap();
    assert_eq!(retrieved.as_slice(), b"secret_key_data");
}

#[test]
fn test_keystore_delete() {
    let mut ks = KeystoreState::new(KeystoreConfig::default());
    ks.store_key("delete_me".to_string(), vec![1, 2, 3]).unwrap();
    assert!(ks.has_key("delete_me"));
    ks.delete_key("delete_me").unwrap();
    assert!(!ks.has_key("delete_me"));
    assert_eq!(
        ks.retrieve_key("delete_me").unwrap_err().to_string(),
        "Keystore error: Key not found: delete_me"
    );
}

#[test]
fn keystore_overwrite_keeps_one_entry() {
    let mut ks = KeystoreState::new(KeystoreConfig::default());
    ks.store_key("k".to_string(), vec![1]).unwrap();
    ks.store_key("other".to_string(), vec![5]).unwrap();
    ks.store_key("k".to_string(), vec![2]).unwrap();
    assert_eq!(ks.retrieve_key("k").unwrap(), vec![2]);
    ks.delete_key("k").unwrap();
    assert!(!ks.has_key("k"));
    assert_eq!(ks.retrieve_key("other").unwrap(), vec![5]);
}

#[test]
fn test_hardware_key_is_real_random_and_signs() {
    let mut ks = KeystoreState::new(KeystoreConfig::default());
    ks.store_key("k1".to_string(), generate_seed()).unwrap();
    ks.store_key("k2".to_string(), generate_seed()).unwrap();
    let k1 = ks.retrieve_key("k1").unwrap();
    let k2 = ks.retrieve_key("k2").unwrap();
    assert_ne!(k1.as_slice(), &[0u8; 32]);
    assert_ne!(k1.as_slice(), k2.as_slice());

    let sig_bytes = hw_sign_with_seed("k1", &k1, b"message").unwrap();
    assert_eq!(sig_bytes.len(), 64);
    let seed: [u8; 32] = k1.as_slice().try_into().unwrap();
    let vk: VerifyingKey = SigningKey::from_bytes(&seed).verifying_key();
    let sig = Signature::from_bytes(sig_bytes.as_slice().try_into().unwrap());
    vk.verify(b"message", &sig).unwrap();

    assert_eq!(
        hw_sign_with_seed("short", &[1, 2, 3], b"m").unwrap_err().to_string(),
        "Keystore error: Key 'short' is not a 32-byte seed"
    );
}
