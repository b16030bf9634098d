use kassiber::primitives::{
    concat_hash, hkdf32, Aes256GcmKey, DualKeyPair, HybridKeyPair, PostQuantumKeyPair,
    PostQuantumPublicKey, X25519KeyPair,
};

#[test]
fn test_ml_kem_roundtrip() {
    let kp = PostQuantumKeyPair::generate_ml_kem768().unwrap();
    assert_eq!(kp.public.len(), 1184);
    assert_eq!(kp.secret.len(), 64);
    let pk = PostQuantumPublicKey {
        bytes: kp.public.clone(),
    };
    let (ss1, ct) = pk.encapsulate().unwrap();
    let ss2 = kp.decapsulate(&ct).unwrap();
    assert_eq!(ss1, ss2);
    assert_eq!(ss1.len(), 32);
}

#[test]
fn test_ml_dsa65_sign_verify() {
    let kp = DualKeyPair::generate().unwrap();
    let (ml_dsa_pub, ed_pub) = kp.verifying_keys();
    assert_eq!(ml_dsa_pub.len(), 1952);
    let sig = kp.sign(b"kassiber").unwrap();
    sig.verify(b"kassiber", &ml_dsa_pub, &ed_pub).unwrap();
    assert!(sig.verify(b"forged", &ml_dsa_pub, &ed_pub).is_err());
    let other = DualKeyPair::generate().unwrap();
    let (other_ml, _) = other.verifying_keys();
    assert!(sig.verify(b"kassiber", &other_ml, &ed_pub).is_err());
}

#[test]
fn test_hybrid_kem_roundtrip() {
    let kp = HybridKeyPair::generate().unwrap();
    let pk = kp.public_key();
    let (secret, ct) = pk.encrypt().unwrap();
    assert_eq!(secret.len(), 32);
    let sk = kp.secret_key();
    let decrypted = sk.decrypt(&ct).unwrap();
    assert_eq!(secret, decrypted);
}

#[test]
fn test_aes_gcm_roundtrip() {
    let key = Aes256GcmKey::from_shared_secret(b"shared secret");
    let encrypted = key.encrypt(b"Hello KASSIBER", b"aad").unwrap();
    let decrypted = key.decrypt(&encrypted, b"aad").unwrap();
    assert_eq!(b"Hello KASSIBER".to_vec(), decrypted);
}

#[test]
fn test_aes_gcm_aad_mismatch_rejected() {
    let key = Aes256GcmKey::from_shared_secret(b"shared secret");
    let encrypted = key.encrypt(b"Hello KASSIBER", b"correct aad").unwrap();
    assert!(key.decrypt(&encrypted, b"wrong aad").is_err());
    let encrypted2 = key.encrypt(b"Hello KASSIBER", b"").unwrap();
    assert!(key.decrypt(&encrypted2, b"non-empty").is_err());
    assert_eq!(key.decrypt(&encrypted2, b"").unwrap(), b"Hello KASSIBER");
}

// ---------------------------------------------------------------------------
// Further cases
// ---------------------------------------------------------------------------

#[test]
fn hkdf_matches_rfc5869_case_3() {
    // RFC 5869 test case 3 (SHA-256, empty salt and info), first 32 bytes.
    let ikm = [0x0bu8; 22];
    let okm = hkdf32(&ikm, &[], &[]);
    assert_eq!(
        okm.to_vec(),
        vec![
            0x8d, 0xa4, 0xe7, 0x75, 0xa5, 0x63, 0xc1, 0x8f, 0x71, 0x5f, 0x80, 0x2a, 0x06, 0x3c,
            0x5a, 0x31, 0xb8, 0xa1, 0x1f, 0x5c, 0x5e, 0xe1, 0x87, 0x9e, 0xc3, 0x45, 0x4e, 0x5f,
            0x3c, 0x73, 0x8d, 0x2d
        ]
    );
}

#[test]
fn concat_hash_is_sha256_of_concatenation() {
    // SHA-256("abc")
    let expected = vec![
        0xba, 0x78, 0x16, 0xbf, 0x8f, 0x01, 0xcf, 0xea, 0x41, 0x41, 0x40, 0xde, 0x5d, 0xae, 0x22,
        0x23, 0xb0, 0x03, 0x61, 0xa3, 0x96, 0x17, 0x7a, 0x9c, 0xb4, 0x10, 0xff, 0x61, 0xf2, 0x00,
        0x15, 0xad,
    ];
    assert_eq!(concat_hash(b"a", b"bc").to_vec(), expected);
    assert_eq!(concat_hash(b"abc", b"").to_vec(), expected);
}

#[test]
fn aes_gcm_with_fixed_nonce_is_deterministic() {
    let key = Aes256GcmKey::from_shared_secret(b"k");
    let a = key.encrypt_with_nonce(b"msg", b"aad", [7u8; 12]).unwrap();
    let b = key.encrypt_with_nonce(b"msg", b"aad", [7u8; 12]).unwrap();
    assert_eq!(a.ciphertext, b.ciphertext);
    assert_eq!(a.tag, b.tag);
    assert_eq!(a.ciphertext.len(), 3);
    let mut tampered = a.clone();
    tampered.tag[0] ^= 1;
    let e = key.decrypt(&tampered, b"aad").unwrap_err();
    assert!(e.to_string().starts_with("Decryption failed: AES decrypt: "));
}

#[test]
fn x25519_agreement() {
    let a = X25519KeyPair::generate();
    let b = X25519KeyPair::generate();
    let kp = HybridKeyPair {
        pq: PostQuantumKeyPair::generate_ml_kem768().unwrap(),
        classical: b.clone(),
    };
    let pk = kp.public_key();
    let (secret, ct) = pk.encrypt_with([3u8; 32], a.secret).unwrap();
    assert_eq!(ct.ephemeral_pub, a.public);
    assert_eq!(kp.secret_key().decrypt(&ct).unwrap(), secret);
}

#[test]
fn decapsulate_rejects_bad_lengths() {
    let kp = PostQuantumKeyPair::generate_ml_kem768().unwrap();
    let e = kp.decapsulate(&[0u8; 10]).unwrap_err();
    assert_eq!(e.to_string(), "Decryption failed: invalid ML-KEM-768 ciphertext");
    let bad = PostQuantumKeyPair {
        public: vec![],
        secret: vec![1, 2, 3],
    };
    let e = bad.decapsulate(&[0u8; 1088]).unwrap_err();
    assert_eq!(e.to_string(), "Decryption failed: invalid ML-KEM-768 decapsulation key");
    let bad_pk = PostQuantumPublicKey { bytes: vec![0u8; 5] };
    assert_eq!(
        bad_pk.encapsulate().unwrap_err().to_string(),
        "Encryption failed: invalid ML-KEM-768 encapsulation key"
    );
}

#[test]
fn dual_signature_rejects_malformed() {
    let kp = DualKeyPair::generate().unwrap();
    let (ml, ed) = kp.verifying_keys();
    let mut sig = kp.sign(b"m").unwrap();
    assert!(sig.verify(b"m", &ml[..100], &ed).is_err());
    assert!(sig.verify(b"m", &ml, &ed[..31]).is_err());
    sig.ed25519_sig[0] ^= 1;
    assert_eq!(
        sig.verify(b"m", &ml, &ed).unwrap_err().to_string(),
        "Signature verification failed"
    );
}
