use kassiber::primitives::Aes256GcmKey;
use kassiber::ratchet::{RatchetConfig, Role, SpqrRatchet, TripleRatchetAdapter};

fn alice_bob() -> (SpqrRatchet, SpqrRatchet) {
    let secret = b"test_shared_secret_32_bytes_long";
    let alice = SpqrRatchet::initialize(secret, RatchetConfig::default(), Role::Initiator).unwrap();
    let bob = SpqrRatchet::initialize(secret, RatchetConfig::default(), Role::Responder).unwrap();
    (alice, bob)
}

#[test]
fn test_spqr_roundtrip() {
    let (mut alice, mut bob) = alice_bob();
    let step = alice.next_send_key().unwrap();
    let key1 = Aes256GcmKey::from_shared_secret(&step.message_key);
    let ct = key1.encrypt(b"hello", b"aad").unwrap();
    let recv_step = bob.recv_key_at(0).unwrap();
    let key2 = Aes256GcmKey::from_shared_secret(&recv_step.message_key);
    let pt = key2.decrypt(&ct, b"aad").unwrap();
    assert_eq!(pt, b"hello");
}

#[test]
fn test_bidirectional() {
    let (mut alice, mut bob) = alice_bob();
    let s1 = alice.next_send_key().unwrap();
    let r1 = bob.recv_key_at(0).unwrap();
    assert_eq!(s1.message_key, r1.message_key);
    let s2 = bob.next_send_key().unwrap();
    let r2 = alice.recv_key_at(0).unwrap();
    assert_eq!(s2.message_key, r2.message_key);
    assert_ne!(s1.message_key, s2.message_key);
}

#[test]
fn test_out_of_order_delivery() {
    let (mut alice, mut bob) = alice_bob();
    let m0 = alice.next_send_key().unwrap();
    let m1 = alice.next_send_key().unwrap();
    let m2 = alice.next_send_key().unwrap();

    let r2 = bob.recv_key_at(2).unwrap();
    assert_eq!(r2.message_key, m2.message_key);
    let r0 = bob.recv_key_at(0).unwrap();
    assert_eq!(r0.message_key, m0.message_key);
    let r1 = bob.recv_key_at(1).unwrap();
    assert_eq!(r1.message_key, m1.message_key);

    assert!(bob.recv_key_at(0).is_err());
}

#[test]
fn test_skipped_key_store_bound() {
    let secret = b"bound_test_secret_32_bytes_longg";
    let config = RatchetConfig {
        max_skipped_keys: 8,
        max_lookahead: 100,
        ..RatchetConfig::default()
    };
    let mut alice = SpqrRatchet::initialize(secret, config.clone(), Role::Initiator).unwrap();
    let mut bob = SpqrRatchet::initialize(secret, config, Role::Responder).unwrap();
    let m0 = alice.next_send_key().unwrap();
    let _m1 = alice.next_send_key().unwrap();
    let m_rest: Vec<_> = (0..18).map(|_| alice.next_send_key().unwrap()).collect();
    let r19 = bob.recv_key_at(19).unwrap();
    assert_eq!(r19.message_key, m_rest[17].message_key);
    assert!(bob.recv_key_at(0).is_err());
    let r15 = bob.recv_key_at(15).unwrap();
    assert_eq!(r15.message_key, m_rest[13].message_key);
    assert!(bob.skipped_len() <= 8);
    let _ = m0;
}

#[test]
fn test_kem_rekey_roundtrip() {
    let (mut alice, mut bob) = alice_bob();
    let _ = alice.next_send_key().unwrap();
    let _ = bob.recv_key_at(0).unwrap();

    let bob_key = bob.ratchet_public_key().to_vec();
    let kem_ct = alice.rekey_send(&bob_key).unwrap();
    let bob_new_key = bob.rekey_recv(&kem_ct).unwrap();
    assert_ne!(bob_new_key, bob_key);

    let s = alice.next_send_key().unwrap();
    let r = bob.recv_key_at(0).unwrap();
    assert_eq!(s.message_key, r.message_key);
    let s2 = bob.next_send_key().unwrap();
    let r2 = alice.recv_key_at(0).unwrap();
    assert_eq!(s2.message_key, r2.message_key);
}

#[test]
fn test_triple_ratchet_adapter() {
    let secret = b"adapter_secret_32_bytes_longgg";
    let mut alice =
        TripleRatchetAdapter::new(secret, RatchetConfig::default(), Role::Initiator).unwrap();
    let mut bob =
        TripleRatchetAdapter::new(secret, RatchetConfig::default(), Role::Responder).unwrap();
    let (ct, counter) = alice.encrypt(b"test message", b"aad").unwrap();
    let pt = bob.decrypt(counter, &ct, b"aad").unwrap();
    assert_eq!(pt, b"test message");
    let (ct2, counter2) = alice.encrypt(b"second", b"aad").unwrap();
    assert!(bob.decrypt(counter2, &ct2, b"wrong").is_err());
}

// ---------------------------------------------------------------------------
// Further cases
// ---------------------------------------------------------------------------

#[test]
fn replay_error_texts() {
    let (mut alice, mut bob) = alice_bob();
    let _ = alice.next_send_key().unwrap();
    let _ = bob.recv_key_at(0).unwrap();
    assert_eq!(
        bob.recv_key_at(0).unwrap_err().to_string(),
        "Ratchet desynchronized: Counter 0 already consumed (head at 1)"
    );
    assert_eq!(
        bob.recv_key_at(5000).unwrap_err().to_string(),
        "Ratchet desynchronized: Counter 5000 too far ahead of 1"
    );
    assert!(bob.recv_key_at(u32::MAX).is_err());
}

#[test]
fn phase_limit_and_needs_rekey() {
    let config = RatchetConfig {
        max_messages_per_phase: 2,
        ..RatchetConfig::default()
    };
    let mut alice = SpqrRatchet::initialize(b"s", config, Role::Initiator).unwrap();
    assert!(!alice.needs_rekey());
    alice.next_send_key().unwrap();
    alice.next_send_key().unwrap();
    assert!(alice.needs_rekey());
    assert_eq!(
        alice.next_send_key().unwrap_err().to_string(),
        "Ratchet desynchronized: Max messages per phase exceeded"
    );
    assert_eq!(alice.send_counter(), 2);
}

#[test]
fn serialize_layout() {
    let (mut alice, bob) = alice_bob();
    alice.next_send_key().unwrap();
    let a = alice.serialize();
    assert_eq!(a.len(), 41);
    assert_eq!(&a[32..36], &[1, 0, 0, 0]);
    assert_eq!(&a[36..40], &[0, 0, 0, 0]);
    assert_eq!(a[40], 0);
    let b = bob.serialize();
    assert_eq!(b[40], 1);
    assert_eq!(&a[..32], &b[..32]);
    assert_eq!(alice.role(), Role::Initiator);
}

#[test]
fn rekey_rejects_bad_inputs() {
    let (mut alice, mut bob) = alice_bob();
    assert!(alice.rekey_send(&[1, 2, 3]).is_err());
    assert_eq!(
        bob.rekey_recv(&[1, 2, 3]).unwrap_err().to_string(),
        "Decryption failed: invalid ML-KEM-768 ciphertext"
    );
}
