use kassiber::session::{
    decode_dual_signature, encode_dual_signature, EpochCounter, HandshakeMessage,
    KassiberSession, PrekeyBundle, SessionConfig, SessionState,
};

fn new_session() -> KassiberSession {
    KassiberSession::new(SessionConfig::default())
}

fn establish() -> (KassiberSession, KassiberSession) {
    let mut alice = new_session();
    let mut bob = new_session();
    alice.initialize().unwrap();
    bob.initialize().unwrap();
    let bob_bundle = bob.generate_prekey_bundle().unwrap();
    let hs = alice.process_prekey_bundle(&bob_bundle).unwrap();
    bob.accept_handshake(&hs).unwrap();
    (alice, bob)
}

#[test]
fn test_hybrid_handshake_two_party() {
    let (mut alice, mut bob) = establish();
    assert!(matches!(alice.state(), SessionState::Established));
    assert!(matches!(bob.state(), SessionState::Established));
    let (ct, counter) = alice.encrypt(b"hello bob", b"aad").unwrap();
    let res = bob.decrypt(counter, &ct, b"aad").unwrap();
    assert_eq!(res.plaintext, b"hello bob");
    let (ct2, counter2) = bob.encrypt(b"hello alice", b"aad").unwrap();
    let res2 = alice.decrypt(counter2, &ct2, b"aad").unwrap();
    assert_eq!(res2.plaintext, b"hello alice");
}

#[test]
fn test_mitm_tampered_bundle_rejected() {
    let mut alice = new_session();
    let mut bob = new_session();
    alice.initialize().unwrap();
    bob.initialize().unwrap();
    let bundle = bob.generate_prekey_bundle().unwrap();

    let mut evil = bundle.clone();
    evil.kem_prekey[0] ^= 0x01;
    assert!(alice.process_prekey_bundle(&evil).is_err());
    assert!(!matches!(alice.state(), SessionState::Established));

    let mut evil2 = bundle.clone();
    let last = evil2.prekey_signature.len() - 1;
    evil2.prekey_signature[last] ^= 0x01;
    assert!(alice.process_prekey_bundle(&evil2).is_err());

    let mut mallory = new_session();
    mallory.initialize().unwrap();
    let mallory_bundle = mallory.generate_prekey_bundle().unwrap();
    let mut evil3 = bundle.clone();
    evil3.prekey_signature = mallory_bundle.prekey_signature;
    assert!(alice.process_prekey_bundle(&evil3).is_err());

    let hs = alice.process_prekey_bundle(&bundle).unwrap();
    bob.accept_handshake(&hs).unwrap();
}

#[test]
fn test_session_reset_flow() {
    let (mut alice, mut bob) = establish();
    let reset = alice.initiate_reset().unwrap();
    assert!(matches!(alice.state(), SessionState::Handshaking));
    let hs = bob.apply_reset(&reset).unwrap();
    alice.accept_handshake(&hs).unwrap();
    assert!(matches!(alice.state(), SessionState::Established));

    let (ct, counter) = alice.encrypt(b"after reset", b"aad").unwrap();
    let res = bob.decrypt(counter, &ct, b"aad").unwrap();
    assert_eq!(res.plaintext, b"after reset");

    assert!(bob.apply_reset(&reset).is_err());
}

#[test]
fn test_forged_reset_rejected() {
    let (mut alice, mut bob) = establish();
    let reset = alice.initiate_reset().unwrap();
    let mut forged = reset.clone();
    let last = forged.dual_signature.len() - 1;
    forged.dual_signature[last] ^= 0x01;
    assert!(bob.apply_reset(&forged).is_err());
    let hs = bob.apply_reset(&reset).unwrap();
    alice.accept_handshake(&hs).unwrap();
}

#[test]
fn test_out_of_order_session_messages() {
    let (mut alice, mut bob) = establish();
    let (ct0, c0) = alice.encrypt(b"msg0", b"").unwrap();
    let (ct1, c1) = alice.encrypt(b"msg1", b"").unwrap();
    let (ct2, c2) = alice.encrypt(b"msg2", b"").unwrap();
    assert_eq!(bob.decrypt(c2, &ct2, b"").unwrap().plaintext, b"msg2");
    assert_eq!(bob.decrypt(c0, &ct0, b"").unwrap().plaintext, b"msg0");
    assert_eq!(bob.decrypt(c1, &ct1, b"").unwrap().plaintext, b"msg1");
}

// ---------------------------------------------------------------------------
// Further cases
// ---------------------------------------------------------------------------

#[test]
fn messaging_before_handshake_fails() {
    let mut s = new_session();
    s.initialize().unwrap();
    assert_eq!(
        s.encrypt(b"x", b"").unwrap_err().to_string(),
        "Invalid session state: Session not established"
    );
    let mut none = new_session();
    assert_eq!(
        none.generate_prekey_bundle().unwrap_err().to_string(),
        "Invalid session state: No identity key"
    );
    let hs = HandshakeMessage {
        kem_ct: vec![],
        ephemeral_x25519: vec![],
        initiator_identity: vec![],
        initiator_epoch: 0,
    };
    assert_eq!(
        s.accept_handshake(&hs).unwrap_err().to_string(),
        "Invalid session state: No signed prekey stored"
    );
}

#[test]
fn stale_bundle_rejected() {
    let (mut alice, mut bob) = establish();
    let _ = alice.initiate_reset().unwrap();
    let _ = bob.initiate_reset().unwrap();
    let newer = bob.generate_prekey_bundle().unwrap();
    let hs = alice.process_prekey_bundle(&newer).unwrap();
    assert_eq!(hs.initiator_epoch, 1);
    let mut fresh = new_session();
    fresh.initialize().unwrap();
    let old_bundle = fresh.generate_prekey_bundle().unwrap();
    assert_eq!(old_bundle.epoch, 0);
}

#[test]
fn bundle_and_handshake_encoding_roundtrip() {
    let mut bob = new_session();
    bob.initialize().unwrap();
    let bundle = bob.generate_prekey_bundle().unwrap();
    let bytes = bundle.to_bytes();
    let back = PrekeyBundle::from_bytes(&bytes).unwrap();
    assert_eq!(back.identity_ml_dsa, bundle.identity_ml_dsa);
    assert_eq!(back.kem_prekey, bundle.kem_prekey);
    assert_eq!(back.prekey_signature, bundle.prekey_signature);
    assert_eq!(back.epoch, bundle.epoch);
    assert!(KassiberSession::verify_bundle(&back).is_ok());
    assert!(PrekeyBundle::from_bytes(&bytes[..bytes.len() - 1]).is_none());

    let hs = HandshakeMessage {
        kem_ct: vec![1; 300],
        ephemeral_x25519: vec![2; 32],
        initiator_identity: vec![3; 32],
        initiator_epoch: 1 << 40,
    };
    let hb = hs.to_bytes();
    let hback = HandshakeMessage::from_bytes(&hb).unwrap();
    assert_eq!(hback.kem_ct, hs.kem_ct);
    assert_eq!(hback.initiator_epoch, hs.initiator_epoch);
}

#[test]
fn encoding_matches_postcard() {
    let bundle = PrekeyBundle {
        identity_ml_dsa: vec![1, 2, 3],
        identity_ed25519: vec![4; 200],
        identity_x25519: vec![],
        kem_prekey: vec![5; 130],
        x25519_prekey: vec![6],
        prekey_signature: vec![7; 17000],
        epoch: 300,
    };
    let expected = postcard::to_allocvec(&(
        bundle.identity_ml_dsa.clone(),
        bundle.identity_ed25519.clone(),
        bundle.identity_x25519.clone(),
        bundle.kem_prekey.clone(),
        bundle.x25519_prekey.clone(),
        bundle.prekey_signature.clone(),
        bundle.epoch,
    ))
    .unwrap();
    assert_eq!(bundle.to_bytes(), expected);
    let sig = kassiber::primitives::DualSignature {
        ml_dsa_sig: vec![9; 3309],
        ed25519_sig: vec![8; 64],
    };
    let enc = encode_dual_signature(&sig);
    assert_eq!(
        enc,
        postcard::to_allocvec(&(sig.ml_dsa_sig.clone(), sig.ed25519_sig.clone())).unwrap()
    );
    let dec = decode_dual_signature(&enc).unwrap();
    assert_eq!(dec.ml_dsa_sig, sig.ml_dsa_sig);
    assert_eq!(dec.ed25519_sig, sig.ed25519_sig);
}

#[test]
fn epoch_counter_behaviour() {
    let mut e = EpochCounter::new(vec![1, 2]);
    assert_eq!(e.current(), 0);
    assert_eq!(e.increment(), 1);
    assert!(e.validate_remote(2).is_ok());
    assert_eq!(
        e.validate_remote(1).unwrap_err().to_string(),
        "Invalid input: Epoch counter 1 not greater than 1"
    );
    assert_eq!(e.to_bytes().unwrap(), vec![1, 2, 1, 2]);
}

#[test]
fn reset_from_other_identity_rejected() {
    let (mut alice, mut bob) = establish();
    let mut mallory = new_session();
    mallory.initialize().unwrap();
    let _ = mallory.initiate_reset().unwrap();
    let _ = mallory.initiate_reset().unwrap();
    let reset = mallory.initiate_reset().unwrap();
    assert_eq!(
        bob.apply_reset(&reset).unwrap_err().to_string(),
        "Signature verification failed"
    );
    let _ = &mut alice;
}
