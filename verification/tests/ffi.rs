use kassiber::ffi::{
    detect_kassiber, pack_message, test_aes_roundtrip, test_pqc_keygen, unpack_message,
    KassiberFfiError, KassiberIdentity,
};
use kassiber::primitives::AesAead;

#[test]
fn test_full_flow_over_ffi() {
    let mut alice = KassiberIdentity::create().unwrap();
    let mut bob = KassiberIdentity::create().unwrap();
    assert!(!alice.is_session_established());
    assert!(!bob.is_session_established());

    let bundle = bob.export_prekey_bundle().unwrap();
    let handshake = alice.initiate_session(bundle).unwrap();
    bob.accept_session(handshake).unwrap();
    assert!(alice.is_session_established());
    assert!(bob.is_session_established());

    let carrier = alice.encrypt_for_carrier(b"hello bob".to_vec()).unwrap();
    assert!(detect_kassiber(carrier.clone()));
    let plaintext = bob.decrypt_from_carrier(carrier).unwrap().unwrap();
    assert_eq!(plaintext, b"hello bob");

    let reply = bob.encrypt_for_carrier(b"hello alice".to_vec()).unwrap();
    let plaintext = alice.decrypt_from_carrier(reply).unwrap().unwrap();
    assert_eq!(plaintext, b"hello alice");

    assert_eq!(
        alice
            .decrypt_from_carrier("just a normal chat message".to_string())
            .unwrap(),
        None
    );
}

#[test]
fn test_tampered_bundle_and_carrier_rejected() {
    let mut alice = KassiberIdentity::create().unwrap();
    let mut bob = KassiberIdentity::create().unwrap();

    let mut bundle = bob.export_prekey_bundle().unwrap();
    let mid = bundle.len() / 2;
    bundle[mid] ^= 0x01;
    assert!(alice.initiate_session(bundle.clone()).is_err());
    assert!(!alice.is_session_established());

    assert!(alice.initiate_session(vec![0xAA; 32]).is_err());

    let good = bob.export_prekey_bundle().unwrap();
    let handshake = alice.initiate_session(good).unwrap();
    bob.accept_session(handshake).unwrap();

    let carrier = alice.encrypt_for_carrier(b"secret".to_vec()).unwrap();
    let mut tampered = carrier.clone();
    let pos = tampered.len() / 2;
    let replacement = if &tampered[pos..pos + 1] == "a" { "b" } else { "a" };
    tampered.replace_range(pos..pos + 1, replacement);
    assert_ne!(tampered, carrier);
    assert!(bob.decrypt_from_carrier(tampered).is_err());
}

#[test]
fn test_messaging_requires_established_session() {
    let mut identity = KassiberIdentity::create().unwrap();
    assert!(matches!(
        identity.encrypt_for_carrier(b"nope".to_vec()),
        Err(KassiberFfiError::SessionNotEstablished)
    ));
    let marked = "<<<KASSIBER>>>\nsome words here\n<<<KASSIBER>>>".to_string();
    assert!(matches!(
        identity.decrypt_from_carrier(marked),
        Err(KassiberFfiError::SessionNotEstablished)
    ));
    assert_eq!(identity.decrypt_from_carrier("hi".to_string()).unwrap(), None);
}

#[test]
fn test_smoke_helpers() {
    assert_eq!(test_pqc_keygen().unwrap().len(), 1184);
    assert!(test_aes_roundtrip(b"roundtrip".to_vec()).unwrap());
}

// ---------------------------------------------------------------------------
// Further cases
// ---------------------------------------------------------------------------

#[test]
fn message_pack_roundtrip_and_short_input() {
    let aead = AesAead {
        ciphertext: vec![9, 8, 7],
        nonce: [1; 12],
        tag: [2; 16],
    };
    let bytes = pack_message(0x01020304, &aead);
    assert_eq!(bytes.len(), 35);
    assert_eq!(&bytes[..4], &[4, 3, 2, 1]);
    let (c, back) = unpack_message(&bytes).unwrap();
    assert_eq!(c, 0x01020304);
    assert_eq!(back.ciphertext, aead.ciphertext);
    assert_eq!(back.nonce, aead.nonce);
    assert_eq!(back.tag, aead.tag);
    let e = unpack_message(&bytes[..31]).unwrap_err();
    assert_eq!(e.to_string(), "serialization error: message too short: 31 bytes");
}

#[test]
fn ffi_error_texts() {
    assert_eq!(
        KassiberFfiError::SessionNotEstablished.to_string(),
        "session not established"
    );
    let e = KassiberFfiError::from_crypto(kassiber::error::KassiberError::SignatureVerification);
    assert_eq!(e.to_string(), "crypto error: Signature verification failed");
    let t = KassiberFfiError::from_transport(kassiber::error::TransportError::NoData);
    assert_eq!(t.to_string(), "transport error: No data");
}

#[test]
fn many_messages_both_ways() {
    let mut alice = KassiberIdentity::create().unwrap();
    let mut bob = KassiberIdentity::create().unwrap();
    let bundle = bob.export_prekey_bundle().unwrap();
    let hs = alice.initiate_session(bundle).unwrap();
    bob.accept_session(hs).unwrap();
    let mut pending = Vec::new();
    for i in 0..5u8 {
        pending.push((i, alice.encrypt_for_carrier(vec![i; 40]).unwrap()));
    }
    pending.reverse();
    for (i, c) in pending {
        assert_eq!(bob.decrypt_from_carrier(c).unwrap().unwrap(), vec![i; 40]);
    }
}
