//! The application-facing layer: one identity, the onboarding exchange of
//! bundle and handshake bytes, and session messages carried in the
//! dictionary transport encoding between `<<<KASSIBER>>>` markers.
//!
//! One session message on the wire: `counter (u32 LE) || nonce (12 bytes)
//! || tag (16 bytes) || ciphertext`, authenticated with the carrier AAD.
use vstd::prelude::*;
use vstd::string::*;
use crate::codec::{TransportCodec, TransportConfig, KASSIBER_MARKER, MAX_DECOMPRESSED_SIZE, carrier_dictionary, carrier_text, deflate_best, inflate_prefix, lemma_carrier_roundtrip, packet_sentences, spec_decode_carrier, spec_packets};
use crate::dictionary::english_list;
use crate::error::{KassiberError, KassiberErrorView, TransportError, TransportErrorView, kassiber_error_text, transport_error_text};
use crate::primitives::{AES_GCM_A_MAX, AES_GCM_P_MAX, Aes256GcmKey, AesAead, HybridKeyPair, aes_gcm_opened, aes_gcm_sealed, array16, ml_kem_encapsulation_key, tag};
use crate::session::{HandshakeMessage, KassiberSession, PrekeyBundle, SessionConfig, SessionState, SessionView, bundle_bytes, bundle_fields, bundle_verifies, handshake_bytes, handshake_fields, initiator_error, initiator_outcome, parse_bundle, parse_handshake, published_bundle, responder_error, responder_outcome};
use crate::framing::{chunk_count, spec_chunk};
use crate::ratchet::{RatchetView, aes_key_for, message_key_at, recv_hit, too_far};
use crate::text::find_from;
use crate::util::{bytes_to_vec, copy_range, extend_bytes, from_le32, le32, push_le32, u64_to_decimal, decimal};

verus! {

/// Length of the counter in a session message.
pub const COUNTER_LEN: usize = 4;

/// Length of the nonce in a session message.
pub const NONCE_LEN: usize = 12;

/// Length of the tag in a session message.
pub const TAG_LEN: usize = 16;

/// Length of the header of a session message.
pub const HEADER_LEN: usize = 32;

/// The AAD bound into every carrier message.
pub open spec fn carrier_aad_spec() -> Seq<u8> {
    tag("kassiber-carrier-v1")
}

/// The AAD bound into every carrier message: it separates session
/// ciphertexts from any other AES-GCM use.
pub fn carrier_aad() -> (r: &'static [u8])
    ensures
        r@ == carrier_aad_spec(),
        r@.len() == 19,
{
    let s: &'static str = "kassiber-carrier-v1";
    proof {
        reveal_strlit("kassiber-carrier-v1");
        vstd::string::is_ascii_spec_bytes(s);
    }
    s.as_bytes()
}

/// Errors of the application-facing layer.
#[derive(Debug, Clone)]
pub enum KassiberFfiError {
    Crypto { msg: String },
    Transport { msg: String },
    Serialization { msg: String },
    SessionNotEstablished,
    Internal { msg: String },
}

/// [`KassiberFfiError`] with its messages seen as character sequences.
pub enum KassiberFfiErrorView {
    Crypto { msg: Seq<char> },
    Transport { msg: Seq<char> },
    Serialization { msg: Seq<char> },
    SessionNotEstablished,
    Internal { msg: Seq<char> },
}

impl View for KassiberFfiError {
    type V = KassiberFfiErrorView;

    open spec fn view(&self) -> KassiberFfiErrorView {
        match self {
            KassiberFfiError::Crypto { msg } => KassiberFfiErrorView::Crypto { msg: msg@ },
            KassiberFfiError::Transport { msg } => KassiberFfiErrorView::Transport { msg: msg@ },
            KassiberFfiError::Serialization { msg } => KassiberFfiErrorView::Serialization { msg: msg@ },
            KassiberFfiError::SessionNotEstablished => KassiberFfiErrorView::SessionNotEstablished,
            KassiberFfiError::Internal { msg } => KassiberFfiErrorView::Internal { msg: msg@ },
        }
    }
}

/// The text of an application-layer error.
pub open spec fn ffi_error_text(e: KassiberFfiErrorView) -> Seq<char> {
    match e {
        KassiberFfiErrorView::Crypto { msg } => "crypto error: "@ + msg,
        KassiberFfiErrorView::Transport { msg } => "transport error: "@ + msg,
        KassiberFfiErrorView::Serialization { msg } => "serialization error: "@ + msg,
        KassiberFfiErrorView::SessionNotEstablished => "session not established"@,
        KassiberFfiErrorView::Internal { msg } => "internal error: "@ + msg,
    }
}

/// The application-layer error for a crypto error.
pub open spec fn crypto_failure(e: KassiberErrorView) -> KassiberFfiErrorView {
    KassiberFfiErrorView::Crypto { msg: kassiber_error_text(e) }
}

/// The application-layer error for a transport error.
pub open spec fn transport_failure(e: TransportErrorView) -> KassiberFfiErrorView {
    KassiberFfiErrorView::Transport { msg: transport_error_text(e) }
}

/// The message of a wire encoding that does not decode.
pub open spec fn malformed_message() -> Seq<char> {
    "malformed wire encoding"@
}

impl KassiberFfiError {
    /// The application-layer error for a crypto error: its text.
    pub fn from_crypto(e: KassiberError) -> (r: Self)
        ensures
            r@ == crypto_failure(e@),
    {
        KassiberFfiError::Crypto { msg: e.to_string() }
    }

    /// The application-layer error for a transport error: its text.
    pub fn from_transport(e: TransportError) -> (r: Self)
        ensures
            r@ == transport_failure(e@),
    {
        KassiberFfiError::Transport { msg: e.to_string() }
    }

    /// The error's text.
    pub fn to_string(&self) -> (s: String)
        ensures
            s@ == ffi_error_text(self@),
    {
        let (p, m): (&str, &str) = match self {
            KassiberFfiError::Crypto { msg } => ("crypto error: ", msg.as_str()),
            KassiberFfiError::Transport { msg } => ("transport error: ", msg.as_str()),
            KassiberFfiError::Serialization { msg } => ("serialization error: ", msg.as_str()),
            KassiberFfiError::SessionNotEstablished => ("session not established", ""),
            KassiberFfiError::Internal { msg } => ("internal error: ", msg.as_str()),
        };
        let mut s = String::from_str(p);
        s.append(m);
        proof {
            reveal_strlit("");
            assert(""@ =~= Seq::<char>::empty());
            assert(s@ =~= ffi_error_text(self@));
        }
        s
    }
}

// ---------------------------------------------------------------------------
// Session messages on the wire
// ---------------------------------------------------------------------------

/// The wire form of a session message.
pub open spec fn message_bytes(counter: u32, aead: AesAead) -> Seq<u8> {
    le32(counter) + aead.nonce@ + aead.tag@ + aead.ciphertext@
}

/// The text of the error for a message shorter than its header.
pub open spec fn too_short_message(len: nat) -> Seq<char> {
    "message too short: "@ + decimal(len) + " bytes"@
}

/// Packs a session message: counter, nonce, tag, ciphertext.
pub fn pack_message(counter: u32, aead: &AesAead) -> (r: Vec<u8>)
    ensures
        r@ == message_bytes(counter, *aead),
{
    let mut out: Vec<u8> = Vec::new();
    push_le32(&mut out, counter);
    extend_bytes(&mut out, &aead.nonce);
    extend_bytes(&mut out, &aead.tag);
    extend_bytes(&mut out, aead.ciphertext.as_slice());
    out
}

/// Unpacks a session message; one shorter than its 32-byte header is a
/// `Serialization` error.
pub fn unpack_message(bytes: &[u8]) -> (r: Result<(u32, AesAead), KassiberFfiError>)
    ensures
        r is Err <==> bytes@.len() < HEADER_LEN,
        r matches Err(e) ==> e@ == (KassiberFfiErrorView::Serialization {
            msg: too_short_message(bytes@.len()),
        }),
        r matches Ok(p) ==> {
            &&& p.0 == from_le32(bytes@[0], bytes@[1], bytes@[2], bytes@[3])
            &&& p.1.nonce@ == bytes@.subrange(4, 16)
            &&& p.1.tag@ == bytes@.subrange(16, 32)
            &&& p.1.ciphertext@ == bytes@.subrange(32, bytes@.len() as int)
        },
{
    if bytes.len() < HEADER_LEN {
        let mut m = String::from_str("message too short: ");
        m.append(u64_to_decimal(bytes.len() as u64).as_str());
        m.append(" bytes");
        return Err(KassiberFfiError::Serialization { msg: m });
    }
    let counter: u32 = bytes[0] as u32 + 256 * (bytes[1] as u32) + 65536 * (bytes[2] as u32) + 16777216
        * (bytes[3] as u32);
    let nonce_bytes = copy_range(bytes, 4, 16);
    let mut nonce = [0u8; 12];
    let mut i: usize = 0;
    while i < 12
        invariant
            nonce_bytes@.len() == 12,
            0 <= i <= 12,
            forall|k: int| 0 <= k < i ==> nonce@[k] == nonce_bytes@[k],
        decreases 12 - i,
    {
        nonce[i] = nonce_bytes[i];
        i = i + 1;
    }
    assert(nonce@ =~= nonce_bytes@);
    let tag_bytes = copy_range(bytes, 16, 32);
    let tag = array16(tag_bytes.as_slice());
    let ciphertext = copy_range(bytes, 32, bytes.len());
    Ok((counter, AesAead { ciphertext, nonce, tag }))
}

/// Unpacking a packed session message gives it back.
pub proof fn lemma_message_roundtrip(counter: u32, aead: AesAead)
    ensures
        ({
            let b = message_bytes(counter, aead);
            &&& b.len() >= HEADER_LEN
            &&& from_le32(b[0], b[1], b[2], b[3]) == counter
            &&& b.subrange(4, 16) == aead.nonce@
            &&& b.subrange(16, 32) == aead.tag@
            &&& b.subrange(32, b.len() as int) == aead.ciphertext@
        }),
{
    let b = message_bytes(counter, aead);
    crate::util::lemma_le32_roundtrip(counter);
    assert(b.subrange(4, 16) =~= aead.nonce@);
    assert(b.subrange(16, 32) =~= aead.tag@);
    assert(b.subrange(32, b.len() as int) =~= aead.ciphertext@);
}

// ---------------------------------------------------------------------------
// The identity
// ---------------------------------------------------------------------------

/// One local identity with (at most) one established peer session.
pub struct KassiberIdentity {
    session: KassiberSession,
}

/// The carrier text that encodes a session message with the default codec.
pub open spec fn carrier_for(message: Seq<u8>) -> Seq<char> {
    carrier_text(packet_sentences(spec_packets(english_list(), spec_chunk(deflate_best(message), 2039))))
}

/// The conditions under which the default codec's carrier text decodes
/// back to `message`: the message fits the decompression limit and the
/// frame count.
pub open spec fn carrier_fits(message: Seq<u8>) -> bool {
    &&& message.len() <= MAX_DECOMPRESSED_SIZE
    &&& (deflate_best(message).len() <= 2039 || chunk_count(deflate_best(message).len(), 2039) <= 65535)
}

/// The plaintext that the session message `p` opens to under the receive
/// chain of `rv`, if it authenticates.
pub open spec fn carrier_plaintext(rv: RatchetView, p: Seq<u8>) -> Option<Seq<u8>> {
    let counter = from_le32(p[0], p[1], p[2], p[3]);
    aes_gcm_opened(
        aes_key_for(message_key_at(rv.recv_origin, counter)),
        p.subrange(4, 16),
        p.subrange(32, p.len() as int) + p.subrange(16, 32),
        carrier_aad_spec(),
    )
}

impl View for KassiberIdentity {
    type V = SessionView;

    closed spec fn view(&self) -> SessionView {
        self.session@
    }
}

impl KassiberIdentity {
    /// Well-formedness of the session.
    pub closed spec fn wf(&self) -> bool {
        self.session.wf()
    }

    /// A fresh identity in a new session with default settings.
    pub fn create() -> (r: Result<Self, KassiberFfiError>)
        ensures
            r matches Ok(id) && id.wf() && id@.state == SessionState::Handshaking && id@.identity is Some
                && id@.identity_dh is Some && id@.signed_prekey is None && id@.ratchet is None
                && id@.peer_identity is None && id@.peer_epoch is None,
    {
        let mut session = KassiberSession::new(SessionConfig::default());
        match session.initialize() {
            Ok(()) => {},
            Err(e) => return Err(KassiberFfiError::from_crypto(e)),
        }
        Ok(KassiberIdentity { session })
    }

    /// The encoded prekey bundle for onboarding; the matching secret prekey
    /// is kept for [`KassiberIdentity::accept_session`].
    pub fn export_prekey_bundle(&mut self) -> (r: Result<Vec<u8>, KassiberFfiError>)
        requires
            old(self).wf(),
        ensures
            final(self).wf(),
            r is Err <==> old(self)@.identity is None || old(self)@.identity_dh is None,
            r matches Err(e) ==> e@ == crypto_failure(
                KassiberErrorView::InvalidSession("No identity key"@),
            ) && final(self)@ == old(self)@,
            r matches Ok(bytes) ==> exists|b: PrekeyBundle|
                #![trigger bundle_bytes(b)]
                bytes@ == bundle_bytes(b) && (final(self)@.signed_prekey matches Some(pk) && pk.wf()
                    && published_bundle(old(self)@, pk, b) && bundle_verifies(b) && final(self)@ == (
                SessionView { signed_prekey: Some(pk), ..old(self)@ })),
    {
        match self.session.generate_prekey_bundle() {
            Ok(b) => Ok(b.to_bytes()),
            Err(e) => Err(KassiberFfiError::from_crypto(e)),
        }
    }

    /// Initiator side: decodes the peer's bundle, verifies it and runs the
    /// handshake; returns the encoded handshake message. Bytes that do not
    /// decode are a `Serialization` error.
    pub fn initiate_session(&mut self, bundle_bytes: Vec<u8>) -> (r: Result<Vec<u8>, KassiberFfiError>)
        requires
            old(self).wf(),
        ensures
            final(self).wf(),
            match parse_bundle(bundle_bytes@) {
                None => r matches Err(e) && e@ == (KassiberFfiErrorView::Serialization {
                    msg: malformed_message(),
                }) && final(self)@ == old(self)@,
                Some((fs, epoch)) => exists|b: PrekeyBundle|
                    #![trigger bundle_fields(b)]
                    bundle_fields(b) == fs && b.epoch == epoch && match initiator_error(old(self)@, b) {
                        Some(err) => r matches Err(x) && x@ == crypto_failure(err) && final(self)@
                            == old(self)@,
                        None => r matches Ok(bytes) && exists|hs: HandshakeMessage, m: Seq<u8>, e: Seq<u8>|
                            #![trigger initiator_outcome(old(self)@, b, m, e, hs, final(self)@)]
                            bytes@ == handshake_bytes(hs) && m.len() == 32 && e.len() == 32
                                && initiator_outcome(old(self)@, b, m, e, hs, final(self)@),
                    },
            },
    {
        let bundle = match PrekeyBundle::from_bytes(bundle_bytes.as_slice()) {
            Some(b) => b,
            None => return Err(KassiberFfiError::Serialization { msg: String::from_str("malformed wire encoding") }),
        };
        assert(bundle_fields(bundle) == parse_bundle(bundle_bytes@)->Some_0.0);
        let hs = match self.session.process_prekey_bundle(&bundle) {
            Ok(hs) => hs,
            Err(e) => return Err(KassiberFfiError::from_crypto(e)),
        };
        proof {
            let (m, e) = choose|m: Seq<u8>, e: Seq<u8>|
                m.len() == 32 && e.len() == 32 && #[trigger] initiator_outcome(old(self)@, bundle, m, e, hs, self@);
            assert(initiator_outcome(old(self)@, bundle, m, e, hs, self@));
        }
        Ok(hs.to_bytes())
    }

    /// Responder side: decodes and accepts the handshake message produced by
    /// the peer's [`KassiberIdentity::initiate_session`].
    pub fn accept_session(&mut self, handshake_bytes: Vec<u8>) -> (r: Result<(), KassiberFfiError>)
        requires
            old(self).wf(),
        ensures
            final(self).wf(),
            match parse_handshake(handshake_bytes@) {
                None => r matches Err(e) && e@ == (KassiberFfiErrorView::Serialization {
                    msg: malformed_message(),
                }) && final(self)@ == old(self)@,
                Some((fs, epoch)) => exists|m: HandshakeMessage|
                    #![trigger handshake_fields(m)]
                    handshake_fields(m) == fs && m.initiator_epoch == epoch && match responder_error(
                        old(self)@,
                        m,
                    ) {
                        Some(err) => r matches Err(x) && x@ == crypto_failure(err) && final(self)@
                            == old(self)@,
                        None => r is Ok && responder_outcome(old(self)@, m, final(self)@),
                    },
            },
    {
        let msg = match HandshakeMessage::from_bytes(handshake_bytes.as_slice()) {
            Some(m) => m,
            None => return Err(KassiberFfiError::Serialization { msg: String::from_str("malformed wire encoding") }),
        };
        assert(handshake_fields(msg) == parse_handshake(handshake_bytes@)->Some_0.0);
        match self.session.accept_handshake(&msg) {
            Ok(()) => Ok(()),
            Err(e) => Err(KassiberFfiError::from_crypto(e)),
        }
    }

    /// Whether the session is established.
    pub fn is_session_established(&self) -> (b: bool)
        ensures
            b == (self@.state == SessionState::Established),
    {
        match self.session.state() {
            SessionState::Established => true,
            _ => false,
        }
    }

    /// Encrypts with the next send key and encodes the session message as a
    /// marked carrier text. Before the session is established,
    /// `SessionNotEstablished`.
    pub fn encrypt_for_carrier(&mut self, plaintext: Vec<u8>) -> (r: Result<String, KassiberFfiError>)
        requires
            old(self).wf(),
        ensures
            final(self).wf(),
            old(self)@.state != SessionState::Established ==> (r matches Err(e) && e@
                == KassiberFfiErrorView::SessionNotEstablished && final(self)@ == old(self)@),
            old(self)@.state == SessionState::Established ==> match old(self)@.ratchet {
                None => r is Err && final(self)@ == old(self)@,
                Some(rv) => if rv.send_counter >= rv.max_messages_per_phase {
                    r is Err && final(self)@ == old(self)@
                } else {
                    let key = aes_key_for(message_key_at(rv.send_origin, rv.send_counter));
                    &&& final(self)@ == (SessionView {
                        ratchet: Some(RatchetView { send_counter: (rv.send_counter + 1) as u32, ..rv }),
                        ..old(self)@
                    })
                    &&& r matches Ok(s) ==> exists|a: AesAead|
                        #![trigger message_bytes(rv.send_counter, a)]
                        a.sealed() == aes_gcm_sealed(key, a.nonce@, plaintext@, carrier_aad_spec())
                            && aes_gcm_opened(key, a.nonce@, a.sealed(), carrier_aad_spec()) == Some(
                            plaintext@,
                        ) && s@ == carrier_for(message_bytes(rv.send_counter, a)) && (carrier_fits(
                            message_bytes(rv.send_counter, a),
                        ) ==> spec_decode_carrier(english_list(), s@) == Some(
                            Ok::<Option<Seq<u8>>, TransportErrorView>(Some(message_bytes(rv.send_counter, a))),
                        ))
                    &&& (r is Err <==> plaintext@.len() > AES_GCM_P_MAX)
                    &&& r matches Err(e) ==> e@ is Crypto
                },
            },
    {
        if !self.is_session_established() {
            return Err(KassiberFfiError::SessionNotEstablished);
        }
        let (aead, counter) = match self.session.encrypt(plaintext.as_slice(), carrier_aad()) {
            Ok(p) => p,
            Err(e) => return Err(KassiberFfiError::from_crypto(e)),
        };
        let codec = TransportCodec::new(TransportConfig::default());
        let packed = pack_message(counter, &aead);
        match codec.encode_single(packed.as_slice()) {
            Ok(s) => Ok(s),
            Err(e) => Err(KassiberFfiError::from_transport(e)),
        }
    }

    /// Finds a marked payload in `carrier_text`, decodes it and decrypts
    /// the session message. Text without the marker is `None`, whatever the
    /// session; a marked payload must decode and decrypt.
    pub fn decrypt_from_carrier(&mut self, carrier_text: String) -> (r: Result<Option<Vec<u8>>, KassiberFfiError>)
        requires
            old(self).wf(),
        ensures
            final(self).wf(),
            find_from(carrier_text@, KASSIBER_MARKER@, 0) is None ==> (r matches Ok(None) && final(self)@
                == old(self)@),
            find_from(carrier_text@, KASSIBER_MARKER@, 0) is Some && old(self)@.state
                != SessionState::Established ==> (r matches Err(e) && e@
                == KassiberFfiErrorView::SessionNotEstablished && final(self)@ == old(self)@),
            find_from(carrier_text@, KASSIBER_MARKER@, 0) is Some && old(self)@.state
                == SessionState::Established ==> match spec_decode_carrier(
                english_list(),
                carrier_text@,
            ) {
                Some(Err(e)) => r matches Err(x) && x@ == transport_failure(e) && final(self)@ == old(self)@,
                Some(Ok(None)) => r matches Ok(None) && final(self)@ == old(self)@,
                None => r is Err && final(self)@ == old(self)@,
                Some(Ok(Some(p))) => if p.len() < HEADER_LEN {
                    r matches Err(x) && x@ == (KassiberFfiErrorView::Serialization {
                        msg: too_short_message(p.len()),
                    }) && final(self)@ == old(self)@
                } else {
                    match old(self)@.ratchet {
                        None => r is Err && final(self)@ == old(self)@,
                        Some(rv) => {
                            let counter = from_le32(p[0], p[1], p[2], p[3]);
                            let accepted = recv_hit(rv, counter) || (counter >= rv.recv_counter
                                && !too_far(rv, counter));
                            &&& !accepted ==> r is Err && final(self)@ == old(self)@
                            &&& accepted ==> final(self)@.ratchet is Some && final(self)@ == (
                            SessionView { ratchet: final(self)@.ratchet, ..old(self)@ })
                                && match carrier_plaintext(rv, p) {
                                Some(pt) => r matches Ok(Some(x)) && x@ == pt,
                                None => r is Err,
                            }
                        },
                    }
                },
            },
    {
        if !TransportCodec::detect_kassiber(carrier_text.as_str()) {
            return Ok(None);
        }
        if !self.is_session_established() {
            return Err(KassiberFfiError::SessionNotEstablished);
        }
        let codec = TransportCodec::new(TransportConfig::default());
        let payload = match codec.decode_from_carrier(carrier_text.as_str()) {
            Ok(Some(p)) => p,
            Ok(None) => return Ok(None),
            Err(e) => return Err(KassiberFfiError::from_transport(e)),
        };
        let (counter, aead) = match unpack_message(payload.as_slice()) {
            Ok(x) => x,
            Err(e) => return Err(e),
        };
        proof {
            assert(aead.sealed() =~= payload@.subrange(32, payload@.len() as int) + payload@.subrange(16, 32));
        }
        match self.session.decrypt(counter, &aead, carrier_aad()) {
            Ok(res) => Ok(Some(res.plaintext)),
            Err(e) => Err(KassiberFfiError::from_crypto(e)),
        }
    }
}

/// Whether `text` holds the marker; never touches any session.
pub fn detect_kassiber(text: String) -> (b: bool)
    ensures
        b == find_from(text@, KASSIBER_MARKER@, 0) is Some,
{
    TransportCodec::detect_kassiber(text.as_str())
}

/// A fresh ML-KEM-768 encapsulation key (a smoke test of the key
/// generation).
pub fn test_pqc_keygen() -> (r: Result<Vec<u8>, KassiberFfiError>)
    ensures
        r matches Ok(k) && exists|seed: Seq<u8>| seed.len() == 64 && k@ == #[trigger] ml_kem_encapsulation_key(seed),
        r matches Ok(k) ==> k@.len() == 1184,
{
    let kp = match HybridKeyPair::generate() {
        Ok(k) => k,
        Err(e) => return Err(KassiberFfiError::from_crypto(e)),
    };
    Ok(kp.public_key().pq_encap.bytes)
}

/// An AES-256-GCM round trip under a fixed key and a random nonce (a smoke
/// test): whether decrypting the encryption gives the plaintext back.
pub fn test_aes_roundtrip(plaintext: Vec<u8>) -> (r: Result<bool, KassiberFfiError>)
    ensures
        plaintext@.len() <= AES_GCM_P_MAX ==> r == Ok::<bool, KassiberFfiError>(true),
        plaintext@.len() > AES_GCM_P_MAX ==> r is Err,
{
    let key = Aes256GcmKey::from_shared_secret("test_key_32_bytes_for_testing!".as_bytes());
    let aad: Vec<u8> = vec![97u8, 97u8, 100u8];
    let encrypted = match key.encrypt(plaintext.as_slice(), aad.as_slice()) {
        Ok(a) => a,
        Err(e) => return Err(KassiberFfiError::from_crypto(e)),
    };
    let decrypted = match key.decrypt(&encrypted, aad.as_slice()) {
        Ok(d) => d,
        Err(e) => return Err(KassiberFfiError::from_crypto(e)),
    };
    Ok(crate::session::bytes_equal(decrypted.as_slice(), plaintext.as_slice()))
}


/// What one end encrypts for the carrier, the other end decrypts from it:
/// where the sender's send chain is the receiver's receive chain (as both
/// ends of a handshake hold them), the carrier text of the sender's session
/// message decodes to that message, and the message opens under the
/// receiver's key for its counter to the plaintext. The English list is a
/// carrier dictionary (as [`TransportCodec::default`] ensures), the carrier
/// must fit ([`carrier_fits`]) and the compressed message must decompress to
/// it.
pub proof fn lemma_carrier_delivery(sender: RatchetView, receiver: RatchetView, a: AesAead, plaintext: Seq<u8>)
    requires
        carrier_dictionary(english_list()),
        sender.send_origin == receiver.recv_origin,
        aes_gcm_opened(
            aes_key_for(message_key_at(sender.send_origin, sender.send_counter)),
            a.nonce@,
            a.sealed(),
            carrier_aad_spec(),
        ) == Some(plaintext),
        carrier_fits(message_bytes(sender.send_counter, a)),
        inflate_prefix(
            deflate_best(message_bytes(sender.send_counter, a)),
            (MAX_DECOMPRESSED_SIZE + 1) as nat,
        ) == Some(message_bytes(sender.send_counter, a)),
    ensures
        spec_decode_carrier(english_list(), carrier_for(message_bytes(sender.send_counter, a))) == Some(
            Ok::<Option<Seq<u8>>, TransportErrorView>(Some(message_bytes(sender.send_counter, a))),
        ),
        message_bytes(sender.send_counter, a).len() >= HEADER_LEN,
        carrier_plaintext(receiver, message_bytes(sender.send_counter, a)) == Some(plaintext),
{
    let mb = message_bytes(sender.send_counter, a);
    lemma_carrier_roundtrip(english_list(), mb, 2039);
    lemma_message_roundtrip(sender.send_counter, a);
    assert(mb.subrange(32, mb.len() as int) + mb.subrange(16, 32) =~= a.sealed());
}

} // verus!
