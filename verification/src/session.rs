//! Session establishment: authenticated hybrid prekey handshake.
//!
//! 1. The responder publishes a [`PrekeyBundle`]: identity keys (ML-DSA-65,
//!    Ed25519, X25519), a signed prekey (ML-KEM-768 + X25519) and a dual
//!    signature over the prekey transcript.
//! 2. The initiator verifies the dual signature before any state change,
//!    encapsulates against the KEM prekey, computes DH(ephemeral, prekey) and
//!    DH(ephemeral, identity), and derives the root secret with HKDF over
//!    `kem_ss || dh1 || dh2`, bound to both Ed25519 identities.
//! 3. The responder recomputes the same secret from the
//!    [`HandshakeMessage`] and its own secret keys.
//!
//! The initiator drives `Role::Initiator` chains, the responder the mirrored
//! `Role::Responder` chains.
use vstd::prelude::*;
use vstd::string::*;
use crate::error::{KassiberError, KassiberErrorView, kview};
use crate::primitives::{AES_GCM_A_MAX, AES_GCM_P_MAX, ML_KEM_CT_SIZE, ML_KEM_SEED_SIZE, AesAead, aes_gcm_opened, aes_gcm_sealed, ml_kem_decapsulated, ml_kem_encapsulated, ml_kem_encapsulation_key, ml_kem_key_valid, spec_decapsulate, x25519_dh, random_fill, DualKeyPair, DualSignature, HybridKeyPair, PostQuantumPublicKey, X25519KeyPair, array32, concat_bytes, dual_accepts, ed25519_signature, ed25519_verifying_key, hkdf32, hkdf_salt, hkdf_sha256, ml_dsa_signature, tag, x25519_public, x25519_shared};
use crate::ratchet::{RatchetConfig, RatchetView, Role, TripleRatchetAdapter, aes_key_for, lemma_mirrored_chains, chain_origin, initial_root, message_key_at, recv_hit, too_far};
use crate::util::{bytes_to_vec, decimal, extend_bytes, le64, push_le64, u64_to_decimal};
use crate::wire::{bytes_field, fields_bytes, lemma_fields_roundtrip, parse_bytes, parse_fields, parse_varint, push_bytes_field, push_varint, read_bytes, read_fields, read_varint, varint, lemma_varint_roundtrip};

verus! {

/// Wire tag of an ordinary message.
pub const WIRE_MESSAGE: u8 = 1;

/// Wire tag of a prekey bundle.
pub const WIRE_PREKEY: u8 = 2;

/// Wire tag of a handshake reply.
pub const WIRE_REPLY: u8 = 3;

/// Wire tag of a session reset.
pub const WIRE_SESSION_RESET: u8 = 4;

/// Session settings.
#[derive(Debug, Clone)]
pub struct SessionConfig {
    pub ratchet_config: RatchetConfig,
    pub max_skipped_messages: u32,
}

impl Default for SessionConfig {
    fn default() -> (c: Self)
        ensures
            c.ratchet_config.max_messages_per_phase == 1000,
            c.ratchet_config.max_lookahead == 2000,
            c.ratchet_config.rekey_interval_secs == 86400,
            c.ratchet_config.max_skipped_keys == 1000,
            c.max_skipped_messages == 1000,
    {
        SessionConfig { ratchet_config: RatchetConfig::default(), max_skipped_messages: 1000 }
    }
}

// ---------------------------------------------------------------------------
// Epochs
// ---------------------------------------------------------------------------

/// A monotone epoch counter bound to an identity key.
#[derive(Debug, Clone)]
pub struct EpochCounter {
    value: u64,
    identity_key_binding: Vec<u8>,
}

/// The text of the error for a remote epoch that is not newer.
pub open spec fn epoch_not_greater_message(remote: u64, local: u64) -> Seq<char> {
    "Epoch counter "@ + decimal(remote as nat) + " not greater than "@ + decimal(local as nat)
}

impl EpochCounter {
    /// The counter value.
    pub closed spec fn value(&self) -> u64 {
        self.value
    }

    /// The identity key the counter is bound to.
    pub closed spec fn binding(&self) -> Seq<u8> {
        self.identity_key_binding@
    }

    /// A counter at zero bound to `identity_key_binding`.
    pub fn new(identity_key_binding: Vec<u8>) -> (c: Self)
        ensures
            c.value() == 0,
            c.binding() == identity_key_binding@,
    {
        EpochCounter { value: 0, identity_key_binding }
    }

    /// Advances the counter; returns the new value.
    pub fn increment(&mut self) -> (r: u64)
        requires
            old(self).value() < u64::MAX,
        ensures
            r == old(self).value() + 1,
            final(self).value() == r,
            final(self).binding() == old(self).binding(),
    {
        self.value = self.value + 1;
        self.value
    }

    /// A remote epoch is acceptable for a refresh only if strictly newer.
    pub fn validate_remote(&self, remote_epoch: u64) -> (r: Result<(), KassiberError>)
        ensures
            r is Ok <==> remote_epoch > self.value(),
            r matches Err(e) ==> e@ == KassiberErrorView::InvalidInput(
                epoch_not_greater_message(remote_epoch, self.value()),
            ),
    {
        if remote_epoch <= self.value {
            let mut m = String::from_str("Epoch counter ");
            m.append(u64_to_decimal(remote_epoch).as_str());
            m.append(" not greater than ");
            m.append(u64_to_decimal(self.value).as_str());
            Err(KassiberError::InvalidInput(m))
        } else {
            Ok(())
        }
    }

    /// The counter value.
    pub fn current(&self) -> (r: u64)
        ensures
            r == self.value(),
    {
        self.value
    }

    /// The wire encoding: the value (varint), then the binding.
    pub fn to_bytes(&self) -> (r: Result<Vec<u8>, KassiberError>)
        ensures
            r matches Ok(v) && v@ == varint(self.value()) + bytes_field(self.binding()),
    {
        let mut out: Vec<u8> = Vec::new();
        push_varint(&mut out, self.value);
        push_bytes_field(&mut out, self.identity_key_binding.as_slice());
        Ok(out)
    }
}

// ---------------------------------------------------------------------------
// Dual signatures on the wire
// ---------------------------------------------------------------------------

/// The wire encoding of a dual signature.
pub open spec fn dual_signature_bytes(ml_dsa_sig: Seq<u8>, ed25519_sig: Seq<u8>) -> Seq<u8> {
    fields_bytes(seq![ml_dsa_sig, ed25519_sig])
}

/// The two halves of an encoded dual signature, if it decodes.
pub open spec fn parse_dual_signature(s: Seq<u8>) -> Option<(Seq<u8>, Seq<u8>)> {
    match parse_fields(s, 0, 2) {
        Some((fs, _)) => Some((fs[0], fs[1])),
        None => None,
    }
}

/// Encodes a dual signature.
pub fn encode_dual_signature(sig: &DualSignature) -> (r: Vec<u8>)
    ensures
        r@ == dual_signature_bytes(sig.ml_dsa_sig@, sig.ed25519_sig@),
{
    let mut out: Vec<u8> = Vec::new();
    push_bytes_field(&mut out, sig.ml_dsa_sig.as_slice());
    push_bytes_field(&mut out, sig.ed25519_sig.as_slice());
    proof {
        lemma_two_fields(sig.ml_dsa_sig@, sig.ed25519_sig@);
    }
    out
}

/// Decodes a dual signature; trailing bytes are ignored.
pub fn decode_dual_signature(s: &[u8]) -> (r: Option<DualSignature>)
    ensures
        match parse_dual_signature(s@) {
            Some((a, b)) => r matches Some(sig) && sig.ml_dsa_sig@ == a && sig.ed25519_sig@ == b,
            None => r is None,
        },
{
    let (fs, _) = match read_fields(s, 0, 2) {
        Some(x) => x,
        None => return None,
    };
    let ml_dsa_sig = bytes_to_vec(fs[0].as_slice());
    let ed25519_sig = bytes_to_vec(fs[1].as_slice());
    Some(DualSignature { ml_dsa_sig, ed25519_sig })
}

/// An encoded dual signature decodes to its halves.
pub proof fn lemma_dual_signature_roundtrip(ml_dsa_sig: Seq<u8>, ed25519_sig: Seq<u8>)
    requires
        ml_dsa_sig.len() <= u64::MAX,
        ed25519_sig.len() <= u64::MAX,
    ensures
        parse_dual_signature(dual_signature_bytes(ml_dsa_sig, ed25519_sig)) == Some((ml_dsa_sig, ed25519_sig)),
{
    let fs = seq![ml_dsa_sig, ed25519_sig];
    let s = dual_signature_bytes(ml_dsa_sig, ed25519_sig);
    assert(s.subrange(0, s.len() as int) =~= s);
    lemma_fields_roundtrip(s, 0, fs);
}

/// Two encoded fields, one after the other.
pub proof fn lemma_two_fields(a: Seq<u8>, b: Seq<u8>)
    ensures
        fields_bytes(seq![a, b]) == bytes_field(a) + bytes_field(b),
{
    let fs = seq![a, b];
    let f1 = fs.drop_last();
    assert(f1 =~= seq![a]);
    assert(f1.drop_last() =~= Seq::<Seq<u8>>::empty());
    assert(fields_bytes(f1.drop_last()) == Seq::<u8>::empty());
    assert(fields_bytes(f1) =~= bytes_field(a));
}

// ---------------------------------------------------------------------------
// Bundles and handshake messages
// ---------------------------------------------------------------------------

/// Signed prekey bundle published by the responder.
#[derive(Debug, Clone)]
pub struct PrekeyBundle {
    /// ML-DSA-65 identity verifying key.
    pub identity_ml_dsa: Vec<u8>,
    /// Ed25519 identity verifying key.
    pub identity_ed25519: Vec<u8>,
    /// X25519 identity key.
    pub identity_x25519: Vec<u8>,
    /// ML-KEM-768 encapsulation prekey.
    pub kem_prekey: Vec<u8>,
    /// X25519 signed prekey.
    pub x25519_prekey: Vec<u8>,
    /// Encoded [`DualSignature`] over the prekey transcript.
    pub prekey_signature: Vec<u8>,
    pub epoch: u64,
}

/// Initiator-to-responder handshake message.
#[derive(Debug, Clone)]
pub struct HandshakeMessage {
    /// ML-KEM-768 ciphertext against the responder's KEM prekey.
    pub kem_ct: Vec<u8>,
    /// Initiator's ephemeral X25519 public key.
    pub ephemeral_x25519: Vec<u8>,
    /// Initiator's Ed25519 identity key.
    pub initiator_identity: Vec<u8>,
    pub initiator_epoch: u64,
}

/// A signed session refresh: a new bundle and a dual signature over the
/// reset transcript.
#[derive(Debug, Clone)]
pub struct SessionReset {
    pub new_bundle: PrekeyBundle,
    /// Encoded [`DualSignature`] over the reset transcript.
    pub dual_signature: Vec<u8>,
    pub epoch_counter: u64,
}

/// The byte-string fields of a bundle, in order.
pub open spec fn bundle_fields(b: PrekeyBundle) -> Seq<Seq<u8>> {
    seq![
        b.identity_ml_dsa@,
        b.identity_ed25519@,
        b.identity_x25519@,
        b.kem_prekey@,
        b.x25519_prekey@,
        b.prekey_signature@,
    ]
}

/// The wire encoding of a bundle: its six fields, then the epoch.
pub open spec fn bundle_bytes(b: PrekeyBundle) -> Seq<u8> {
    fields_bytes(bundle_fields(b)) + varint(b.epoch)
}

/// The fields and epoch of an encoded bundle, if it decodes.
pub open spec fn parse_bundle(s: Seq<u8>) -> Option<(Seq<Seq<u8>>, u64)> {
    match parse_fields(s, 0, 6) {
        None => None,
        Some((fs, p)) => match parse_varint(s, p) {
            None => None,
            Some((e, _)) => Some((fs, e)),
        },
    }
}

/// The byte-string fields of a handshake message, in order.
pub open spec fn handshake_fields(m: HandshakeMessage) -> Seq<Seq<u8>> {
    seq![m.kem_ct@, m.ephemeral_x25519@, m.initiator_identity@]
}

/// The wire encoding of a handshake message: its three fields, then the
/// epoch.
pub open spec fn handshake_bytes(m: HandshakeMessage) -> Seq<u8> {
    fields_bytes(handshake_fields(m)) + varint(m.initiator_epoch)
}

/// The fields and epoch of an encoded handshake message, if it decodes.
pub open spec fn parse_handshake(s: Seq<u8>) -> Option<(Seq<Seq<u8>>, u64)> {
    match parse_fields(s, 0, 3) {
        None => None,
        Some((fs, p)) => match parse_varint(s, p) {
            None => None,
            Some((e, _)) => Some((fs, e)),
        },
    }
}

/// Encoded fields followed by a varint read back as the fields and the
/// number.
proof fn lemma_fields_then_varint(fs: Seq<Seq<u8>>, n: u64)
    requires
        forall|j: int| 0 <= j < fs.len() ==> (#[trigger] fs[j]).len() <= u64::MAX,
    ensures
        ({
            let s = fields_bytes(fs) + varint(n);
            &&& parse_fields(s, 0, fs.len()) == Some((fs, fields_bytes(fs).len() as int))
            &&& parse_varint(s, fields_bytes(fs).len() as int) == Some((n, s.len() as int))
        }),
{
    let a = fields_bytes(fs);
    let s = a + varint(n);
    assert(s.subrange(0, a.len() as int) =~= a);
    lemma_fields_roundtrip(s, 0, fs);
    assert(s.subrange(a.len() as int, (a.len() + varint(n).len()) as int) =~= varint(n));
    lemma_varint_roundtrip(s, a.len() as int, n);
}

/// A byte vector's length fits a `u64`.
proof fn lemma_vec_len_fits(v: &Vec<u8>)
    ensures
        v@.len() <= u64::MAX,
{
    broadcast use vstd::std_specs::vec::axiom_spec_len;
    assert(v.len() == v@.len());
}

/// An encoded bundle decodes to its fields and epoch.
pub proof fn lemma_bundle_roundtrip(b: PrekeyBundle)
    ensures
        parse_bundle(bundle_bytes(b)) == Some((bundle_fields(b), b.epoch)),
{
    lemma_vec_len_fits(&b.identity_ml_dsa);
    lemma_vec_len_fits(&b.identity_ed25519);
    lemma_vec_len_fits(&b.identity_x25519);
    lemma_vec_len_fits(&b.kem_prekey);
    lemma_vec_len_fits(&b.x25519_prekey);
    lemma_vec_len_fits(&b.prekey_signature);
    lemma_fields_then_varint(bundle_fields(b), b.epoch);
}

/// An encoded handshake message decodes to its fields and epoch.
pub proof fn lemma_handshake_roundtrip(m: HandshakeMessage)
    ensures
        parse_handshake(handshake_bytes(m)) == Some((handshake_fields(m), m.initiator_epoch)),
{
    lemma_vec_len_fits(&m.kem_ct);
    lemma_vec_len_fits(&m.ephemeral_x25519);
    lemma_vec_len_fits(&m.initiator_identity);
    lemma_fields_then_varint(handshake_fields(m), m.initiator_epoch);
}

/// The transcript that the prekey signature covers: prekeys bound to the
/// identities and the epoch.
pub open spec fn prekey_transcript(b: PrekeyBundle) -> Seq<u8> {
    tag("kassiber-prekey-v1") + b.identity_ml_dsa@ + b.identity_ed25519@ + b.identity_x25519@
        + b.kem_prekey@ + b.x25519_prekey@ + le64(b.epoch)
}

/// The transcript that a reset signature covers.
pub open spec fn reset_transcript(b: PrekeyBundle, epoch: u64) -> Seq<u8> {
    tag("kassiber-reset-v1") + bundle_bytes(b) + le64(epoch)
}

/// Whether a bundle's prekey signature decodes and verifies under the
/// bundle's identity keys.
pub open spec fn bundle_verifies(b: PrekeyBundle) -> bool {
    match parse_dual_signature(b.prekey_signature@) {
        None => false,
        Some((ml, ed)) => dual_accepts(ml, ed, prekey_transcript(b), b.identity_ml_dsa@, b.identity_ed25519@),
    }
}

/// Whether a reset's signature decodes and verifies under the new bundle's
/// identity keys.
pub open spec fn reset_verifies(r: SessionReset) -> bool {
    match parse_dual_signature(r.dual_signature@) {
        None => false,
        Some((ml, ed)) => dual_accepts(
            ml,
            ed,
            reset_transcript(r.new_bundle, r.epoch_counter),
            r.new_bundle.identity_ml_dsa@,
            r.new_bundle.identity_ed25519@,
        ),
    }
}

/// The handshake root: HKDF-SHA-256 over `kem_ss || dh1 || dh2`, bound to
/// both identities.
pub open spec fn handshake_root(kem_ss: Seq<u8>, dh1: Seq<u8>, dh2: Seq<u8>, initiator_identity: Seq<u8>, responder_identity: Seq<u8>) -> Seq<u8> {
    hkdf_sha256(
        hkdf_salt(tag("kassiber-handshake-salt-v1")),
        kem_ss + dh1 + dh2,
        tag("kassiber-handshake-v1") + initiator_identity + responder_identity,
    )
}

impl PrekeyBundle {
    /// The transcript that the prekey signature covers.
    pub fn signature_transcript(&self) -> (t: Vec<u8>)
        ensures
            t@ == prekey_transcript(*self),
    {
        let mut t: Vec<u8> = Vec::new();
        extend_bytes(&mut t, "kassiber-prekey-v1".as_bytes());
        extend_bytes(&mut t, self.identity_ml_dsa.as_slice());
        extend_bytes(&mut t, self.identity_ed25519.as_slice());
        extend_bytes(&mut t, self.identity_x25519.as_slice());
        extend_bytes(&mut t, self.kem_prekey.as_slice());
        extend_bytes(&mut t, self.x25519_prekey.as_slice());
        push_le64(&mut t, self.epoch);
        t
    }

    /// The wire encoding.
    pub fn to_bytes(&self) -> (r: Vec<u8>)
        ensures
            r@ == bundle_bytes(*self),
    {
        let mut out: Vec<u8> = Vec::new();
        push_bytes_field(&mut out, self.identity_ml_dsa.as_slice());
        push_bytes_field(&mut out, self.identity_ed25519.as_slice());
        push_bytes_field(&mut out, self.identity_x25519.as_slice());
        push_bytes_field(&mut out, self.kem_prekey.as_slice());
        push_bytes_field(&mut out, self.x25519_prekey.as_slice());
        push_bytes_field(&mut out, self.prekey_signature.as_slice());
        push_varint(&mut out, self.epoch);
        proof {
            lemma_fields_unfold(bundle_fields(*self));
        }
        out
    }

    /// Decodes a bundle; trailing bytes are ignored.
    pub fn from_bytes(s: &[u8]) -> (r: Option<Self>)
        ensures
            match parse_bundle(s@) {
                Some((fs, e)) => r matches Some(b) && bundle_fields(b) == fs && b.epoch == e,
                None => r is None,
            },
    {
        let (fs, p) = match read_fields(s, 0, 6) {
            Some(x) => x,
            None => return None,
        };
        let (epoch, _) = match read_varint(s, p) {
            Some(x) => x,
            None => return None,
        };
        let b = PrekeyBundle {
            identity_ml_dsa: bytes_to_vec(fs[0].as_slice()),
            identity_ed25519: bytes_to_vec(fs[1].as_slice()),
            identity_x25519: bytes_to_vec(fs[2].as_slice()),
            kem_prekey: bytes_to_vec(fs[3].as_slice()),
            x25519_prekey: bytes_to_vec(fs[4].as_slice()),
            prekey_signature: bytes_to_vec(fs[5].as_slice()),
            epoch,
        };
        proof {
            let pf = parse_fields(s@, 0, 6)->Some_0.0;
            assert(bundle_fields(b) =~= pf);
        }
        Some(b)
    }
}

impl HandshakeMessage {
    /// The wire encoding.
    pub fn to_bytes(&self) -> (r: Vec<u8>)
        ensures
            r@ == handshake_bytes(*self),
    {
        let mut out: Vec<u8> = Vec::new();
        push_bytes_field(&mut out, self.kem_ct.as_slice());
        push_bytes_field(&mut out, self.ephemeral_x25519.as_slice());
        push_bytes_field(&mut out, self.initiator_identity.as_slice());
        push_varint(&mut out, self.initiator_epoch);
        proof {
            lemma_fields_unfold(handshake_fields(*self));
        }
        out
    }

    /// Decodes a handshake message; trailing bytes are ignored.
    pub fn from_bytes(s: &[u8]) -> (r: Option<Self>)
        ensures
            match parse_handshake(s@) {
                Some((fs, e)) => r matches Some(m) && handshake_fields(m) == fs && m.initiator_epoch == e,
                None => r is None,
            },
    {
        let (fs, p) = match read_fields(s, 0, 3) {
            Some(x) => x,
            None => return None,
        };
        let (epoch, _) = match read_varint(s, p) {
            Some(x) => x,
            None => return None,
        };
        let m = HandshakeMessage {
            kem_ct: bytes_to_vec(fs[0].as_slice()),
            ephemeral_x25519: bytes_to_vec(fs[1].as_slice()),
            initiator_identity: bytes_to_vec(fs[2].as_slice()),
            initiator_epoch: epoch,
        };
        proof {
            let pf = parse_fields(s@, 0, 3)->Some_0.0;
            assert(handshake_fields(m) =~= pf);
        }
        Some(m)
    }
}

/// Encoded fields unfold into their encodings in order.
proof fn lemma_fields_unfold(fs: Seq<Seq<u8>>)
    ensures
        fs.len() == 3 ==> fields_bytes(fs) == bytes_field(fs[0]) + bytes_field(fs[1]) + bytes_field(fs[2]),
        fs.len() == 6 ==> fields_bytes(fs) == bytes_field(fs[0]) + bytes_field(fs[1]) + bytes_field(fs[2])
            + bytes_field(fs[3]) + bytes_field(fs[4]) + bytes_field(fs[5]),
{
    if fs.len() == 3 || fs.len() == 6 {
        let mut k: int = 0;
        lemma_fields_prefix(fs, fs.len() as int);
    }
}

/// The encoding of the first `k` fields, unfolded.
proof fn lemma_fields_prefix(fs: Seq<Seq<u8>>, k: int)
    requires
        0 <= k <= fs.len(),
        fs.len() <= 6,
    ensures
        fields_bytes(fs.subrange(0, k)) == (if k == 0 { Seq::<u8>::empty() } else { fields_bytes(fs.subrange(0, k - 1)) + bytes_field(fs[k - 1]) }),
        k == 3 ==> fields_bytes(fs.subrange(0, k)) == bytes_field(fs[0]) + bytes_field(fs[1]) + bytes_field(fs[2]),
        k == 6 ==> fields_bytes(fs.subrange(0, k)) == bytes_field(fs[0]) + bytes_field(fs[1]) + bytes_field(fs[2])
            + bytes_field(fs[3]) + bytes_field(fs[4]) + bytes_field(fs[5]),
        k == fs.len() ==> fs.subrange(0, k) == fs,
    decreases k,
{
    if k > 0 {
        assert(fs.subrange(0, k).drop_last() =~= fs.subrange(0, k - 1));
        lemma_fields_prefix(fs, k - 1);
        if k >= 2 {
            lemma_fields_prefix(fs, k - 2);
        }
        if k >= 3 {
            lemma_fields_prefix(fs, k - 3);
        }
        if k >= 4 {
            lemma_fields_prefix(fs, k - 4);
        }
        if k >= 5 {
            lemma_fields_prefix(fs, k - 5);
        }
        if k >= 6 {
            lemma_fields_prefix(fs, k - 6);
        }
    } else {
        assert(fs.subrange(0, 0) =~= Seq::<Seq<u8>>::empty());
    }
    if k == fs.len() {
        assert(fs.subrange(0, k) =~= fs);
    }
}

/// Derives the handshake root bound to both identities.
pub fn derive_handshake_root(kem_ss: &[u8], dh1: &[u8], dh2: &[u8], initiator_identity: &[u8], responder_identity: &[u8]) -> (r: [u8; 32])
    ensures
        r@ == handshake_root(kem_ss@, dh1@, dh2@, initiator_identity@, responder_identity@),
{
    let mut ikm = bytes_to_vec(kem_ss);
    extend_bytes(&mut ikm, dh1);
    extend_bytes(&mut ikm, dh2);
    let mut info = bytes_to_vec("kassiber-handshake-v1".as_bytes());
    extend_bytes(&mut info, initiator_identity);
    extend_bytes(&mut info, responder_identity);
    hkdf32(ikm.as_slice(), "kassiber-handshake-salt-v1".as_bytes(), info.as_slice())
}

/// A 32-byte X25519 public key; other lengths are `InvalidInput`.
pub fn x25519_pub(bytes: &[u8]) -> (r: Result<[u8; 32], KassiberError>)
    ensures
        r is Ok <==> bytes@.len() == 32,
        r matches Ok(k) ==> k@ == bytes@,
        r matches Err(e) ==> e@ == KassiberErrorView::InvalidInput("X25519 key must be 32 bytes"@),
{
    if bytes.len() != 32 {
        return Err(KassiberError::InvalidInput(String::from_str("X25519 key must be 32 bytes")));
    }
    Ok(array32(bytes))
}

// ---------------------------------------------------------------------------
// The session
// ---------------------------------------------------------------------------

/// Where a session stands.
#[derive(Debug, Clone, Copy, PartialEq, Eq, Structural)]
pub enum SessionState {
    Uninitialized,
    Handshaking,
    Established,
    NeedsReset,
}

/// A decrypted message and its counter.
#[derive(Debug)]
pub struct DecryptResult {
    pub plaintext: Vec<u8>,
    pub message_counter: u32,
}

/// One local identity with (at most) one peer session.
pub struct KassiberSession {
    state: SessionState,
    config: SessionConfig,
    identity_key: Option<DualKeyPair>,
    /// X25519 identity key (signature identities cannot do DH).
    identity_dh: Option<X25519KeyPair>,
    /// Our current signed prekey pair (secret parts stay local).
    signed_prekey: Option<HybridKeyPair>,
    ratchet: Option<TripleRatchetAdapter>,
    epoch_counter: EpochCounter,
    peer_identity: Option<Vec<u8>>,
    /// Highest epoch accepted from the peer.
    peer_epoch: Option<u64>,
}

/// A session seen as its parts.
pub struct SessionView {
    pub state: SessionState,
    pub config: SessionConfig,
    pub identity: Option<DualKeyPair>,
    pub identity_dh: Option<X25519KeyPair>,
    pub signed_prekey: Option<HybridKeyPair>,
    pub ratchet: Option<RatchetView>,
    pub epoch: u64,
    pub epoch_binding: Seq<u8>,
    pub peer_identity: Option<Seq<u8>>,
    pub peer_epoch: Option<u64>,
}

impl View for KassiberSession {
    type V = SessionView;

    closed spec fn view(&self) -> SessionView {
        SessionView {
            state: self.state,
            config: self.config,
            identity: self.identity_key,
            identity_dh: self.identity_dh,
            signed_prekey: self.signed_prekey,
            ratchet: match self.ratchet {
                Some(r) => Some(r.spqr@),
                None => None,
            },
            epoch: self.epoch_counter.value(),
            epoch_binding: self.epoch_counter.binding(),
            peer_identity: match self.peer_identity {
                Some(p) => Some(p@),
                None => None,
            },
            peer_epoch: self.peer_epoch,
        }
    }
}

/// Keys that belong together in a session's parts.
pub open spec fn session_keys_wf(v: SessionView) -> bool {
    &&& v.identity matches Some(k) ==> k.ml_dsa.wf()
    &&& v.identity_dh matches Some(x) ==> x.public@ == x25519_public(x.secret@)
    &&& v.signed_prekey matches Some(p) ==> p.wf()
}

/// The ratchet limits a session uses: its ratchet settings with the
/// session's bound on skipped messages.
pub open spec fn established_ratchet(rv: RatchetView, root: Seq<u8>, role: Role, c: SessionConfig) -> bool {
    &&& rv.root == initial_root(root)
    &&& rv.send_origin == chain_origin(rv.root, role, true)
    &&& rv.recv_origin == chain_origin(rv.root, role, false)
    &&& rv.send_counter == 0
    &&& rv.recv_counter == 0
    &&& rv.skipped.len() == 0
    &&& rv.role == role
    &&& rv.max_messages_per_phase == c.ratchet_config.max_messages_per_phase
    &&& rv.max_lookahead == c.ratchet_config.max_lookahead
    &&& rv.max_skipped_keys == c.max_skipped_messages
    &&& rv.rekey_interval_secs == c.ratchet_config.rekey_interval_secs
}

/// The text of the error for a bundle older than the peer's epoch.
pub open spec fn stale_bundle_message(epoch: u64, have: u64) -> Seq<char> {
    "Stale bundle epoch "@ + decimal(epoch as nat) + " (have "@ + decimal(have as nat) + ")"@
}

/// The text of the error for a reset that is not newer than the peer's
/// epoch.
pub open spec fn reset_not_newer_message(epoch: u64, have: u64) -> Seq<char> {
    "Reset epoch "@ + decimal(epoch as nat) + " not newer than "@ + decimal(have as nat)
}

/// The error with which processing the bundle `b` fails, if any, checked
/// in order: the signature, the epoch, the KEM prekey, the X25519 keys,
/// our identity.
pub open spec fn initiator_error(v: SessionView, b: PrekeyBundle) -> Option<KassiberErrorView> {
    if !bundle_verifies(b) {
        Some(KassiberErrorView::SignatureVerification)
    } else if (match v.peer_epoch {
        Some(p) => b.epoch < p,
        None => false,
    }) {
        Some(KassiberErrorView::InvalidInput(stale_bundle_message(b.epoch, v.peer_epoch.unwrap())))
    } else if !ml_kem_key_valid(b.kem_prekey@) {
        Some(KassiberErrorView::Encryption("invalid ML-KEM-768 encapsulation key"@))
    } else if b.x25519_prekey@.len() != 32 || b.identity_x25519@.len() != 32 {
        Some(KassiberErrorView::InvalidInput("X25519 key must be 32 bytes"@))
    } else if v.identity is None {
        Some(KassiberErrorView::InvalidSession("No identity key"@))
    } else {
        None
    }
}

/// What processing the bundle `b` with the KEM message `m` and the
/// ephemeral secret `e` yields: the handshake message `hs` and the session
/// `w`, established as initiator on the handshake root.
pub open spec fn initiator_outcome(v: SessionView, b: PrekeyBundle, m: Seq<u8>, e: Seq<u8>, hs: HandshakeMessage, w: SessionView) -> bool {
    let (ct, k) = ml_kem_encapsulated(b.kem_prekey@, m);
    let own = ed25519_verifying_key(v.identity.unwrap().ed25519@);
    let root = handshake_root(
        k,
        x25519_shared(e, b.x25519_prekey@),
        x25519_shared(e, b.identity_x25519@),
        own,
        b.identity_ed25519@,
    );
    &&& hs.kem_ct@ == ct
    &&& hs.kem_ct@.len() == ML_KEM_CT_SIZE
    &&& hs.ephemeral_x25519@ == x25519_public(e)
    &&& hs.ephemeral_x25519@.len() == 32
    &&& hs.initiator_identity@ == own
    &&& hs.initiator_epoch == v.epoch
    &&& w.ratchet matches Some(rv) && established_ratchet(rv, root, Role::Initiator, v.config)
    &&& w == (SessionView {
        state: SessionState::Established,
        ratchet: w.ratchet,
        peer_identity: Some(b.identity_ed25519@),
        peer_epoch: Some(b.epoch),
        ..v
    })
}

/// The error with which accepting the handshake `msg` fails, if any.
pub open spec fn responder_error(v: SessionView, msg: HandshakeMessage) -> Option<KassiberErrorView> {
    if v.signed_prekey is None {
        Some(KassiberErrorView::InvalidSession("No signed prekey stored"@))
    } else if v.identity_dh is None {
        Some(KassiberErrorView::InvalidSession("No identity key"@))
    } else if spec_decapsulate(v.signed_prekey.unwrap().pq.secret@, msg.kem_ct@) is Err {
        Some(spec_decapsulate(v.signed_prekey.unwrap().pq.secret@, msg.kem_ct@)->Err_0)
    } else if msg.ephemeral_x25519@.len() != 32 {
        Some(KassiberErrorView::InvalidInput("X25519 key must be 32 bytes"@))
    } else if v.identity is None {
        Some(KassiberErrorView::InvalidSession("No identity key"@))
    } else {
        None
    }
}

/// The handshake root the responder computes from `msg`.
pub open spec fn responder_root(v: SessionView, msg: HandshakeMessage) -> Seq<u8> {
    let pk = v.signed_prekey.unwrap();
    let dh = v.identity_dh.unwrap();
    handshake_root(
        ml_kem_decapsulated(pk.pq.secret@, msg.kem_ct@),
        x25519_shared(pk.classical.secret@, msg.ephemeral_x25519@),
        x25519_shared(dh.secret@, msg.ephemeral_x25519@),
        msg.initiator_identity@,
        ed25519_verifying_key(v.identity.unwrap().ed25519@),
    )
}

/// What accepting the handshake `msg` yields: the session `w`, established
/// as responder on the handshake root.
pub open spec fn responder_outcome(v: SessionView, msg: HandshakeMessage, w: SessionView) -> bool {
    &&& w.ratchet matches Some(rv) && established_ratchet(rv, responder_root(v, msg), Role::Responder, v.config)
    &&& w == (SessionView {
        state: SessionState::Established,
        ratchet: w.ratchet,
        peer_identity: Some(msg.initiator_identity@),
        peer_epoch: Some(msg.initiator_epoch),
        ..v
    })
}

impl KassiberSession {
    /// Well-formedness: keys that belong together, and a well-formed
    /// ratchet.
    pub closed spec fn wf(&self) -> bool {
        &&& session_keys_wf(self@)
        &&& self.ratchet matches Some(r) ==> r.spqr.wf()
    }

    /// A session with no identity yet.
    pub fn new(config: SessionConfig) -> (s: Self)
        ensures
            s.wf(),
            s@ == (SessionView {
                state: SessionState::Uninitialized,
                config,
                identity: None,
                identity_dh: None,
                signed_prekey: None,
                ratchet: None,
                epoch: 0,
                epoch_binding: Seq::empty(),
                peer_identity: None,
                peer_epoch: None,
            }),
    {
        let epoch = EpochCounter::new(Vec::new());
        KassiberSession {
            state: SessionState::Uninitialized,
            config,
            identity_key: None,
            identity_dh: None,
            signed_prekey: None,
            ratchet: None,
            epoch_counter: epoch,
            peer_identity: None,
            peer_epoch: None,
        }
    }

    /// Generates a fresh identity (dual signing keys and an X25519 key) and
    /// an epoch counter at zero bound to its Ed25519 verifying key.
    pub fn initialize(&mut self) -> (r: Result<(), KassiberError>)
        requires
            old(self).wf(),
        ensures
            final(self).wf(),
            r is Ok,
            final(self)@.identity matches Some(k) && final(self)@.identity_dh is Some && final(self)@
                == (SessionView {
                state: SessionState::Handshaking,
                identity: final(self)@.identity,
                identity_dh: final(self)@.identity_dh,
                epoch: 0,
                epoch_binding: ed25519_verifying_key(k.ed25519@),
                ..old(self)@
            }),
    {
        let ik = match DualKeyPair::generate() {
            Ok(k) => k,
            Err(e) => return Err(e),
        };
        let identity_dh = X25519KeyPair::generate();
        let (_, ik_pub) = ik.verifying_keys();
        let epoch = EpochCounter::new(bytes_to_vec(&ik_pub));
        self.identity_key = Some(ik);
        self.identity_dh = Some(identity_dh);
        self.epoch_counter = epoch;
        self.state = SessionState::Handshaking;
        Ok(())
    }

    /// Where the session stands.
    pub fn state(&self) -> (r: &SessionState)
        ensures
            *r == self@.state,
    {
        &self.state
    }

    /// Whether the session waits for a reset.
    pub fn needs_reset(&self) -> (b: bool)
        ensures
            b == (self@.state == SessionState::NeedsReset),
    {
        match self.state {
            SessionState::NeedsReset => true,
            _ => false,
        }
    }

    /// Our epoch.
    pub fn epoch(&self) -> (r: u64)
        ensures
            r == self@.epoch,
    {
        self.epoch_counter.current()
    }

    /// Our Ed25519 identity verifying key.
    fn own_identity_ed(&self) -> (r: Result<[u8; 32], KassiberError>)
        ensures
            r is Ok <==> self@.identity is Some,
            r matches Ok(k) ==> k@ == ed25519_verifying_key(self@.identity.unwrap().ed25519@),
            r matches Err(e) ==> e@ == KassiberErrorView::InvalidSession("No identity key"@),
    {
        match &self.identity_key {
            Some(ik) => Ok(ik.verifying_keys().1),
            None => Err(KassiberError::InvalidSession(String::from_str("No identity key"))),
        }
    }
}

/// The ratchet settings of a session: its ratchet settings with the
/// session's bound on skipped messages.
fn session_ratchet_config(c: &SessionConfig) -> (r: RatchetConfig)
    ensures
        r.max_messages_per_phase == c.ratchet_config.max_messages_per_phase,
        r.max_lookahead == c.ratchet_config.max_lookahead,
        r.rekey_interval_secs == c.ratchet_config.rekey_interval_secs,
        r.max_skipped_keys == c.max_skipped_messages,
{
    RatchetConfig {
        max_messages_per_phase: c.ratchet_config.max_messages_per_phase,
        max_lookahead: c.ratchet_config.max_lookahead,
        rekey_interval_secs: c.ratchet_config.rekey_interval_secs,
        max_skipped_keys: c.max_skipped_messages,
    }
}

/// The bundle a session publishes: our identity keys, the prekey's public
/// keys, our epoch, and the encoded dual signature over its transcript.
pub open spec fn published_bundle(v: SessionView, pk: HybridKeyPair, b: PrekeyBundle) -> bool {
    let ik = v.identity.unwrap();
    &&& b.identity_ml_dsa@ == ik.ml_dsa.public@
    &&& b.identity_ed25519@ == ed25519_verifying_key(ik.ed25519@)
    &&& b.identity_x25519@ == v.identity_dh.unwrap().public@
    &&& b.kem_prekey@ == pk.pq.public@
    &&& b.x25519_prekey@ == pk.classical.public@
    &&& b.epoch == v.epoch
    &&& b.prekey_signature@ == dual_signature_bytes(
        ml_dsa_signature(ik.ml_dsa.secret@, prekey_transcript(b)),
        ed25519_signature(ik.ed25519@, prekey_transcript(b)),
    )
}

impl KassiberSession {
    /// Generates a fresh signed prekey, keeps it, and returns the bundle
    /// that publishes it. Without an identity, `InvalidSession`. The bundle
    /// passes [`bundle_verifies`].
    pub fn generate_prekey_bundle(&mut self) -> (r: Result<PrekeyBundle, KassiberError>)
        requires
            old(self).wf(),
        ensures
            final(self).wf(),
            r is Err <==> old(self)@.identity is None || old(self)@.identity_dh is None,
            r matches Err(e) ==> e@ == KassiberErrorView::InvalidSession("No identity key"@) && final(self)@
                == old(self)@,
            r matches Ok(b) ==> final(self)@.signed_prekey matches Some(pk) && pk.wf() && published_bundle(
                old(self)@,
                pk,
                b,
            ) && bundle_verifies(b) && final(self)@ == (SessionView {
                signed_prekey: Some(pk),
                ..old(self)@
            }),
    {
        if self.identity_key.is_none() || self.identity_dh.is_none() {
            return Err(KassiberError::InvalidSession(String::from_str("No identity key")));
        }
        let prekey = match HybridKeyPair::generate() {
            Ok(p) => p,
            Err(e) => return Err(e),
        };
        let ik = self.identity_key.as_ref().unwrap();
        let identity_dh = self.identity_dh.as_ref().unwrap();
        let (identity_ml_dsa, identity_ed25519) = ik.verifying_keys();
        let epoch = self.epoch_counter.current();
        let mut bundle = PrekeyBundle {
            identity_ml_dsa,
            identity_ed25519: bytes_to_vec(&identity_ed25519),
            identity_x25519: bytes_to_vec(&identity_dh.public),
            kem_prekey: prekey.pq.public.clone(),
            x25519_prekey: bytes_to_vec(&prekey.classical.public),
            prekey_signature: Vec::new(),
            epoch,
        };
        let transcript = bundle.signature_transcript();
        let signature = match ik.sign(transcript.as_slice()) {
            Ok(sg) => sg,
            Err(e) => return Err(e),
        };
        bundle.prekey_signature = encode_dual_signature(&signature);
        proof {
            assert(prekey_transcript(bundle) == transcript@);
            lemma_dual_signature_roundtrip(signature.ml_dsa_sig@, signature.ed25519_sig@);
        }
        self.signed_prekey = Some(prekey);
        Ok(bundle)
    }

    /// Checks a bundle's dual signature; any failure is
    /// `SignatureVerification`.
    pub fn verify_bundle(bundle: &PrekeyBundle) -> (r: Result<(), KassiberError>)
        ensures
            r is Ok <==> bundle_verifies(*bundle),
            r matches Err(e) ==> e@ == KassiberErrorView::SignatureVerification,
    {
        let sig = match decode_dual_signature(bundle.prekey_signature.as_slice()) {
            Some(sg) => sg,
            None => return Err(KassiberError::SignatureVerification),
        };
        let transcript = bundle.signature_transcript();
        sig.verify(transcript.as_slice(), bundle.identity_ml_dsa.as_slice(), bundle.identity_ed25519.as_slice())
    }

    /// Initiator side with the KEM message `m` and the ephemeral X25519
    /// secret `ephemeral`: verifies the bundle before any state change, runs
    /// the hybrid handshake, establishes the session and returns the
    /// handshake message for the responder.
    pub fn process_prekey_bundle_with(&mut self, bundle: &PrekeyBundle, m: [u8; 32], ephemeral: [u8; 32]) -> (r: Result<HandshakeMessage, KassiberError>)
        requires
            old(self).wf(),
        ensures
            final(self).wf(),
            match initiator_error(old(self)@, *bundle) {
                Some(err) => r matches Err(x) && x@ == err && final(self)@ == old(self)@,
                None => r matches Ok(hs) && initiator_outcome(
                    old(self)@,
                    *bundle,
                    m@,
                    ephemeral@,
                    hs,
                    final(self)@,
                ),
            },
            r matches Ok(hs) ==> hs.initiator_epoch == old(self)@.epoch && final(self)@.epoch == old(self)@.epoch,
    {
        // 1. The signature, before any state change.
        match Self::verify_bundle(bundle) {
            Ok(()) => {},
            Err(e) => return Err(e),
        }
        // 2. Re-handshakes at the same epoch are allowed, older ones are not.
        match self.peer_epoch {
            Some(peer_epoch) => {
                if bundle.epoch < peer_epoch {
                    let mut msg = String::from_str("Stale bundle epoch ");
                    msg.append(u64_to_decimal(bundle.epoch).as_str());
                    msg.append(" (have ");
                    msg.append(u64_to_decimal(peer_epoch).as_str());
                    msg.append(")");
                    return Err(KassiberError::InvalidInput(msg));
                }
            },
            None => {},
        }
        // 3. The hybrid handshake.
        let kem_pk = PostQuantumPublicKey { bytes: bundle.kem_prekey.clone() };
        let (kem_ss, kem_ct) = match kem_pk.encapsulate_with(m) {
            Ok(p) => p,
            Err(e) => return Err(e),
        };
        let eph = X25519KeyPair::from_secret(ephemeral);
        let peer_prekey_x = match x25519_pub(bundle.x25519_prekey.as_slice()) {
            Ok(k) => k,
            Err(e) => return Err(e),
        };
        let peer_identity_x = match x25519_pub(bundle.identity_x25519.as_slice()) {
            Ok(k) => k,
            Err(e) => return Err(e),
        };
        let dh1 = x25519_dh(&eph.secret, &peer_prekey_x);
        let dh2 = x25519_dh(&eph.secret, &peer_identity_x);
        let own_id_ed = match self.own_identity_ed() {
            Ok(k) => k,
            Err(e) => return Err(e),
        };
        let root = derive_handshake_root(
            kem_ss.as_slice(),
            &dh1,
            &dh2,
            &own_id_ed,
            bundle.identity_ed25519.as_slice(),
        );
        // 4. Only now the state changes.
        let ratchet_config = session_ratchet_config(&self.config);
        let ratchet = match TripleRatchetAdapter::new(&root, ratchet_config, Role::Initiator) {
            Ok(a) => a,
            Err(e) => return Err(e),
        };
        self.ratchet = Some(ratchet);
        self.peer_identity = Some(bundle.identity_ed25519.clone());
        self.peer_epoch = Some(bundle.epoch);
        self.state = SessionState::Established;
        let own_epoch = self.epoch_counter.current();
        Ok(HandshakeMessage {
            kem_ct,
            ephemeral_x25519: bytes_to_vec(&eph.public),
            initiator_identity: bytes_to_vec(&own_id_ed),
            initiator_epoch: own_epoch,
        })
    }

    /// Initiator side with fresh randomness; see
    /// [`KassiberSession::process_prekey_bundle_with`].
    pub fn process_prekey_bundle(&mut self, bundle: &PrekeyBundle) -> (r: Result<HandshakeMessage, KassiberError>)
        requires
            old(self).wf(),
        ensures
            final(self).wf(),
            match initiator_error(old(self)@, *bundle) {
                Some(err) => r matches Err(x) && x@ == err && final(self)@ == old(self)@,
                None => r matches Ok(hs) && exists|m: Seq<u8>, e: Seq<u8>|
                    m.len() == 32 && e.len() == 32 && #[trigger] initiator_outcome(
                        old(self)@,
                        *bundle,
                        m,
                        e,
                        hs,
                        final(self)@,
                    ),
            },
            r matches Ok(hs) ==> hs.initiator_epoch == old(self)@.epoch && final(self)@.epoch == old(self)@.epoch,
    {
        let mut m = [0u8; 32];
        random_fill(&mut m);
        let mut ephemeral = [0u8; 32];
        random_fill(&mut ephemeral);
        self.process_prekey_bundle_with(bundle, m, ephemeral)
    }

    /// Responder side: completes the handshake with our stored prekey
    /// secrets and establishes the session. The X25519 parts of the root are
    /// those the initiator computed from its ephemeral secret.
    pub fn accept_handshake(&mut self, msg: &HandshakeMessage) -> (r: Result<(), KassiberError>)
        requires
            old(self).wf(),
        ensures
            final(self).wf(),
            match responder_error(old(self)@, *msg) {
                Some(err) => r matches Err(x) && x@ == err && final(self)@ == old(self)@,
                None => r is Ok && responder_outcome(old(self)@, *msg, final(self)@),
            },
            r is Ok ==> forall|e: Seq<u8>|
                e.len() == 32 && msg.ephemeral_x25519@ == #[trigger] x25519_public(e) ==> {
                    let pk = old(self)@.signed_prekey.unwrap();
                    let dh = old(self)@.identity_dh.unwrap();
                    &&& x25519_shared(pk.classical.secret@, msg.ephemeral_x25519@) == x25519_shared(
                        e,
                        x25519_public(pk.classical.secret@),
                    )
                    &&& x25519_shared(dh.secret@, msg.ephemeral_x25519@) == x25519_shared(
                        e,
                        x25519_public(dh.secret@),
                    )
                },
    {
        if self.signed_prekey.is_none() {
            return Err(KassiberError::InvalidSession(String::from_str("No signed prekey stored")));
        }
        if self.identity_dh.is_none() {
            return Err(KassiberError::InvalidSession(String::from_str("No identity key")));
        }
        let prekey = self.signed_prekey.as_ref().unwrap();
        let identity_dh = self.identity_dh.as_ref().unwrap();
        let kem_ss = match prekey.pq.decapsulate(msg.kem_ct.as_slice()) {
            Ok(k) => k,
            Err(e) => return Err(e),
        };
        let eph_pub = match x25519_pub(msg.ephemeral_x25519.as_slice()) {
            Ok(k) => k,
            Err(e) => return Err(e),
        };
        let dh1 = x25519_dh(&prekey.classical.secret, &eph_pub);
        let dh2 = x25519_dh(&identity_dh.secret, &eph_pub);
        let own_id_ed = match self.own_identity_ed() {
            Ok(k) => k,
            Err(e) => return Err(e),
        };
        let root = derive_handshake_root(
            kem_ss.as_slice(),
            &dh1,
            &dh2,
            msg.initiator_identity.as_slice(),
            &own_id_ed,
        );
        let ratchet_config = session_ratchet_config(&self.config);
        let ratchet = match TripleRatchetAdapter::new(&root, ratchet_config, Role::Responder) {
            Ok(a) => a,
            Err(e) => return Err(e),
        };
        self.ratchet = Some(ratchet);
        self.peer_identity = Some(msg.initiator_identity.clone());
        self.peer_epoch = Some(msg.initiator_epoch);
        self.state = SessionState::Established;
        Ok(())
    }
}

/// The error with which applying the reset `r` fails, if any, checked in
/// order: the epoch against the peer's, the bundle's epoch, the reset
/// signature, the peer's identity, then the bundle itself.
pub open spec fn reset_error(v: SessionView, r: SessionReset) -> Option<KassiberErrorView> {
    if (match v.peer_epoch {
        Some(p) => r.epoch_counter <= p,
        None => false,
    }) {
        Some(KassiberErrorView::InvalidInput(reset_not_newer_message(r.epoch_counter, v.peer_epoch.unwrap())))
    } else if r.new_bundle.epoch != r.epoch_counter {
        Some(KassiberErrorView::InvalidInput("Reset epoch does not match bundle epoch"@))
    } else if !reset_verifies(r) {
        Some(KassiberErrorView::SignatureVerification)
    } else if (match v.peer_identity {
        Some(p) => p != r.new_bundle.identity_ed25519@,
        None => false,
    }) {
        Some(KassiberErrorView::SignatureVerification)
    } else {
        initiator_error(v, r.new_bundle)
    }
}

impl KassiberSession {
    /// Encrypts with the next send key of the established session.
    pub fn encrypt(&mut self, plaintext: &[u8], aad: &[u8]) -> (r: Result<(AesAead, u32), KassiberError>)
        requires
            old(self).wf(),
        ensures
            final(self).wf(),
            match old(self)@.ratchet {
                None => r matches Err(e) && e@ == KassiberErrorView::InvalidSession(
                    "Session not established"@,
                ) && final(self)@ == old(self)@,
                Some(rv) => if rv.send_counter >= rv.max_messages_per_phase {
                    r matches Err(e) && e@ == KassiberErrorView::RatchetDesync(
                        "Max messages per phase exceeded"@,
                    ) && final(self)@ == old(self)@
                } else {
                    let key = aes_key_for(message_key_at(rv.send_origin, rv.send_counter));
                    &&& final(self)@ == (SessionView {
                        ratchet: Some(RatchetView { send_counter: (rv.send_counter + 1) as u32, ..rv }),
                        ..old(self)@
                    })
                    &&& (r is Err <==> plaintext@.len() > AES_GCM_P_MAX || aad@.len() > AES_GCM_A_MAX)
                    &&& r matches Ok(p) ==> p.1 == rv.send_counter && p.0.sealed() == aes_gcm_sealed(
                        key,
                        p.0.nonce@,
                        plaintext@,
                        aad@,
                    ) && aes_gcm_opened(key, p.0.nonce@, p.0.sealed(), aad@) == Some(plaintext@)
                },
            },
    {
        match &mut self.ratchet {
            Some(ratchet) => ratchet.encrypt(plaintext, aad),
            None => Err(KassiberError::InvalidSession(String::from_str("Session not established"))),
        }
    }

    /// Decrypts the message `counter` with the established session's
    /// receive key for it.
    pub fn decrypt(&mut self, counter: u32, aead: &AesAead, aad: &[u8]) -> (r: Result<DecryptResult, KassiberError>)
        requires
            old(self).wf(),
        ensures
            final(self).wf(),
            match old(self)@.ratchet {
                None => r matches Err(e) && e@ == KassiberErrorView::InvalidSession(
                    "Session not established"@,
                ) && final(self)@ == old(self)@,
                Some(rv) => {
                    let accepted = recv_hit(rv, counter) || (counter >= rv.recv_counter && !too_far(rv, counter));
                    &&& final(self)@.ratchet is Some
                    &&& final(self)@ == (SessionView { ratchet: final(self)@.ratchet, ..old(self)@ })
                    &&& !accepted ==> r is Err && final(self)@ == old(self)@
                    &&& accepted ==> match aes_gcm_opened(
                        aes_key_for(message_key_at(rv.recv_origin, counter)),
                        aead.nonce@,
                        aead.sealed(),
                        aad@,
                    ) {
                        Some(p) => r matches Ok(x) && x.plaintext@ == p && x.message_counter == counter,
                        None => r is Err,
                    }
                },
            },
    {
        match &mut self.ratchet {
            Some(ratchet) => {
                let plaintext = match ratchet.decrypt(counter, aead, aad) {
                    Ok(p) => p,
                    Err(e) => return Err(e),
                };
                Ok(DecryptResult { plaintext, message_counter: counter })
            },
            None => Err(KassiberError::InvalidSession(String::from_str("Session not established"))),
        }
    }

    /// Starts a session refresh: advances our epoch, publishes a fresh
    /// signed bundle, and dual-signs the reset transcript. The session goes
    /// back to `Handshaking` until the peer answers.
    pub fn initiate_reset(&mut self) -> (r: Result<SessionReset, KassiberError>)
        requires
            old(self).wf(),
            old(self)@.epoch < u64::MAX,
        ensures
            final(self).wf(),
            old(self)@.identity is None ==> (r matches Err(e) && e@ == KassiberErrorView::InvalidSession(
                "No identity key"@,
            ) && final(self)@ == old(self)@),
            old(self)@.identity is Some && old(self)@.identity_dh is None ==> (r matches Err(e) && e@
                == KassiberErrorView::InvalidSession("No identity key"@) && final(self)@ == (SessionView {
                epoch: (old(self)@.epoch + 1) as u64,
                ..old(self)@
            })),
            old(self)@.identity is Some && old(self)@.identity_dh is Some ==> (r matches Ok(reset)
                && final(self)@.signed_prekey matches Some(pk) && pk.wf() && {
                let ik = old(self)@.identity.unwrap();
                let e = (old(self)@.epoch + 1) as u64;
                let t = reset_transcript(reset.new_bundle, e);
                &&& reset.epoch_counter == e
                &&& published_bundle(SessionView { epoch: e, ..old(self)@ }, pk, reset.new_bundle)
                &&& bundle_verifies(reset.new_bundle)
                &&& reset.dual_signature@ == dual_signature_bytes(
                    ml_dsa_signature(ik.ml_dsa.secret@, t),
                    ed25519_signature(ik.ed25519@, t),
                )
                &&& reset_verifies(reset)
                &&& final(self)@ == (SessionView {
                    state: SessionState::Handshaking,
                    ratchet: None,
                    signed_prekey: Some(pk),
                    epoch: e,
                    ..old(self)@
                })
            }),
    {
        if self.identity_key.is_none() {
            return Err(KassiberError::InvalidSession(String::from_str("No identity key")));
        }
        let new_epoch = self.epoch_counter.increment();
        let new_bundle = match self.generate_prekey_bundle() {
            Ok(b) => b,
            Err(e) => return Err(e),
        };
        let mut transcript = bytes_to_vec("kassiber-reset-v1".as_bytes());
        let encoded = new_bundle.to_bytes();
        extend_bytes(&mut transcript, encoded.as_slice());
        push_le64(&mut transcript, new_epoch);
        let ik = self.identity_key.as_ref().unwrap();
        let dual_sig = match ik.sign(transcript.as_slice()) {
            Ok(sg) => sg,
            Err(e) => return Err(e),
        };
        self.ratchet = None;
        self.state = SessionState::Handshaking;
        let reset = SessionReset {
            new_bundle,
            dual_signature: encode_dual_signature(&dual_sig),
            epoch_counter: new_epoch,
        };
        proof {
            assert(transcript@ == reset_transcript(reset.new_bundle, new_epoch));
            lemma_dual_signature_roundtrip(dual_sig.ml_dsa_sig@, dual_sig.ed25519_sig@);
        }
        Ok(reset)
    }

    /// Applies a peer's reset: checks its epoch and signature and that it
    /// comes from the known peer, then processes the new bundle like a
    /// fresh handshake.
    pub fn apply_reset(&mut self, reset: &SessionReset) -> (r: Result<HandshakeMessage, KassiberError>)
        requires
            old(self).wf(),
        ensures
            final(self).wf(),
            match reset_error(old(self)@, *reset) {
                Some(err) => r matches Err(x) && x@ == err && final(self)@ == old(self)@,
                None => r matches Ok(hs) && final(self)@.peer_epoch == Some(reset.epoch_counter)
                    && exists|m: Seq<u8>, e: Seq<u8>|
                    m.len() == 32 && e.len() == 32 && #[trigger] initiator_outcome(
                        old(self)@,
                        reset.new_bundle,
                        m,
                        e,
                        hs,
                        final(self)@,
                    ),
            },
            r matches Ok(hs) ==> hs.initiator_epoch == old(self)@.epoch && final(self)@.epoch == old(self)@.epoch,
    {
        // 1. The epoch must be strictly newer than anything seen from the peer.
        match self.peer_epoch {
            Some(peer_epoch) => {
                if reset.epoch_counter <= peer_epoch {
                    let mut msg = String::from_str("Reset epoch ");
                    msg.append(u64_to_decimal(reset.epoch_counter).as_str());
                    msg.append(" not newer than ");
                    msg.append(u64_to_decimal(peer_epoch).as_str());
                    return Err(KassiberError::InvalidInput(msg));
                }
            },
            None => {},
        }
        if reset.new_bundle.epoch != reset.epoch_counter {
            return Err(
                KassiberError::InvalidInput(String::from_str("Reset epoch does not match bundle epoch")),
            );
        }
        // 2. The reset signature over the exact transcript.
        let sig = match decode_dual_signature(reset.dual_signature.as_slice()) {
            Some(sg) => sg,
            None => return Err(KassiberError::SignatureVerification),
        };
        let mut transcript = bytes_to_vec("kassiber-reset-v1".as_bytes());
        let encoded = reset.new_bundle.to_bytes();
        extend_bytes(&mut transcript, encoded.as_slice());
        push_le64(&mut transcript, reset.epoch_counter);
        assert(transcript@ == reset_transcript(reset.new_bundle, reset.epoch_counter));
        match sig.verify(
            transcript.as_slice(),
            reset.new_bundle.identity_ml_dsa.as_slice(),
            reset.new_bundle.identity_ed25519.as_slice(),
        ) {
            Ok(()) => {},
            Err(e) => return Err(e),
        }
        // 3. A known peer must reset from the same identity.
        match &self.peer_identity {
            Some(peer_identity) => {
                if !bytes_equal(peer_identity.as_slice(), reset.new_bundle.identity_ed25519.as_slice()) {
                    return Err(KassiberError::SignatureVerification);
                }
            },
            None => {},
        }
        // 4. The bundle, like a fresh handshake.
        self.process_prekey_bundle(&reset.new_bundle)
    }
}

/// Whether two byte strings are equal.
pub fn bytes_equal(a: &[u8], b: &[u8]) -> (r: bool)
    ensures
        r == (a@ == b@),
{
    if a.len() != b.len() {
        return false;
    }
    let mut i: usize = 0;
    while i < a.len()
        invariant
            a@.len() == b@.len(),
            0 <= i <= a@.len(),
            forall|k: int| 0 <= k < i ==> a@[k] == b@[k],
        decreases a@.len() - i,
    {
        if a[i] != b[i] {
            return false;
        }
        i = i + 1;
    }
    assert(a@ =~= b@);
    true
}

// ---------------------------------------------------------------------------
// The handshake law
// ---------------------------------------------------------------------------

/// Both ends of a handshake hold the same session: when the initiator
/// processed the responder's published bundle (with the KEM message `m` and
/// the ephemeral secret `e`) and the responder accepted the resulting
/// handshake message, their ratchets share the root and run mirrored
/// chains. The X25519 parts agree as [`KassiberSession::accept_handshake`]
/// states; the ML-KEM-768 part agrees when decapsulation recovers the
/// encapsulated key, which ML-KEM guarantees up to a negligible failure
/// rate.
pub proof fn lemma_handshake_agreement(
    alice: SessionView,
    alice_after: SessionView,
    bob: SessionView,
    bob_after: SessionView,
    bundle: PrekeyBundle,
    m: Seq<u8>,
    e: Seq<u8>,
    hs: HandshakeMessage,
)
    requires
        session_keys_wf(bob),
        bob.signed_prekey is Some,
        bob.identity_dh is Some,
        bob.identity is Some,
        bundle.kem_prekey@ == bob.signed_prekey.unwrap().pq.public@,
        bundle.x25519_prekey@ == bob.signed_prekey.unwrap().classical.public@,
        bundle.identity_x25519@ == bob.identity_dh.unwrap().public@,
        bundle.identity_ed25519@ == ed25519_verifying_key(bob.identity.unwrap().ed25519@),
        initiator_outcome(alice, bundle, m, e, hs, alice_after),
        responder_outcome(bob, hs, bob_after),
        x25519_shared(bob.signed_prekey.unwrap().classical.secret@, hs.ephemeral_x25519@)
            == x25519_shared(e, x25519_public(bob.signed_prekey.unwrap().classical.secret@)),
        x25519_shared(bob.identity_dh.unwrap().secret@, hs.ephemeral_x25519@) == x25519_shared(
            e,
            x25519_public(bob.identity_dh.unwrap().secret@),
        ),
        ml_kem_decapsulated(bob.signed_prekey.unwrap().pq.secret@, hs.kem_ct@) == ml_kem_encapsulated(
            bundle.kem_prekey@,
            m,
        ).1,
    ensures
        alice_after.ratchet.unwrap().root == bob_after.ratchet.unwrap().root,
        alice_after.ratchet.unwrap().send_origin == bob_after.ratchet.unwrap().recv_origin,
        alice_after.ratchet.unwrap().recv_origin == bob_after.ratchet.unwrap().send_origin,
{
    let a = alice_after.ratchet.unwrap();
    let b = bob_after.ratchet.unwrap();
    assert(a.root == b.root);
    lemma_mirrored_chains(a.root);
}


/// A bundle that a session published, with its well-formed prekey and a
/// signature that verifies, is processed without error by any session that
/// has an identity and has not recorded a newer epoch of its peer.
pub proof fn lemma_published_bundle_accepted(bob: SessionView, pk: HybridKeyPair, b: PrekeyBundle, alice: SessionView)
    requires
        bob.identity is Some,
        bob.identity_dh is Some,
        pk.wf(),
        published_bundle(bob, pk, b),
        bundle_verifies(b),
        alice.identity is Some,
        alice.peer_epoch matches Some(p) ==> p <= b.epoch,
    ensures
        initiator_error(alice, b) is None,
{
    assert(b.x25519_prekey@.len() == 32);
    assert(b.identity_x25519@.len() == 32);
}

/// The handshake message that an initiator makes from a bundle is accepted
/// without error by a session that holds a well-formed prekey and its
/// identity keys: its ciphertext and ephemeral key have the lengths that
/// accepting checks.
pub proof fn lemma_handshake_accepted(
    bob: SessionView,
    alice: SessionView,
    b: PrekeyBundle,
    m: Seq<u8>,
    e: Seq<u8>,
    hs: HandshakeMessage,
    alice_after: SessionView,
)
    requires
        bob.signed_prekey matches Some(pk) && pk.wf(),
        bob.identity is Some,
        bob.identity_dh is Some,
        initiator_outcome(alice, b, m, e, hs, alice_after),
    ensures
        responder_error(bob, hs) is None,
{
}

/// A reset that a session made is applied without error by a peer that has
/// an identity, has recorded an older epoch (or none) and, if it recorded
/// the peer's identity, recorded that of the resetting session.
pub proof fn lemma_reset_accepted(alice: SessionView, pk: HybridKeyPair, r: SessionReset, bob: SessionView)
    requires
        alice.identity is Some,
        alice.identity_dh is Some,
        pk.wf(),
        published_bundle(SessionView { epoch: r.epoch_counter, ..alice }, pk, r.new_bundle),
        bundle_verifies(r.new_bundle),
        reset_verifies(r),
        bob.identity is Some,
        bob.peer_epoch matches Some(p) ==> p < r.epoch_counter,
        bob.peer_identity matches Some(id) ==> id == r.new_bundle.identity_ed25519@,
    ensures
        reset_error(bob, r) is None,
{
    lemma_published_bundle_accepted(SessionView { epoch: r.epoch_counter, ..alice }, pk, r.new_bundle, bob);
}


/// Each end of a handshake records the other's own epoch: the handshake
/// message carries the initiator's epoch counter (whatever the bundle's
/// epoch), so the responder records the initiator's epoch and the
/// initiator records the bundle's; neither end's own epoch moves.
pub proof fn lemma_handshake_epochs(
    alice: SessionView,
    b: PrekeyBundle,
    m: Seq<u8>,
    e: Seq<u8>,
    hs: HandshakeMessage,
    alice_after: SessionView,
    bob: SessionView,
    bob_after: SessionView,
)
    requires
        initiator_outcome(alice, b, m, e, hs, alice_after),
        responder_outcome(bob, hs, bob_after),
    ensures
        hs.initiator_epoch == alice.epoch,
        bob_after.peer_epoch == Some(alice.epoch),
        alice_after.peer_epoch == Some(b.epoch),
        alice_after.epoch == alice.epoch,
        bob_after.epoch == bob.epoch,
{
}

} // verus!
