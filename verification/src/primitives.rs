//! Hybrid cryptographic primitives.
//!
//! - KEM: ML-KEM-768 (FIPS 203) hybridized with X25519
//! - Signatures: ML-DSA-65 (FIPS 204) dual-signed with Ed25519
//! - AEAD: AES-256-GCM with explicit AAD
//! - KDF: HKDF-SHA-256 with explicit salt/info domain separation
//!
//! The cryptographic algorithms themselves are those of the RustCrypto and
//! dalek crates. What they compute is named here (each name stands for the
//! outside function's result on the given bytes) and, where the crates
//! document it, related: what a key derivation yields, that opening a sealed
//! message gives it back, that both sides of a Diffie-Hellman exchange agree,
//! and that an honest signature verifies.
use vstd::prelude::*;
use vstd::string::*;
use aes_gcm::aead::{Aead, KeyInit, Payload};
use ml_kem::{Decapsulate, MlKem768};
use ml_dsa::{Keypair, MlDsa65};
use sha2::Digest;
use ed25519_dalek::{Signer, Verifier};
use crate::error::{KassiberError, KassiberErrorView, kview};
use crate::util::{bytes_to_vec, copy_range, extend_bytes};

verus! {

/// Length of an AES-256 key.
pub const AES_KEY_SIZE: usize = 32;

/// Length of an AES-GCM nonce.
pub const AES_NONCE_SIZE: usize = 12;

/// Length of an AES-GCM tag.
pub const AES_TAG_SIZE: usize = 16;

/// Longest plaintext AES-GCM accepts (`aes_gcm::P_MAX`).
pub const AES_GCM_P_MAX: u64 = 68719476704;

/// Longest associated data AES-GCM accepts (`aes_gcm::A_MAX`).
pub const AES_GCM_A_MAX: u64 = 2305843009213693951;

/// Length of an ML-KEM-768 encapsulation key.
pub const ML_KEM_EK_SIZE: usize = 1184;

/// Length of an ML-KEM-768 decapsulation seed.
pub const ML_KEM_SEED_SIZE: usize = 64;

/// Length of an ML-KEM-768 ciphertext.
pub const ML_KEM_CT_SIZE: usize = 1088;

/// Length of an ML-DSA-65 signing seed.
pub const ML_DSA_SEED_SIZE: usize = 32;

/// Length of an encoded ML-DSA-65 verifying key.
pub const ML_DSA_VK_SIZE: usize = 1952;

/// Length of an encoded ML-DSA-65 signature.
pub const ML_DSA_SIG_SIZE: usize = 3309;

// ---------------------------------------------------------------------------
// Names for what the outside functions compute
// ---------------------------------------------------------------------------

/// The first 32 bytes of HKDF-SHA-256 output keying material for `ikm`,
/// `info` and the salt (`None`: no salt).
pub uninterp spec fn hkdf_sha256(salt: Option<Seq<u8>>, ikm: Seq<u8>, info: Seq<u8>) -> Seq<u8>;

/// The SHA-256 digest of `data`.
pub uninterp spec fn sha256(data: Seq<u8>) -> Seq<u8>;

/// AES-256-GCM ciphertext of `msg` under `key`, `nonce` and `aad`, the
/// 16-byte tag appended.
pub uninterp spec fn aes_gcm_sealed(key: Seq<u8>, nonce: Seq<u8>, msg: Seq<u8>, aad: Seq<u8>) -> Seq<u8>;

/// AES-256-GCM decryption of `ct` (tag appended) under `key`, `nonce` and
/// `aad`; `None` where the tag does not authenticate.
pub uninterp spec fn aes_gcm_opened(key: Seq<u8>, nonce: Seq<u8>, ct: Seq<u8>, aad: Seq<u8>) -> Option<Seq<u8>>;

/// The ML-KEM-768 encapsulation key of the decapsulation seed `seed`.
pub uninterp spec fn ml_kem_encapsulation_key(seed: Seq<u8>) -> Seq<u8>;

/// Whether `ek` passes ML-KEM-768 encapsulation-key validation.
pub uninterp spec fn ml_kem_key_valid(ek: Seq<u8>) -> bool;

/// The ML-KEM-768 (ciphertext, shared key) for `ek` and the message `m`.
pub uninterp spec fn ml_kem_encapsulated(ek: Seq<u8>, m: Seq<u8>) -> (Seq<u8>, Seq<u8>);

/// The ML-KEM-768 shared key that the decapsulation seed `seed` recovers
/// from `ct`.
pub uninterp spec fn ml_kem_decapsulated(seed: Seq<u8>, ct: Seq<u8>) -> Seq<u8>;

/// The X25519 public key of `secret`.
pub uninterp spec fn x25519_public(secret: Seq<u8>) -> Seq<u8>;

/// The X25519 shared secret of `secret` and `public`.
pub uninterp spec fn x25519_shared(secret: Seq<u8>, public: Seq<u8>) -> Seq<u8>;

/// The encoded ML-DSA-65 verifying key of the signing seed `seed`.
pub uninterp spec fn ml_dsa_verifying_key(seed: Seq<u8>) -> Seq<u8>;

/// The encoded deterministic ML-DSA-65 signature of `msg` under `seed`.
pub uninterp spec fn ml_dsa_signature(seed: Seq<u8>, msg: Seq<u8>) -> Seq<u8>;

/// Whether the encoded signature `sig` decodes and verifies for `msg`
/// under the encoded ML-DSA-65 verifying key `vk`.
pub uninterp spec fn ml_dsa_accepts(vk: Seq<u8>, msg: Seq<u8>, sig: Seq<u8>) -> bool;

/// The Ed25519 verifying key of the secret key `seed`.
pub uninterp spec fn ed25519_verifying_key(seed: Seq<u8>) -> Seq<u8>;

/// The Ed25519 signature of `msg` under the secret key `seed`.
pub uninterp spec fn ed25519_signature(seed: Seq<u8>, msg: Seq<u8>) -> Seq<u8>;

/// Whether `vk` decodes to an Ed25519 verifying key under which `sig`
/// verifies for `msg`.
pub uninterp spec fn ed25519_accepts(vk: Seq<u8>, msg: Seq<u8>, sig: Seq<u8>) -> bool;

// ---------------------------------------------------------------------------
// Calls into the outside crates
// ---------------------------------------------------------------------------

/// Fills `buf` from the operating system's generator (`rand::fill`).
/// Nothing is stated of the bytes.
#[verifier::external_body]
pub(crate) fn random_fill(buf: &mut [u8])
    ensures
        final(buf)@.len() == old(buf)@.len(),
{
    rand::fill(buf)
}

/// HKDF-SHA-256 (`hkdf::Hkdf::<Sha256>::new`, then `expand` into 32 bytes,
/// which never fails: 32 is below 255 times the hash length). Claims: the
/// result is the named [`hkdf_sha256`].
#[verifier::external_body]
fn hkdf_expand32(salt: Option<&[u8]>, ikm: &[u8], info: &[u8]) -> (r: [u8; 32])
    ensures
        r@ == hkdf_sha256(
            match salt {
                Some(s) => Some(s@),
                None => None,
            },
            ikm@,
            info@,
        ),
{
    let hk = hkdf::Hkdf::<sha2::Sha256>::new(salt, ikm);
    let mut okm = [0u8; 32];
    hk.expand(info, &mut okm).expect("32 bytes is a valid HKDF-SHA-256 output length");
    okm
}

/// SHA-256 (`sha2::Sha256::digest`). Claims: the 32-byte result is the
/// named [`sha256`].
#[verifier::external_body]
fn sha256_digest(data: &[u8]) -> (r: [u8; 32])
    ensures
        r@ == sha256(data@),
{
    sha2::Sha256::digest(data).into()
}

/// AES-256-GCM encryption (`Aes256Gcm::new`, then `Aead::encrypt` with the
/// AAD as payload). Claims: it fails exactly where the source of `aes-gcm`
/// does (plaintext over `P_MAX` or AAD over `A_MAX` bytes), with the error's
/// debug text; otherwise the result is the named [`aes_gcm_sealed`], 16
/// bytes longer than the plaintext, and opening it gives the plaintext back.
#[verifier::external_body]
fn aes_gcm_encrypt(key: &[u8; 32], nonce: &[u8; 12], msg: &[u8], aad: &[u8]) -> (r: Result<Vec<u8>, String>)
    ensures
        r is Err <==> msg@.len() > AES_GCM_P_MAX || aad@.len() > AES_GCM_A_MAX,
        r matches Ok(v) ==> {
            &&& v@ == aes_gcm_sealed(key@, nonce@, msg@, aad@)
            &&& v@.len() == msg@.len() + 16
            &&& aes_gcm_opened(key@, nonce@, v@, aad@) == Some(msg@)
        },
{
    let cipher = aes_gcm::Aes256Gcm::new(&(*key).into());
    cipher.encrypt(&(*nonce).into(), Payload { msg, aad }).map_err(|e| format!("{:?}", e))
}

/// AES-256-GCM decryption (`Aes256Gcm::new`, then `Aead::decrypt` of
/// ciphertext and tag with the AAD). Claims: the result is the named
/// [`aes_gcm_opened`]; a failure carries the error's debug text.
#[verifier::external_body]
fn aes_gcm_decrypt(key: &[u8; 32], nonce: &[u8; 12], ct: &[u8], aad: &[u8]) -> (r: Result<Vec<u8>, String>)
    ensures
        match r {
            Ok(v) => aes_gcm_opened(key@, nonce@, ct@, aad@) == Some(v@),
            Err(_) => aes_gcm_opened(key@, nonce@, ct@, aad@) is None,
        },
{
    let cipher = aes_gcm::Aes256Gcm::new(&(*key).into());
    cipher.decrypt(&(*nonce).into(), Payload { msg: ct, aad }).map_err(|e| format!("{:?}", e))
}

/// ML-KEM-768 key generation from a 64-byte seed
/// (`DecapsulationKey::from_seed`, its `encapsulation_key()` exported with
/// `KeyExport::to_bytes`). Claims: the result is the named
/// [`ml_kem_encapsulation_key`], 1184 bytes long, and passes validation
/// (an exported key re-imports).
#[verifier::external_body]
fn ml_kem_keygen(seed: &[u8; 64]) -> (r: Vec<u8>)
    ensures
        r@ == ml_kem_encapsulation_key(seed@),
        r@.len() == ML_KEM_EK_SIZE,
        ml_kem_key_valid(r@),
{
    let dk = ml_kem::DecapsulationKey::<MlKem768>::from_seed((*seed).into());
    ml_kem::KeyExport::to_bytes(dk.encapsulation_key()).as_slice().to_vec()
}

/// ML-KEM-768 encapsulation-key import (`TryKeyInit::new_from_slice`).
/// Claims: it succeeds exactly on keys that pass validation
/// ([`ml_kem_key_valid`]), which are 1184 bytes long.
#[verifier::external_body]
fn ml_kem_check_key(ek: &[u8]) -> (b: bool)
    ensures
        b == ml_kem_key_valid(ek@),
        b ==> ek@.len() == ML_KEM_EK_SIZE,
{
    <ml_kem::EncapsulationKey<MlKem768> as ml_kem::TryKeyInit>::new_from_slice(ek).is_ok()
}

/// ML-KEM-768 encapsulation with the message `m`
/// (`EncapsulationKey::encapsulate_deterministic`, which
/// `encapsulate_with_rng` calls with 32 random bytes). Claims: the
/// (ciphertext, shared key) pair is the named [`ml_kem_encapsulated`], of
/// 1088 and 32 bytes. That decapsulation recovers the shared key is not
/// stated: ML-KEM-768 guarantees it only up to a negligible failure rate.
#[verifier::external_body]
fn ml_kem_encapsulate(ek: &[u8], m: &[u8; 32]) -> (r: (Vec<u8>, Vec<u8>))
    requires
        ml_kem_key_valid(ek@),
    ensures
        (r.0@, r.1@) == ml_kem_encapsulated(ek@, m@),
        r.0@.len() == ML_KEM_CT_SIZE,
        r.1@.len() == 32,
{
    let key = <ml_kem::EncapsulationKey<MlKem768> as ml_kem::TryKeyInit>::new_from_slice(ek).expect(
        "validated encapsulation key",
    );
    let (ct, k) = key.encapsulate_deterministic(&(*m).into());
    (ct.as_slice().to_vec(), k.as_slice().to_vec())
}

/// ML-KEM-768 decapsulation (`KeyInit::new_from_slice` of the 64-byte
/// seed, then `decapsulate_slice` of a 1088-byte ciphertext, the lengths
/// on which neither fails). Claims: the 32-byte result is the named
/// [`ml_kem_decapsulated`].
#[verifier::external_body]
fn ml_kem_decapsulate(seed: &[u8], ct: &[u8]) -> (r: Vec<u8>)
    requires
        seed@.len() == ML_KEM_SEED_SIZE,
        ct@.len() == ML_KEM_CT_SIZE,
    ensures
        r@ == ml_kem_decapsulated(seed@, ct@),
        r@.len() == 32,
{
    let dk = <ml_kem::DecapsulationKey<MlKem768> as ml_kem::KeyInit>::new_from_slice(seed).expect(
        "64-byte seed",
    );
    dk.decapsulate_slice(ct).expect("1088-byte ciphertext").as_slice().to_vec()
}

/// X25519 public key (`PublicKey::from(&StaticSecret::from(secret))`).
/// Claims: the result is the named [`x25519_public`].
#[verifier::external_body]
fn x25519_base(secret: &[u8; 32]) -> (r: [u8; 32])
    ensures
        r@ == x25519_public(secret@),
{
    x25519_dalek::PublicKey::from(&x25519_dalek::StaticSecret::from(*secret)).to_bytes()
}

/// X25519 Diffie-Hellman (`StaticSecret::diffie_hellman`). Claims: the
/// result is the named [`x25519_shared`], and both sides of an exchange
/// agree: with the public key of `other`, the result is what `other`
/// computes with the public key of `secret` (both scalars are clamped
/// before multiplying the base point).
#[verifier::external_body]
pub(crate) fn x25519_dh(secret: &[u8; 32], public: &[u8; 32]) -> (r: [u8; 32])
    ensures
        r@ == x25519_shared(secret@, public@),
        forall|other: Seq<u8>|
            other.len() == 32 && public@ == #[trigger] x25519_public(other) ==> r@ == x25519_shared(
                other,
                x25519_public(secret@),
            ),
{
    x25519_dalek::StaticSecret::from(*secret).diffie_hellman(&x25519_dalek::PublicKey::from(*public)).to_bytes()
}

/// ML-DSA-65 verifying key of a 32-byte seed (`SigningKey::from_seed`,
/// `verifying_key().encode()`). Claims: the 1952-byte result is the named
/// [`ml_dsa_verifying_key`].
#[verifier::external_body]
fn ml_dsa_keygen(seed: &[u8; 32]) -> (r: Vec<u8>)
    ensures
        r@ == ml_dsa_verifying_key(seed@),
        r@.len() == ML_DSA_VK_SIZE,
{
    ml_dsa::SigningKey::<MlDsa65>::from_seed(&(*seed).into()).verifying_key().encode().as_slice().to_vec()
}

/// Deterministic ML-DSA-65 signing (`Seed::try_from` of the 32-byte seed,
/// `KeyInit::new`, `Signer::sign`, `encode`). Claims: the 3309-byte result
/// is the named [`ml_dsa_signature`], and it verifies for the message under
/// the seed's verifying key.
#[verifier::external_body]
fn ml_dsa_sign(seed: &[u8], msg: &[u8]) -> (r: Vec<u8>)
    requires
        seed@.len() == ML_DSA_SEED_SIZE,
    ensures
        r@ == ml_dsa_signature(seed@, msg@),
        r@.len() == ML_DSA_SIG_SIZE,
        ml_dsa_accepts(ml_dsa_verifying_key(seed@), msg@, r@),
{
    let seed = ml_dsa::Seed::try_from(seed).expect("32-byte seed");
    let sk = <ml_dsa::SigningKey<MlDsa65> as ml_dsa::KeyInit>::new(&seed);
    let sig: ml_dsa::Signature<MlDsa65> = sk.sign(msg);
    sig.encode().as_slice().to_vec()
}

/// ML-DSA-65 verification of encoded key and signature of the right
/// lengths (`EncodedVerifyingKey::try_from`, `VerifyingKey::decode`,
/// `EncodedSignature::try_from`, `Signature::decode`, `Verifier::verify`).
/// Claims: the result is the named [`ml_dsa_accepts`].
#[verifier::external_body]
fn ml_dsa_verify(vk: &[u8], msg: &[u8], sig: &[u8]) -> (b: bool)
    requires
        vk@.len() == ML_DSA_VK_SIZE,
        sig@.len() == ML_DSA_SIG_SIZE,
    ensures
        b == ml_dsa_accepts(vk@, msg@, sig@),
{
    let enc_vk = ml_dsa::EncodedVerifyingKey::<MlDsa65>::try_from(vk).expect("1952-byte key");
    let key = ml_dsa::VerifyingKey::<MlDsa65>::decode(&enc_vk);
    let enc_sig = ml_dsa::EncodedSignature::<MlDsa65>::try_from(sig).expect("3309-byte signature");
    match ml_dsa::Signature::<MlDsa65>::decode(&enc_sig) {
        Some(s) => key.verify(msg, &s).is_ok(),
        None => false,
    }
}

/// Ed25519 verifying key (`SigningKey::from_bytes`, `verifying_key()`).
/// Claims: the result is the named [`ed25519_verifying_key`].
#[verifier::external_body]
fn ed25519_keygen(seed: &[u8; 32]) -> (r: [u8; 32])
    ensures
        r@ == ed25519_verifying_key(seed@),
{
    ed25519_dalek::SigningKey::from_bytes(seed).verifying_key().to_bytes()
}

/// Ed25519 signing (`SigningKey::from_bytes`, `Signer::sign`). Claims: the
/// result is the named [`ed25519_signature`], and it verifies for the
/// message under the key's verifying key.
#[verifier::external_body]
pub(crate) fn ed25519_sign(seed: &[u8; 32], msg: &[u8]) -> (r: [u8; 64])
    ensures
        r@ == ed25519_signature(seed@, msg@),
        ed25519_accepts(ed25519_verifying_key(seed@), msg@, r@),
{
    let sig: ed25519_dalek::Signature = ed25519_dalek::SigningKey::from_bytes(seed).sign(msg);
    sig.to_bytes()
}

/// Ed25519 verification (`VerifyingKey::from_bytes`, `Signature::from_bytes`,
/// `Verifier::verify`); a key that does not decode verifies nothing.
/// Claims: the result is the named [`ed25519_accepts`].
#[verifier::external_body]
fn ed25519_verify(vk: &[u8; 32], msg: &[u8], sig: &[u8; 64]) -> (b: bool)
    ensures
        b == ed25519_accepts(vk@, msg@, sig@),
{
    match ed25519_dalek::VerifyingKey::from_bytes(vk) {
        Ok(key) => key.verify(msg, &ed25519_dalek::Signature::from_bytes(sig)).is_ok(),
        Err(_) => false,
    }
}

// ---------------------------------------------------------------------------
// Byte helpers
// ---------------------------------------------------------------------------

/// The 32 bytes of `s` as an array.
pub fn array32(s: &[u8]) -> (a: [u8; 32])
    requires
        s@.len() == 32,
    ensures
        a@ == s@,
{
    let mut a = [0u8; 32];
    let mut i: usize = 0;
    while i < 32
        invariant
            s@.len() == 32,
            0 <= i <= 32,
            forall|k: int| 0 <= k < i ==> a@[k] == s@[k],
        decreases 32 - i,
    {
        a[i] = s[i];
        i = i + 1;
    }
    assert(a@ =~= s@);
    a
}

/// The 16 bytes of `s` as an array.
pub fn array16(s: &[u8]) -> (a: [u8; 16])
    requires
        s@.len() == 16,
    ensures
        a@ == s@,
{
    let mut a = [0u8; 16];
    let mut i: usize = 0;
    while i < 16
        invariant
            s@.len() == 16,
            0 <= i <= 16,
            forall|k: int| 0 <= k < i ==> a@[k] == s@[k],
        decreases 16 - i,
    {
        a[i] = s[i];
        i = i + 1;
    }
    assert(a@ =~= s@);
    a
}

/// The 64 bytes of `s` as an array.
pub fn array64(s: &[u8]) -> (a: [u8; 64])
    requires
        s@.len() == 64,
    ensures
        a@ == s@,
{
    let mut a = [0u8; 64];
    let mut i: usize = 0;
    while i < 64
        invariant
            s@.len() == 64,
            0 <= i <= 64,
            forall|k: int| 0 <= k < i ==> a@[k] == s@[k],
        decreases 64 - i,
    {
        a[i] = s[i];
        i = i + 1;
    }
    assert(a@ =~= s@);
    a
}

/// `a` followed by `b`.
pub fn concat_bytes(a: &[u8], b: &[u8]) -> (r: Vec<u8>)
    ensures
        r@ == a@ + b@,
{
    let mut v = bytes_to_vec(a);
    extend_bytes(&mut v, b);
    v
}

// ---------------------------------------------------------------------------
// Key derivation and hashing
// ---------------------------------------------------------------------------

/// The salt handed to HKDF: an empty salt counts as none.
pub open spec fn hkdf_salt(salt: Seq<u8>) -> Option<Seq<u8>> {
    if salt.len() == 0 { None } else { Some(salt) }
}

/// Derives 32 bytes with HKDF-SHA-256 from `ikm`, `salt` (empty: no salt)
/// and the domain-separation tag `info`.
pub fn hkdf32(ikm: &[u8], salt: &[u8], info: &[u8]) -> (r: [u8; 32])
    ensures
        r@ == hkdf_sha256(hkdf_salt(salt@), ikm@, info@),
{
    if salt.len() == 0 {
        hkdf_expand32(None, ikm, info)
    } else {
        hkdf_expand32(Some(salt), ikm, info)
    }
}

/// SHA-256 of `a` followed by `b`.
pub fn concat_hash(a: &[u8], b: &[u8]) -> (r: [u8; 32])
    ensures
        r@ == sha256(a@ + b@),
{
    let data = concat_bytes(a, b);
    sha256_digest(data.as_slice())
}

// ---------------------------------------------------------------------------
// AES-256-GCM
// ---------------------------------------------------------------------------

/// An AES-256-GCM key.
#[derive(Debug, Clone)]
pub struct Aes256GcmKey {
    pub key: [u8; 32],
}

/// An AES-256-GCM ciphertext with its nonce and tag.
#[derive(Debug, Clone)]
pub struct AesAead {
    pub ciphertext: Vec<u8>,
    pub nonce: [u8; 12],
    pub tag: [u8; 16],
}

/// The UTF-8 bytes of a domain-separation tag.
pub open spec fn tag(s: &str) -> Seq<u8> {
    s.spec_bytes()
}

/// Whether `s` begins with `p`.
pub open spec fn has_prefix(s: Seq<char>, p: Seq<char>) -> bool {
    p.len() <= s.len() && s.subrange(0, p.len() as int) == p
}

/// `p` followed by `d`, as a string.
fn prefixed(p: &str, d: &str) -> (s: String)
    ensures
        s@ == p@ + d@,
{
    let mut s = String::from_str(p);
    s.append(d);
    s
}

impl Aes256GcmKey {
    /// The AES key derived from a shared secret with HKDF-SHA-256 (salt
    /// `kassiber-aes-salt-v1`, info `kassiber-aes-key-v1`).
    pub fn from_shared_secret(secret: &[u8]) -> (k: Self)
        ensures
            k.key@ == hkdf_sha256(
                hkdf_salt(tag("kassiber-aes-salt-v1")),
                secret@,
                tag("kassiber-aes-key-v1"),
            ),
    {
        Aes256GcmKey {
            key: hkdf32(secret, "kassiber-aes-salt-v1".as_bytes(), "kassiber-aes-key-v1".as_bytes()),
        }
    }
}

impl AesAead {
    /// Ciphertext and tag, as AES-GCM hands them out together.
    pub open spec fn sealed(&self) -> Seq<u8> {
        self.ciphertext@ + self.tag@
    }
}

impl Aes256GcmKey {
    /// AEAD-encrypts with the given nonce; `aad` is authenticated, not
    /// encrypted. Fails (`Encryption`) exactly on a plaintext or AAD beyond
    /// the AES-GCM limits. Opening the result gives the plaintext back.
    pub fn encrypt_with_nonce(&self, plaintext: &[u8], aad: &[u8], nonce: [u8; 12]) -> (r: Result<AesAead, KassiberError>)
        ensures
            r is Err <==> plaintext@.len() > AES_GCM_P_MAX || aad@.len() > AES_GCM_A_MAX,
            r matches Err(e) ==> e@ matches KassiberErrorView::Encryption(m) && has_prefix(m, "AES encrypt: "@),
            r matches Ok(a) ==> {
                &&& a.nonce == nonce
                &&& a.sealed() == aes_gcm_sealed(self.key@, nonce@, plaintext@, aad@)
                &&& a.ciphertext@.len() == plaintext@.len()
                &&& aes_gcm_opened(self.key@, nonce@, a.sealed(), aad@) == Some(plaintext@)
            },
    {
        let sealed = match aes_gcm_encrypt(&self.key, &nonce, plaintext, aad) {
            Ok(v) => v,
            Err(d) => {
                let m = prefixed("AES encrypt: ", d.as_str());
                proof {
                    reveal_strlit("AES encrypt: ");
                    assert(m@.subrange(0, 13) =~= "AES encrypt: "@);
                }
                return Err(KassiberError::Encryption(m));
            },
        };
        let ct_len = sealed.len() - 16;
        let ciphertext = copy_range(sealed.as_slice(), 0, ct_len);
        let tag_bytes = copy_range(sealed.as_slice(), ct_len, sealed.len());
        let tag = array16(tag_bytes.as_slice());
        let a = AesAead { ciphertext, nonce, tag };
        assert(a.sealed() =~= sealed@);
        Ok(a)
    }

    /// AEAD-encrypts under a fresh random nonce; see
    /// [`Aes256GcmKey::encrypt_with_nonce`].
    pub fn encrypt(&self, plaintext: &[u8], aad: &[u8]) -> (r: Result<AesAead, KassiberError>)
        ensures
            r is Err <==> plaintext@.len() > AES_GCM_P_MAX || aad@.len() > AES_GCM_A_MAX,
            r matches Err(e) ==> e@ matches KassiberErrorView::Encryption(m) && has_prefix(m, "AES encrypt: "@),
            r matches Ok(a) ==> {
                &&& a.sealed() == aes_gcm_sealed(self.key@, a.nonce@, plaintext@, aad@)
                &&& a.ciphertext@.len() == plaintext@.len()
                &&& aes_gcm_opened(self.key@, a.nonce@, a.sealed(), aad@) == Some(plaintext@)
            },
    {
        let mut nonce = [0u8; 12];
        random_fill(&mut nonce);
        self.encrypt_with_nonce(plaintext, aad, nonce)
    }

    /// AEAD-decrypts; fails (`Decryption`) where the tag does not
    /// authenticate ciphertext, nonce and AAD under this key.
    pub fn decrypt(&self, aead: &AesAead, aad: &[u8]) -> (r: Result<Vec<u8>, KassiberError>)
        ensures
            match aes_gcm_opened(self.key@, aead.nonce@, aead.sealed(), aad@) {
                Some(p) => r matches Ok(v) && v@ == p,
                None => r matches Err(e) && e@ matches KassiberErrorView::Decryption(m) && has_prefix(
                    m,
                    "AES decrypt: "@,
                ),
            },
    {
        let mut full = bytes_to_vec(aead.ciphertext.as_slice());
        extend_bytes(&mut full, &aead.tag);
        assert(full@ == aead.sealed());
        match aes_gcm_decrypt(&self.key, &aead.nonce, full.as_slice(), aad) {
            Ok(v) => Ok(v),
            Err(d) => {
                let m = prefixed("AES decrypt: ", d.as_str());
                proof {
                    reveal_strlit("AES decrypt: ");
                    assert(m@.subrange(0, 13) =~= "AES decrypt: "@);
                }
                Err(KassiberError::Decryption(m))
            },
        }
    }
}

// ---------------------------------------------------------------------------
// ML-KEM-768
// ---------------------------------------------------------------------------

/// An ML-KEM-768 key pair: the 64-byte decapsulation seed and the
/// 1184-byte encapsulation key.
#[derive(Debug, Clone)]
pub struct PostQuantumKeyPair {
    pub public: Vec<u8>,
    pub secret: Vec<u8>,
}

/// An ML-KEM-768 encapsulation key.
#[derive(Debug, Clone)]
pub struct PostQuantumPublicKey {
    pub bytes: Vec<u8>,
}

/// What [`PostQuantumKeyPair::decapsulate`] yields for a seed and a
/// ciphertext.
pub open spec fn spec_decapsulate(secret: Seq<u8>, ct: Seq<u8>) -> Result<Seq<u8>, KassiberErrorView> {
    if secret.len() != ML_KEM_SEED_SIZE {
        Err(KassiberErrorView::Decryption("invalid ML-KEM-768 decapsulation key"@))
    } else if ct.len() != ML_KEM_CT_SIZE {
        Err(KassiberErrorView::Decryption("invalid ML-KEM-768 ciphertext"@))
    } else {
        Ok(ml_kem_decapsulated(secret, ct))
    }
}

impl PostQuantumKeyPair {
    /// The key pair of a 64-byte seed.
    pub fn from_seed(seed: [u8; 64]) -> (kp: Self)
        ensures
            kp.secret@ == seed@,
            kp.public@ == ml_kem_encapsulation_key(seed@),
            kp.public@.len() == ML_KEM_EK_SIZE,
            ml_kem_key_valid(kp.public@),
    {
        let public = ml_kem_keygen(&seed);
        PostQuantumKeyPair { public, secret: bytes_to_vec(&seed) }
    }

    /// A fresh ML-KEM-768 key pair from a random seed.
    pub fn generate_ml_kem768() -> (r: Result<Self, KassiberError>)
        ensures
            r matches Ok(kp) && kp.secret@.len() == ML_KEM_SEED_SIZE && kp.public@
                == ml_kem_encapsulation_key(kp.secret@) && kp.public@.len() == ML_KEM_EK_SIZE
                && ml_kem_key_valid(kp.public@),
    {
        let mut seed = [0u8; 64];
        random_fill(&mut seed);
        Ok(Self::from_seed(seed))
    }

    /// Decapsulates an ML-KEM-768 ciphertext into the 32-byte shared secret.
    pub fn decapsulate(&self, ct_bytes: &[u8]) -> (r: Result<Vec<u8>, KassiberError>)
        ensures
            kview(r) == spec_decapsulate(self.secret@, ct_bytes@),
    {
        if self.secret.len() != ML_KEM_SEED_SIZE {
            return Err(
                KassiberError::Decryption(String::from_str("invalid ML-KEM-768 decapsulation key")),
            );
        }
        if ct_bytes.len() != ML_KEM_CT_SIZE {
            return Err(KassiberError::Decryption(String::from_str("invalid ML-KEM-768 ciphertext")));
        }
        Ok(ml_kem_decapsulate(self.secret.as_slice(), ct_bytes))
    }
}

impl PostQuantumPublicKey {
    /// Encapsulates against this key with the message `m`: (shared secret,
    /// ciphertext). A key that fails validation is an `Encryption` error.
    pub fn encapsulate_with(&self, m: [u8; 32]) -> (r: Result<(Vec<u8>, Vec<u8>), KassiberError>)
        ensures
            r is Err <==> !ml_kem_key_valid(self.bytes@),
            r matches Err(e) ==> e@ == KassiberErrorView::Encryption(
                "invalid ML-KEM-768 encapsulation key"@,
            ),
            r matches Ok(p) ==> (p.1@, p.0@) == ml_kem_encapsulated(self.bytes@, m@) && p.0@.len()
                == 32 && p.1@.len() == ML_KEM_CT_SIZE,
    {
        if !ml_kem_check_key(self.bytes.as_slice()) {
            return Err(
                KassiberError::Encryption(String::from_str("invalid ML-KEM-768 encapsulation key")),
            );
        }
        let (ct, shared) = ml_kem_encapsulate(self.bytes.as_slice(), &m);
        Ok((shared, ct))
    }

    /// Encapsulates against this key with a random message; see
    /// [`PostQuantumPublicKey::encapsulate_with`].
    pub fn encapsulate(&self) -> (r: Result<(Vec<u8>, Vec<u8>), KassiberError>)
        ensures
            r is Err <==> !ml_kem_key_valid(self.bytes@),
            r matches Err(e) ==> e@ == KassiberErrorView::Encryption(
                "invalid ML-KEM-768 encapsulation key"@,
            ),
            r matches Ok(p) ==> exists|m: Seq<u8>|
                m.len() == 32 && (p.1@, p.0@) == #[trigger] ml_kem_encapsulated(self.bytes@, m),
            r matches Ok(p) ==> p.0@.len() == 32 && p.1@.len() == ML_KEM_CT_SIZE,
    {
        let mut m = [0u8; 32];
        random_fill(&mut m);
        self.encapsulate_with(m)
    }
}

// ---------------------------------------------------------------------------
// X25519
// ---------------------------------------------------------------------------

/// An X25519 key pair.
#[derive(Clone)]
pub struct X25519KeyPair {
    pub public: [u8; 32],
    pub secret: [u8; 32],
}

impl X25519KeyPair {
    /// The key pair of a secret scalar.
    pub fn from_secret(secret: [u8; 32]) -> (kp: Self)
        ensures
            kp.secret == secret,
            kp.public@ == x25519_public(secret@),
    {
        X25519KeyPair { public: x25519_base(&secret), secret }
    }

    /// A fresh key pair from a random secret.
    pub fn generate() -> (kp: Self)
        ensures
            kp.public@ == x25519_public(kp.secret@),
    {
        let mut secret = [0u8; 32];
        random_fill(&mut secret);
        Self::from_secret(secret)
    }
}

// ---------------------------------------------------------------------------
// ML-DSA-65 and Ed25519 dual signatures
// ---------------------------------------------------------------------------

/// An ML-DSA-65 key pair: the 1952-byte encoded verifying key and the
/// 32-byte signing seed.
#[derive(Debug, Clone)]
pub struct MlDsa65KeyPair {
    pub public: Vec<u8>,
    pub secret: Vec<u8>,
}

impl MlDsa65KeyPair {
    /// A key pair whose public key is that of its seed.
    pub open spec fn wf(&self) -> bool {
        &&& self.secret@.len() == ML_DSA_SEED_SIZE
        &&& self.public@ == ml_dsa_verifying_key(self.secret@)
        &&& self.public@.len() == ML_DSA_VK_SIZE
    }

    /// The key pair of a 32-byte seed.
    pub fn from_seed(seed: [u8; 32]) -> (kp: Self)
        ensures
            kp.wf(),
            kp.secret@ == seed@,
    {
        let public = ml_dsa_keygen(&seed);
        MlDsa65KeyPair { public, secret: bytes_to_vec(&seed) }
    }

    /// A fresh ML-DSA-65 key pair from a random seed.
    pub fn generate() -> (r: Result<Self, KassiberError>)
        ensures
            r matches Ok(kp) && kp.wf(),
    {
        let mut seed = [0u8; 32];
        random_fill(&mut seed);
        Ok(Self::from_seed(seed))
    }
}

/// An ML-DSA-65 key pair and an Ed25519 secret key. It has no `Debug`:
/// a derived one would print the Ed25519 secret key.
#[derive(Clone)]
pub struct DualKeyPair {
    pub ml_dsa: MlDsa65KeyPair,
    pub ed25519: [u8; 32],
}

/// Both halves of a dual signature.
#[derive(Debug, Clone)]
pub struct DualSignature {
    pub ml_dsa_sig: Vec<u8>,
    pub ed25519_sig: Vec<u8>,
}

/// Whether a dual signature verifies: the ML-DSA-65 half under the
/// 1952-byte key `ml_dsa_public` and the Ed25519 half under the 32-byte key
/// `ed25519_public`, both for `message`.
pub open spec fn dual_accepts(ml_dsa_sig: Seq<u8>, ed25519_sig: Seq<u8>, message: Seq<u8>, ml_dsa_public: Seq<u8>, ed25519_public: Seq<u8>) -> bool {
    &&& ml_dsa_public.len() == ML_DSA_VK_SIZE
    &&& ml_dsa_sig.len() == ML_DSA_SIG_SIZE
    &&& ml_dsa_accepts(ml_dsa_public, message, ml_dsa_sig)
    &&& ed25519_public.len() == 32
    &&& ed25519_sig.len() == 64
    &&& ed25519_accepts(ed25519_public, message, ed25519_sig)
}

impl DualKeyPair {
    /// The key pair of an ML-DSA-65 seed and an Ed25519 secret key.
    pub fn from_seeds(ml_dsa_seed: [u8; 32], ed25519_seed: [u8; 32]) -> (kp: Self)
        ensures
            kp.ml_dsa.wf(),
            kp.ml_dsa.secret@ == ml_dsa_seed@,
            kp.ed25519 == ed25519_seed,
    {
        DualKeyPair { ml_dsa: MlDsa65KeyPair::from_seed(ml_dsa_seed), ed25519: ed25519_seed }
    }

    /// A fresh dual key pair.
    pub fn generate() -> (r: Result<Self, KassiberError>)
        ensures
            r matches Ok(kp) && kp.ml_dsa.wf(),
    {
        let ml_dsa = match MlDsa65KeyPair::generate() {
            Ok(k) => k,
            Err(e) => return Err(e),
        };
        let mut ed25519 = [0u8; 32];
        random_fill(&mut ed25519);
        Ok(DualKeyPair { ml_dsa, ed25519 })
    }

    /// The public identity: ML-DSA-65 and Ed25519 verifying keys.
    pub fn verifying_keys(&self) -> (r: (Vec<u8>, [u8; 32]))
        ensures
            r.0@ == self.ml_dsa.public@,
            r.1@ == ed25519_verifying_key(self.ed25519@),
    {
        (self.ml_dsa.public.clone(), ed25519_keygen(&self.ed25519))
    }

    /// Dual-signs `message` with ML-DSA-65 and Ed25519. A signing seed that
    /// is not 32 bytes is a `Signature` error. The signature verifies under
    /// the pair's verifying keys (as [`DualKeyPair::verifying_keys`] gives
    /// them).
    pub fn sign(&self, message: &[u8]) -> (r: Result<DualSignature, KassiberError>)
        ensures
            r is Err <==> self.ml_dsa.secret@.len() != ML_DSA_SEED_SIZE,
            r matches Err(e) ==> e@ == KassiberErrorView::Signature("invalid ML-DSA-65 signing key"@),
            r matches Ok(sig) ==> {
                &&& sig.ml_dsa_sig@ == ml_dsa_signature(self.ml_dsa.secret@, message@)
                &&& sig.ed25519_sig@ == ed25519_signature(self.ed25519@, message@)
                &&& self.ml_dsa.wf() && ed25519_verifying_key(self.ed25519@).len() == 32 ==> dual_accepts(
                    sig.ml_dsa_sig@,
                    sig.ed25519_sig@,
                    message@,
                    self.ml_dsa.public@,
                    ed25519_verifying_key(self.ed25519@),
                )
            },
    {
        if self.ml_dsa.secret.len() != ML_DSA_SEED_SIZE {
            return Err(KassiberError::Signature(String::from_str("invalid ML-DSA-65 signing key")));
        }
        let ml_dsa_sig = ml_dsa_sign(self.ml_dsa.secret.as_slice(), message);
        let ed_sig = ed25519_sign(&self.ed25519, message);
        Ok(DualSignature { ml_dsa_sig, ed25519_sig: bytes_to_vec(&ed_sig) })
    }
}

impl DualSignature {
    /// Verifies both halves of the dual signature: `Ok` only when the
    /// ML-DSA-65 half verifies under `ml_dsa_public` and the Ed25519 half
    /// under `ed25519_public`; any failure is `SignatureVerification`.
    pub fn verify(&self, message: &[u8], ml_dsa_public: &[u8], ed25519_public: &[u8]) -> (r: Result<(), KassiberError>)
        ensures
            r is Ok <==> dual_accepts(
                self.ml_dsa_sig@,
                self.ed25519_sig@,
                message@,
                ml_dsa_public@,
                ed25519_public@,
            ),
            r matches Err(e) ==> e@ == KassiberErrorView::SignatureVerification,
    {
        if ml_dsa_public.len() != ML_DSA_VK_SIZE || self.ml_dsa_sig.len() != ML_DSA_SIG_SIZE {
            return Err(KassiberError::SignatureVerification);
        }
        if !ml_dsa_verify(ml_dsa_public, message, self.ml_dsa_sig.as_slice()) {
            return Err(KassiberError::SignatureVerification);
        }
        if ed25519_public.len() != 32 || self.ed25519_sig.len() != 64 {
            return Err(KassiberError::SignatureVerification);
        }
        let vk = array32(ed25519_public);
        let sig = array64(self.ed25519_sig.as_slice());
        if !ed25519_verify(&vk, message, &sig) {
            return Err(KassiberError::SignatureVerification);
        }
        Ok(())
    }
}

// ---------------------------------------------------------------------------
// Hybrid KEM: ML-KEM-768 + X25519
// ---------------------------------------------------------------------------

/// A hybrid key pair: ML-KEM-768 and X25519.
#[derive(Clone)]
pub struct HybridKeyPair {
    pub pq: PostQuantumKeyPair,
    pub classical: X25519KeyPair,
}

/// The public half of a hybrid key pair.
#[derive(Debug, Clone)]
pub struct HybridPublicKey {
    pub pq_encap: PostQuantumPublicKey,
    pub classical_pub: [u8; 32],
}

/// The secret half of a hybrid key pair.
#[derive(Clone)]
pub struct HybridSecretKey {
    pq_decap: Vec<u8>,
    classical_secret: [u8; 32],
}

/// A hybrid KEM ciphertext: the ML-KEM-768 ciphertext and the ephemeral
/// X25519 public key.
#[derive(Debug, Clone)]
pub struct HybridCiphertext {
    pub pq_ct: Vec<u8>,
    pub ephemeral_pub: [u8; 32],
}

/// The hybrid shared secret: HKDF-SHA-256 over both shared secrets, salted
/// with the ephemeral public key.
pub open spec fn hybrid_secret(pq_shared: Seq<u8>, classical_shared: Seq<u8>, ephemeral_pub: Seq<u8>) -> Seq<u8> {
    hkdf_sha256(hkdf_salt(ephemeral_pub), pq_shared + classical_shared, tag("kassiber-v1-hybrid-kem"))
}

/// HKDF combiner for the hybrid KEM shared secrets; the ephemeral public key
/// is bound in as the salt.
pub fn combine_hybrid_secrets(pq_shared: &[u8], classical_shared: &[u8], ephemeral_pub: &[u8; 32]) -> (r: [u8; 32])
    ensures
        r@ == hybrid_secret(pq_shared@, classical_shared@, ephemeral_pub@),
{
    let ikm = concat_bytes(pq_shared, classical_shared);
    hkdf32(ikm.as_slice(), ephemeral_pub, "kassiber-v1-hybrid-kem".as_bytes())
}

impl HybridKeyPair {
    /// Keys that belong together: the public keys are those of the secrets.
    pub open spec fn wf(&self) -> bool {
        &&& self.pq.secret@.len() == ML_KEM_SEED_SIZE
        &&& self.pq.public@ == ml_kem_encapsulation_key(self.pq.secret@)
        &&& self.pq.public@.len() == ML_KEM_EK_SIZE
        &&& ml_kem_key_valid(self.pq.public@)
        &&& self.classical.public@ == x25519_public(self.classical.secret@)
    }

    /// A fresh hybrid key pair.
    pub fn generate() -> (r: Result<Self, KassiberError>)
        ensures
            r matches Ok(kp) && kp.wf(),
    {
        let pq = match PostQuantumKeyPair::generate_ml_kem768() {
            Ok(k) => k,
            Err(e) => return Err(e),
        };
        let classical = X25519KeyPair::generate();
        Ok(HybridKeyPair { pq, classical })
    }

    /// The public half.
    pub fn public_key(&self) -> (pk: HybridPublicKey)
        ensures
            pk.pq_encap.bytes@ == self.pq.public@,
            pk.classical_pub == self.classical.public,
    {
        HybridPublicKey {
            pq_encap: PostQuantumPublicKey { bytes: self.pq.public.clone() },
            classical_pub: self.classical.public,
        }
    }

    /// The secret half, for decapsulation.
    pub fn secret_key(&self) -> (sk: HybridSecretKey)
        ensures
            sk.pq_seed() == self.pq.secret@,
            sk.classical() == self.classical.secret@,
    {
        HybridSecretKey::from_keypair(self)
    }
}

impl HybridSecretKey {
    /// The ML-KEM-768 decapsulation seed.
    pub closed spec fn pq_seed(&self) -> Seq<u8> {
        self.pq_decap@
    }

    /// The X25519 secret.
    pub closed spec fn classical(&self) -> Seq<u8> {
        self.classical_secret@
    }

    /// The secret half of a key pair.
    pub fn from_keypair(kp: &HybridKeyPair) -> (sk: Self)
        ensures
            sk.pq_seed() == kp.pq.secret@,
            sk.classical() == kp.classical.secret@,
    {
        HybridSecretKey { pq_decap: kp.pq.secret.clone(), classical_secret: kp.classical.secret }
    }

    /// Hybrid decapsulation: the ML-KEM-768 shared secret (its errors as
    /// [`PostQuantumKeyPair::decapsulate`] gives them) combined with the
    /// X25519 secret recomputed from the ephemeral key. The X25519 part is
    /// what the sender computed from its ephemeral secret.
    pub fn decrypt(&self, ct: &HybridCiphertext) -> (r: Result<Vec<u8>, KassiberError>)
        ensures
            match spec_decapsulate(self.pq_seed(), ct.pq_ct@) {
                Err(e) => r matches Err(x) && x@ == e,
                Ok(k) => r matches Ok(v) && v@ == hybrid_secret(
                    k,
                    x25519_shared(self.classical(), ct.ephemeral_pub@),
                    ct.ephemeral_pub@,
                ),
            },
            r matches Ok(v) ==> forall|e: Seq<u8>|
                e.len() == 32 && ct.ephemeral_pub@ == #[trigger] x25519_public(e) ==> v@
                    == hybrid_secret(
                    ml_kem_decapsulated(self.pq_seed(), ct.pq_ct@),
                    x25519_shared(e, x25519_public(self.classical())),
                    ct.ephemeral_pub@,
                ),
    {
        let kp = PostQuantumKeyPair { public: Vec::new(), secret: self.pq_decap.clone() };
        let pq_shared = match kp.decapsulate(ct.pq_ct.as_slice()) {
            Ok(s) => s,
            Err(e) => return Err(e),
        };
        let classical_shared = x25519_dh(&self.classical_secret, &ct.ephemeral_pub);
        let out = combine_hybrid_secrets(pq_shared.as_slice(), &classical_shared, &ct.ephemeral_pub);
        Ok(bytes_to_vec(&out))
    }
}

impl HybridPublicKey {
    /// Hybrid encapsulation with the ML-KEM message `m` and the ephemeral
    /// X25519 secret `ephemeral`: (shared secret, ciphertext). The X25519
    /// shared secret is not sent; the receiver recomputes it.
    pub fn encrypt_with(&self, m: [u8; 32], ephemeral: [u8; 32]) -> (r: Result<(Vec<u8>, HybridCiphertext), KassiberError>)
        ensures
            r is Err <==> !ml_kem_key_valid(self.pq_encap.bytes@),
            r matches Err(e) ==> e@ == KassiberErrorView::Encryption(
                "invalid ML-KEM-768 encapsulation key"@,
            ),
            r matches Ok(p) ==> {
                let (pq_ct, k) = ml_kem_encapsulated(self.pq_encap.bytes@, m@);
                &&& p.1.pq_ct@ == pq_ct
                &&& p.1.ephemeral_pub@ == x25519_public(ephemeral@)
                &&& p.0@ == hybrid_secret(
                    k,
                    x25519_shared(ephemeral@, self.classical_pub@),
                    x25519_public(ephemeral@),
                )
            },
    {
        let (pq_shared, pq_ct) = match self.pq_encap.encapsulate_with(m) {
            Ok(p) => p,
            Err(e) => return Err(e),
        };
        let eph = X25519KeyPair::from_secret(ephemeral);
        let classical_shared = x25519_dh(&eph.secret, &self.classical_pub);
        let shared = combine_hybrid_secrets(pq_shared.as_slice(), &classical_shared, &eph.public);
        Ok((bytes_to_vec(&shared), HybridCiphertext { pq_ct, ephemeral_pub: eph.public }))
    }

    /// Hybrid encapsulation with fresh randomness; see
    /// [`HybridPublicKey::encrypt_with`].
    pub fn encrypt(&self) -> (r: Result<(Vec<u8>, HybridCiphertext), KassiberError>)
        ensures
            r is Err <==> !ml_kem_key_valid(self.pq_encap.bytes@),
            r matches Err(e) ==> e@ == KassiberErrorView::Encryption(
                "invalid ML-KEM-768 encapsulation key"@,
            ),
            r matches Ok(p) ==> exists|m: Seq<u8>, e: Seq<u8>|
                #![trigger ml_kem_encapsulated(self.pq_encap.bytes@, m), x25519_public(e)]
                m.len() == 32 && e.len() == 32 && p.1.pq_ct@ == ml_kem_encapsulated(
                    self.pq_encap.bytes@,
                    m,
                ).0 && p.1.ephemeral_pub@ == x25519_public(e) && p.0@ == hybrid_secret(
                    ml_kem_encapsulated(self.pq_encap.bytes@, m).1,
                    x25519_shared(e, self.classical_pub@),
                    x25519_public(e),
                ),
    {
        let mut m = [0u8; 32];
        random_fill(&mut m);
        let mut ephemeral = [0u8; 32];
        random_fill(&mut ephemeral);
        self.encrypt_with(m, ephemeral)
    }
}

} // verus!
