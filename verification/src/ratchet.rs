//! Symmetric hash ratchet (HKDF chains) with an ML-KEM-768 re-key step.
//!
//! - Per-direction HKDF chain keys, mirrored between the two roles so that
//!   the initiator's send chain is the responder's receive chain and vice
//!   versa.
//! - A store of skipped message keys for out-of-order delivery, bounded by
//!   `RatchetConfig::max_skipped_keys` (the oldest keys are evicted first).
//! - An ML-KEM-768 re-key: the sender encapsulates against the peer's
//!   current ratchet KEM key, both sides mix the shared secret into the root
//!   key and restart their chains.
use vstd::prelude::*;
use vstd::string::*;
use crate::error::{KassiberError, KassiberErrorView, kview};
use crate::primitives::{Aes256GcmKey, AesAead, PostQuantumKeyPair, PostQuantumPublicKey, hkdf32, hkdf_salt, hkdf_sha256, ml_kem_decapsulated, ml_kem_encapsulated, ml_kem_encapsulation_key, ml_kem_key_valid, spec_decapsulate, tag, AES_GCM_A_MAX, AES_GCM_P_MAX, ML_KEM_CT_SIZE, ML_KEM_EK_SIZE, ML_KEM_SEED_SIZE, aes_gcm_opened, aes_gcm_sealed};
use crate::util::{bytes_to_vec, decimal, extend_bytes, le32, push_le32, u64_to_decimal};

verus! {

/// Which side of the session a ratchet belongs to; the two roles derive
/// mirrored send and receive chains from the same secret.
#[derive(Debug, Clone, Copy, PartialEq, Eq, Structural)]
pub enum Role {
    /// The party that processed the peer's prekey bundle.
    Initiator,
    /// The party that published the prekey bundle.
    Responder,
}

/// Ratchet limits.
#[derive(Debug, Clone)]
pub struct RatchetConfig {
    pub max_messages_per_phase: u32,
    pub max_lookahead: u32,
    pub rekey_interval_secs: u64,
    /// Upper bound for the store of skipped message keys.
    pub max_skipped_keys: u32,
}

impl Default for RatchetConfig {
    fn default() -> (c: Self)
        ensures
            c.max_messages_per_phase == 1000,
            c.max_lookahead == 2000,
            c.rekey_interval_secs == 86400,
            c.max_skipped_keys == 1000,
    {
        RatchetConfig {
            max_messages_per_phase: 1000,
            max_lookahead: 2000,
            rekey_interval_secs: 86400,
            max_skipped_keys: 1000,
        }
    }
}

/// A message key and the chain key that follows it.
#[derive(Debug)]
pub struct RatchetStep {
    pub message_key: [u8; 32],
    pub next_chain_key: [u8; 32],
}

// ---------------------------------------------------------------------------
// Chains
// ---------------------------------------------------------------------------

/// HKDF info of the chain from initiator to responder.
pub open spec fn info_a_to_b() -> Seq<u8> {
    tag("kassiber-chain-v1/initiator-to-responder")
}

/// HKDF info of the chain from responder to initiator.
pub open spec fn info_b_to_a() -> Seq<u8> {
    tag("kassiber-chain-v1/responder-to-initiator")
}

/// The root key derived from the session secret.
pub open spec fn initial_root(secret: Seq<u8>) -> Seq<u8> {
    hkdf_sha256(None, secret, tag("kassiber-ratchet-root-v1"))
}

/// The first chain key of the send (`send == true`) or receive chain of
/// `role` under `root`.
pub open spec fn chain_origin(root: Seq<u8>, role: Role, send: bool) -> Seq<u8> {
    let a_to_b = (role == Role::Initiator) == send;
    hkdf_sha256(None, root, if a_to_b { info_a_to_b() } else { info_b_to_a() })
}

/// One step along a chain.
pub open spec fn chain_step_spec(ck: Seq<u8>) -> Seq<u8> {
    hkdf_sha256(None, ck, tag("kassiber-chain-step-v1"))
}

/// The chain key `n` steps after `origin`.
pub open spec fn chain_key_at(origin: Seq<u8>, n: nat) -> Seq<u8>
    decreases n,
{
    if n == 0 {
        origin
    } else {
        chain_step_spec(chain_key_at(origin, (n - 1) as nat))
    }
}

/// The message key of `counter` derived from the chain key `ck`.
pub open spec fn message_key_spec(ck: Seq<u8>, counter: u32) -> Seq<u8> {
    hkdf_sha256(hkdf_salt(le32(counter)), ck, tag("kassiber-msg-key-v1"))
}

/// The message key of `counter` on the chain that starts at `origin`.
pub open spec fn message_key_at(origin: Seq<u8>, counter: u32) -> Seq<u8> {
    message_key_spec(chain_key_at(origin, counter as nat), counter)
}

/// The root key after mixing a re-key secret into `root`.
pub open spec fn rekeyed_root(root: Seq<u8>, shared: Seq<u8>) -> Seq<u8> {
    hkdf_sha256(hkdf_salt(root), shared, tag("kassiber-rekey-root-v1"))
}

/// The message key for `counter` from a chain key.
fn message_key(chain_key: &[u8; 32], counter: u32) -> (r: [u8; 32])
    ensures
        r@ == message_key_spec(chain_key@, counter),
{
    let mut salt: Vec<u8> = Vec::new();
    push_le32(&mut salt, counter);
    assert(salt@ == le32(counter));
    hkdf32(chain_key, salt.as_slice(), "kassiber-msg-key-v1".as_bytes())
}

/// Advances a chain key by one step.
fn chain_step(chain_key: &[u8; 32]) -> (r: [u8; 32])
    ensures
        r@ == chain_step_spec(chain_key@),
{
    let empty: Vec<u8> = Vec::new();
    hkdf32(chain_key, empty.as_slice(), "kassiber-chain-step-v1".as_bytes())
}

/// The first chain keys (send, receive) of `role` under `root`.
fn chain_origins(root: &[u8; 32], role: Role) -> (r: ([u8; 32], [u8; 32]))
    ensures
        r.0@ == chain_origin(root@, role, true),
        r.1@ == chain_origin(root@, role, false),
{
    let empty: Vec<u8> = Vec::new();
    let a_to_b = hkdf32(root, empty.as_slice(), "kassiber-chain-v1/initiator-to-responder".as_bytes());
    let b_to_a = hkdf32(root, empty.as_slice(), "kassiber-chain-v1/responder-to-initiator".as_bytes());
    match role {
        Role::Initiator => (a_to_b, b_to_a),
        Role::Responder => (b_to_a, a_to_b),
    }
}

// ---------------------------------------------------------------------------
// The ratchet
// ---------------------------------------------------------------------------

/// Hash ratchet state of one side of a session.
pub struct SpqrRatchet {
    send_chain_key: [u8; 32],
    recv_chain_key: [u8; 32],
    root_key: [u8; 32],
    send_counter: u32,
    recv_counter: u32,
    /// Skipped message keys, by increasing counter.
    skipped_keys: Vec<(u32, [u8; 32])>,
    /// Our current ratchet KEM key pair; the peer encapsulates against its
    /// public part during a re-key.
    ratchet_kem: PostQuantumKeyPair,
    role: Role,
    config: RatchetConfig,
    /// First key of the current send chain.
    send_origin: Ghost<Seq<u8>>,
    /// First key of the current receive chain.
    recv_origin: Ghost<Seq<u8>>,
}

/// A ratchet seen as its root, chains, counters and stored counters.
pub struct RatchetView {
    pub root: Seq<u8>,
    pub send_origin: Seq<u8>,
    pub recv_origin: Seq<u8>,
    pub send_counter: u32,
    pub recv_counter: u32,
    /// Counters whose message keys are stored, increasing.
    pub skipped: Seq<u32>,
    pub kem_public: Seq<u8>,
    pub kem_secret: Seq<u8>,
    pub role: Role,
    pub max_messages_per_phase: u32,
    pub max_lookahead: u32,
    pub max_skipped_keys: u32,
    pub rekey_interval_secs: u64,
}

/// The counters of the stored entries.
pub open spec fn entry_counters(s: Seq<(u32, [u8; 32])>) -> Seq<u32> {
    s.map_values(|e: (u32, [u8; 32])| e.0)
}

/// The counters `a, a+1, ..., b-1`.
pub open spec fn counter_range(a: nat, b: nat) -> Seq<u32> {
    Seq::new((b - a) as nat, |i: int| (a + i) as u32)
}

/// The last `m` elements of `s` (all of it if shorter).
pub open spec fn keep_last(s: Seq<u32>, m: nat) -> Seq<u32> {
    if s.len() > m {
        s.skip(s.len() - m)
    } else {
        s
    }
}

/// `s` without the element `c`.
pub open spec fn without(s: Seq<u32>, c: u32) -> Seq<u32> {
    s.filter(|x: u32| x != c)
}

impl View for SpqrRatchet {
    type V = RatchetView;

    closed spec fn view(&self) -> RatchetView {
        RatchetView {
            root: self.root_key@,
            send_origin: self.send_origin@,
            recv_origin: self.recv_origin@,
            send_counter: self.send_counter,
            recv_counter: self.recv_counter,
            skipped: entry_counters(self.skipped_keys@),
            kem_public: self.ratchet_kem.public@,
            kem_secret: self.ratchet_kem.secret@,
            role: self.role,
            max_messages_per_phase: self.config.max_messages_per_phase,
            max_lookahead: self.config.max_lookahead,
            max_skipped_keys: self.config.max_skipped_keys,
            rekey_interval_secs: self.config.rekey_interval_secs,
        }
    }
}

impl SpqrRatchet {
    /// Well-formedness: the chain keys are where the counters say, each
    /// stored key is the message key of its counter on the receive chain,
    /// the stored counters increase, lie below the receive counter and are
    /// at most `max_skipped_keys`, and the KEM key pair belongs together.
    pub closed spec fn wf(&self) -> bool {
        &&& self.send_chain_key@ == chain_key_at(self.send_origin@, self.send_counter as nat)
        &&& self.recv_chain_key@ == chain_key_at(self.recv_origin@, self.recv_counter as nat)
        &&& forall|k: int|
            0 <= k < self.skipped_keys@.len() ==> (#[trigger] self.skipped_keys@[k]).1@
                == message_key_at(self.recv_origin@, self.skipped_keys@[k].0)
        &&& forall|a: int, b: int|
            0 <= a < b < self.skipped_keys@.len() ==> (#[trigger] self.skipped_keys@[a]).0
                < (#[trigger] self.skipped_keys@[b]).0
        &&& forall|k: int|
            0 <= k < self.skipped_keys@.len() ==> (#[trigger] self.skipped_keys@[k]).0
                < self.recv_counter
        &&& self.skipped_keys@.len() <= self.config.max_skipped_keys
        &&& self.ratchet_kem.secret@.len() == ML_KEM_SEED_SIZE
        &&& self.ratchet_kem.public@ == ml_kem_encapsulation_key(self.ratchet_kem.secret@)
    }

    /// A fresh ratchet for `role` whose KEM key pair comes from `kem`.
    pub fn initialize_with(shared_secret: &[u8], config: RatchetConfig, role: Role, kem: PostQuantumKeyPair) -> (r: Self)
        requires
            kem.secret@.len() == ML_KEM_SEED_SIZE,
            kem.public@ == ml_kem_encapsulation_key(kem.secret@),
        ensures
            r.wf(),
            r@.root == initial_root(shared_secret@),
            r@.send_origin == chain_origin(r@.root, role, true),
            r@.recv_origin == chain_origin(r@.root, role, false),
            r@.send_counter == 0,
            r@.recv_counter == 0,
            r@.skipped.len() == 0,
            r@.kem_public == kem.public@,
            r@.kem_secret == kem.secret@,
            r@.role == role,
            r@.max_messages_per_phase == config.max_messages_per_phase,
            r@.max_lookahead == config.max_lookahead,
            r@.max_skipped_keys == config.max_skipped_keys,
            r@.rekey_interval_secs == config.rekey_interval_secs,
    {
        let empty: Vec<u8> = Vec::new();
        let root_key = hkdf32(shared_secret, empty.as_slice(), "kassiber-ratchet-root-v1".as_bytes());
        let (send_ck, recv_ck) = chain_origins(&root_key, role);
        let r = SpqrRatchet {
            send_chain_key: send_ck,
            recv_chain_key: recv_ck,
            root_key,
            send_counter: 0,
            recv_counter: 0,
            skipped_keys: Vec::new(),
            ratchet_kem: kem,
            role,
            config,
            send_origin: Ghost(send_ck@),
            recv_origin: Ghost(recv_ck@),
        };
        assert(entry_counters(r.skipped_keys@) =~= Seq::<u32>::empty());
        r
    }

    /// Initializes both chains from the session secret, mirrored by role,
    /// with a fresh ratchet KEM key pair.
    pub fn initialize(shared_secret: &[u8], config: RatchetConfig, role: Role) -> (r: Result<Self, KassiberError>)
        ensures
            r matches Ok(s) && {
                &&& s.wf()
                &&& s@.root == initial_root(shared_secret@)
                &&& s@.send_origin == chain_origin(s@.root, role, true)
                &&& s@.recv_origin == chain_origin(s@.root, role, false)
                &&& s@.send_counter == 0
                &&& s@.recv_counter == 0
                &&& s@.skipped.len() == 0
                &&& s@.role == role
                &&& s@.max_messages_per_phase == config.max_messages_per_phase
                &&& s@.max_lookahead == config.max_lookahead
                &&& s@.max_skipped_keys == config.max_skipped_keys
                &&& s@.rekey_interval_secs == config.rekey_interval_secs
                &&& s@.kem_public.len() == ML_KEM_EK_SIZE
                &&& ml_kem_key_valid(s@.kem_public)
            },
    {
        let kem = match PostQuantumKeyPair::generate_ml_kem768() {
            Ok(k) => k,
            Err(e) => return Err(e),
        };
        Ok(Self::initialize_with(shared_secret, config, role, kem))
    }

    /// Which side this ratchet belongs to.
    pub fn role(&self) -> (r: Role)
        ensures
            r == self@.role,
    {
        self.role
    }

    /// Messages sent in the current phase.
    pub fn send_counter(&self) -> (r: u32)
        ensures
            r == self@.send_counter,
    {
        self.send_counter
    }

    /// The next receive counter.
    pub fn recv_counter(&self) -> (r: u32)
        ensures
            r == self@.recv_counter,
    {
        self.recv_counter
    }

    /// How many skipped message keys are stored.
    pub fn skipped_len(&self) -> (r: usize)
        ensures
            r == self@.skipped.len(),
    {
        self.skipped_keys.len()
    }

    /// Public part of our current ratchet KEM key; the peer re-keys against
    /// it with [`SpqrRatchet::rekey_send`].
    pub fn ratchet_public_key(&self) -> (r: &[u8])
        ensures
            r@ == self@.kem_public,
    {
        self.ratchet_kem.public.as_slice()
    }

    /// Whether the send chain has used up its phase.
    pub fn needs_rekey(&self) -> (b: bool)
        ensures
            b == (self@.send_counter >= self@.max_messages_per_phase),
    {
        self.send_counter >= self.config.max_messages_per_phase
    }

    /// The key for the next message to send: the message key of the send
    /// counter on the send chain. Once `max_messages_per_phase` messages
    /// are sent, `RatchetDesync` until a re-key.
    pub fn next_send_key(&mut self) -> (r: Result<RatchetStep, KassiberError>)
        requires
            old(self).wf(),
        ensures
            final(self).wf(),
            r is Err <==> old(self)@.send_counter >= old(self)@.max_messages_per_phase,
            r matches Err(e) ==> e@ == KassiberErrorView::RatchetDesync(
                "Max messages per phase exceeded"@,
            ) && final(self)@ == old(self)@,
            r matches Ok(step) ==> {
                let c = old(self)@.send_counter;
                &&& step.message_key@ == message_key_at(old(self)@.send_origin, c)
                &&& step.next_chain_key@ == chain_key_at(old(self)@.send_origin, c as nat + 1)
                &&& final(self)@ == (RatchetView { send_counter: (c + 1) as u32, ..old(self)@ })
            },
    {
        if self.send_counter >= self.config.max_messages_per_phase {
            return Err(KassiberError::RatchetDesync(String::from_str("Max messages per phase exceeded")));
        }
        let ck = self.send_chain_key;
        let mk = message_key(&ck, self.send_counter);
        let next_ck = chain_step(&ck);
        self.send_chain_key = next_ck;
        self.send_counter = self.send_counter + 1;
        Ok(RatchetStep { message_key: mk, next_chain_key: next_ck })
    }
}

/// Keeping the last `m` counters before appending one changes nothing.
proof fn lemma_keep_last_push(x: Seq<u32>, c: u32, m: nat)
    ensures
        keep_last(keep_last(x, m).push(c), m) == keep_last(x.push(c), m),
{
    if x.len() > m {
        let k = keep_last(x, m);
        assert(k.len() == m);
        assert(keep_last(k.push(c), m) =~= keep_last(x.push(c), m));
    }
}

/// In increasing counters, the position of a counter is the one `index_of`
/// picks.
proof fn lemma_index_of_increasing(s: Seq<u32>, i: int)
    requires
        0 <= i < s.len(),
        forall|a: int, b: int| 0 <= a < b < s.len() ==> #[trigger] s[a] < #[trigger] s[b],
    ensures
        s.contains(s[i]),
        s.index_of(s[i]) == i,
{
    assert(s[i] == s[i]);
    let j = s.index_of(s[i]);
    assert(0 <= j < s.len() && s[j] == s[i]);
    if j < i {
        assert(s[j] < s[i]);
    } else if j > i {
        assert(s[i] < s[j]);
    }
}

/// Whether the message key of `counter` is held in the store of skipped
/// keys.
pub open spec fn recv_hit(v: RatchetView, counter: u32) -> bool {
    v.skipped.contains(counter)
}

/// The text of the error for a counter below the receive head.
pub open spec fn consumed_message(counter: u32, head: u32) -> Seq<char> {
    "Counter "@ + decimal(counter as nat) + " already consumed (head at "@ + decimal(head as nat) + ")"@
}

/// The text of the error for a counter too far beyond the receive head.
pub open spec fn too_far_message(counter: u32, head: u32) -> Seq<char> {
    "Counter "@ + decimal(counter as nat) + " too far ahead of "@ + decimal(head as nat)
}

/// Whether `counter` lies beyond what the receive chain may skip to; no
/// counter follows `u32::MAX`.
pub open spec fn too_far(v: RatchetView, counter: u32) -> bool {
    counter > v.recv_counter + v.max_lookahead || counter == u32::MAX
}

impl SpqrRatchet {
    /// The key for the received message `counter`. A stored skipped key is
    /// handed out (and dropped from the store). Otherwise a counter below
    /// the receive head (consumed, or evicted) or too far ahead is a
    /// `RatchetDesync` error; else the chain advances to `counter`, storing
    /// the message keys it skips (keeping the newest `max_skipped_keys`).
    #[verifier::rlimit(40)]
    pub fn recv_key_at(&mut self, counter: u32) -> (r: Result<RatchetStep, KassiberError>)
        requires
            old(self).wf(),
        ensures
            final(self).wf(),
            final(self)@.skipped.len() <= final(self)@.max_skipped_keys,
            r is Ok ==> !final(self)@.skipped.contains(counter) && counter < final(self)@.recv_counter,
            ({
                let v = old(self)@;
                let h = v.recv_counter;
                if recv_hit(v, counter) {
                    &&& r matches Ok(step) && step.message_key@ == message_key_at(v.recv_origin, counter)
                        && step.next_chain_key@ == chain_key_at(v.recv_origin, h as nat)
                    &&& final(self)@ == (RatchetView {
                        skipped: v.skipped.remove(v.skipped.index_of(counter)),
                        ..v
                    })
                } else if counter < h {
                    &&& r matches Err(e) && e@ == KassiberErrorView::RatchetDesync(
                        consumed_message(counter, h),
                    )
                    &&& final(self)@ == v
                } else if too_far(v, counter) {
                    &&& r matches Err(e) && e@ == KassiberErrorView::RatchetDesync(
                        too_far_message(counter, h),
                    )
                    &&& final(self)@ == v
                } else {
                    &&& r matches Ok(step) && step.message_key@ == message_key_at(v.recv_origin, counter)
                        && step.next_chain_key@ == chain_key_at(v.recv_origin, counter as nat + 1)
                    &&& final(self)@ == (RatchetView {
                        recv_counter: (counter + 1) as u32,
                        skipped: keep_last(
                            v.skipped + counter_range(h as nat, counter as nat),
                            v.max_skipped_keys as nat,
                        ),
                        ..v
                    })
                }
            }),
    {
        let ghost v = self@;
        let ghost origin = self.recv_origin@;
        // 1. A stored skipped key.
        let mut i: usize = 0;
        while i < self.skipped_keys.len()
            invariant
                self@ == v,
                v == old(self)@,
                self.wf(),
                0 <= i <= self.skipped_keys@.len(),
                forall|k: int| 0 <= k < i ==> (#[trigger] self.skipped_keys@[k]).0 != counter,
            decreases self.skipped_keys@.len() - i,
        {
            if self.skipped_keys[i].0 == counter {
                let ghost sk = entry_counters(self.skipped_keys@);
                proof {
                    assert(sk[i as int] == counter);
                    assert forall|a: int, b: int| 0 <= a < b < sk.len() implies #[trigger] sk[a] < #[trigger] sk[b] by {
                        assert(sk[a] == self.skipped_keys@[a].0);
                        assert(sk[b] == self.skipped_keys@[b].0);
                    }
                    lemma_index_of_increasing(sk, i as int);
                }
                let ghost prev = self.skipped_keys@;
                let entry = self.skipped_keys.remove(i);
                proof {
                    assert(entry_counters(self.skipped_keys@) =~= sk.remove(i as int));
                    assert forall|a: int, b: int| 0 <= a < b < self.skipped_keys@.len() implies (#[trigger] self.skipped_keys@[a]).0
                        < (#[trigger] self.skipped_keys@[b]).0 by {
                        let oa = if a < i { a } else { a + 1 };
                        let ob = if b < i { b } else { b + 1 };
                        assert(self.skipped_keys@[a] == prev[oa]);
                        assert(self.skipped_keys@[b] == prev[ob]);
                    }
                    assert forall|k: int| 0 <= k < self.skipped_keys@.len() implies (#[trigger] self.skipped_keys@[k]).1@
                        == message_key_at(self.recv_origin@, self.skipped_keys@[k].0) && self.skipped_keys@[k].0 < self.recv_counter by {
                        let ok = if k < i { k } else { k + 1 };
                        assert(self.skipped_keys@[k] == prev[ok]);
                    }
                }
                proof {
                    assert(entry == prev[i as int]);
                    assert(self@ == (RatchetView {
                        skipped: v.skipped.remove(v.skipped.index_of(counter)),
                        ..v
                    }));
                }
                return Ok(RatchetStep { message_key: entry.1, next_chain_key: self.recv_chain_key });
            }
            i = i + 1;
        }
        proof {
            assert(!v.skipped.contains(counter)) by {
                if v.skipped.contains(counter) {
                    let j = choose|j: int| 0 <= j < v.skipped.len() && v.skipped[j] == counter;
                    assert(self.skipped_keys@[j].0 == counter);
                }
            }
        }
        // 2. Below the head, or too far ahead.
        if counter < self.recv_counter {
            let mut m = String::from_str("Counter ");
            m.append(u64_to_decimal(counter as u64).as_str());
            m.append(" already consumed (head at ");
            m.append(u64_to_decimal(self.recv_counter as u64).as_str());
            m.append(")");
            return Err(KassiberError::RatchetDesync(m));
        }
        if counter as u64 > self.recv_counter as u64 + self.config.max_lookahead as u64 || counter
            == u32::MAX {
            let mut m = String::from_str("Counter ");
            m.append(u64_to_decimal(counter as u64).as_str());
            m.append(" too far ahead of ");
            m.append(u64_to_decimal(self.recv_counter as u64).as_str());
            return Err(KassiberError::RatchetDesync(m));
        }
        // 3. Advance, storing the skipped keys.
        let h = self.recv_counter;
        let max = self.config.max_skipped_keys;
        let mut skipped: Vec<(u32, [u8; 32])> = Vec::new();
        std::mem::swap(&mut skipped, &mut self.skipped_keys);
        let mut ck = self.recv_chain_key;
        let mut rc = h;
        proof {
            assert(counter_range(h as nat, h as nat) =~= Seq::<u32>::empty());
            assert(v.skipped + counter_range(h as nat, h as nat) =~= v.skipped);
        }
        while rc < counter
            invariant
                h <= rc <= counter,
                counter < u32::MAX,
                ck@ == chain_key_at(origin, rc as nat),
                entry_counters(skipped@) == keep_last(
                    v.skipped + counter_range(h as nat, rc as nat),
                    max as nat,
                ),
                forall|k: int|
                    0 <= k < skipped@.len() ==> (#[trigger] skipped@[k]).1@ == message_key_at(
                        origin,
                        skipped@[k].0,
                    ),
                forall|a: int, b: int|
                    0 <= a < b < skipped@.len() ==> (#[trigger] skipped@[a]).0
                        < (#[trigger] skipped@[b]).0,
                forall|k: int| 0 <= k < skipped@.len() ==> (#[trigger] skipped@[k]).0 < rc,
                skipped@.len() <= max,
            decreases counter - rc,
        {
            let key = message_key(&ck, rc);
            let ghost before = entry_counters(skipped@);
            let ghost prev = skipped@;
            skipped.push((rc, key));
            proof {
                assert(entry_counters(skipped@) =~= before.push(rc));
                lemma_keep_last_push(v.skipped + counter_range(h as nat, rc as nat), rc, max as nat);
                assert(v.skipped + counter_range(h as nat, rc as nat + 1) =~= (v.skipped
                    + counter_range(h as nat, rc as nat)).push(rc));
            }
            if skipped.len() as u64 > max as u64 {
                let ghost pushed = skipped@;
                skipped.remove(0);
                proof {
                    assert(entry_counters(skipped@) =~= before.push(rc).drop_first());
                    assert(keep_last(before.push(rc), max as nat) =~= before.push(rc).drop_first());
                    assert forall|k: int| 0 <= k < skipped@.len() implies #[trigger] skipped@[k] == pushed[k + 1] by {}
                }
            } else {
                assert(keep_last(before.push(rc), max as nat) == before.push(rc));
            }
            ck = chain_step(&ck);
            rc = rc + 1;
        }
        let mk = message_key(&ck, counter);
        let next_ck = chain_step(&ck);
        self.skipped_keys = skipped;
        self.recv_chain_key = next_ck;
        self.recv_counter = counter + 1;
        Ok(RatchetStep { message_key: mk, next_chain_key: next_ck })
    }
}

/// The ratchet after mixing the re-key secret `shared` into the root key:
/// both chains restart from the new root, counters at zero, no stored keys.
pub open spec fn rekeyed(v: RatchetView, shared: Seq<u8>) -> RatchetView {
    let root = rekeyed_root(v.root, shared);
    RatchetView {
        root,
        send_origin: chain_origin(root, v.role, true),
        recv_origin: chain_origin(root, v.role, false),
        send_counter: 0,
        recv_counter: 0,
        skipped: Seq::empty(),
        ..v
    }
}

impl SpqrRatchet {
    /// Facts that well-formedness gives about the view: the stored counters
    /// increase, lie below the receive counter and are bounded in number.
    pub proof fn lemma_view_facts(&self)
        requires
            self.wf(),
        ensures
            forall|a: int, b: int|
                0 <= a < b < self@.skipped.len() ==> #[trigger] self@.skipped[a]
                    < #[trigger] self@.skipped[b],
            forall|k: int| 0 <= k < self@.skipped.len() ==> #[trigger] self@.skipped[k] < self@.recv_counter,
            self@.skipped.len() <= self@.max_skipped_keys,
            self@.kem_secret.len() == ML_KEM_SEED_SIZE,
            self@.kem_public == ml_kem_encapsulation_key(self@.kem_secret),
    {
        assert forall|a: int, b: int| 0 <= a < b < self@.skipped.len() implies #[trigger] self@.skipped[a]
            < #[trigger] self@.skipped[b] by {
            assert(self@.skipped[a] == self.skipped_keys@[a].0);
            assert(self@.skipped[b] == self.skipped_keys@[b].0);
        }
        assert forall|k: int| 0 <= k < self@.skipped.len() implies #[trigger] self@.skipped[k] < self@.recv_counter by {
            assert(self@.skipped[k] == self.skipped_keys@[k].0);
        }
    }

    /// Mixes a re-key secret into the root key and restarts both chains.
    fn mix_rekey_secret(&mut self, shared: &[u8])
        requires
            old(self).wf(),
        ensures
            final(self).wf(),
            final(self)@ == rekeyed(old(self)@, shared@),
    {
        let root_key = hkdf32(shared, &self.root_key, "kassiber-rekey-root-v1".as_bytes());
        let (send_ck, recv_ck) = chain_origins(&root_key, self.role);
        self.root_key = root_key;
        self.send_chain_key = send_ck;
        self.recv_chain_key = recv_ck;
        self.send_counter = 0;
        self.recv_counter = 0;
        self.skipped_keys = Vec::new();
        self.send_origin = Ghost(send_ck@);
        self.recv_origin = Ghost(recv_ck@);
        assert(entry_counters(self.skipped_keys@) =~= Seq::<u32>::empty());
        assert(self@ =~= rekeyed(old(self)@, shared@));
    }

    /// Re-keys against the peer's ratchet KEM key with the ML-KEM message
    /// `m`: mixes the encapsulated secret into the root key and returns the
    /// ciphertext for the peer. A key that fails validation is an
    /// `Encryption` error and changes nothing.
    pub fn rekey_send_with(&mut self, peer_ratchet_key: &[u8], m: [u8; 32]) -> (r: Result<Vec<u8>, KassiberError>)
        requires
            old(self).wf(),
        ensures
            final(self).wf(),
            r is Err <==> !ml_kem_key_valid(peer_ratchet_key@),
            r matches Err(e) ==> e@ == KassiberErrorView::Encryption(
                "invalid ML-KEM-768 encapsulation key"@,
            ) && final(self)@ == old(self)@,
            r matches Ok(ct) ==> ct@ == ml_kem_encapsulated(peer_ratchet_key@, m@).0 && final(self)@
                == rekeyed(old(self)@, ml_kem_encapsulated(peer_ratchet_key@, m@).1),
    {
        let peer_key = PostQuantumPublicKey { bytes: bytes_to_vec(peer_ratchet_key) };
        let (shared, ct) = match peer_key.encapsulate_with(m) {
            Ok(p) => p,
            Err(e) => return Err(e),
        };
        self.mix_rekey_secret(shared.as_slice());
        Ok(ct)
    }

    /// Re-keys against the peer's ratchet KEM key with a random ML-KEM
    /// message; see [`SpqrRatchet::rekey_send_with`].
    pub fn rekey_send(&mut self, peer_ratchet_key: &[u8]) -> (r: Result<Vec<u8>, KassiberError>)
        requires
            old(self).wf(),
        ensures
            final(self).wf(),
            r is Err <==> !ml_kem_key_valid(peer_ratchet_key@),
            r matches Err(e) ==> e@ == KassiberErrorView::Encryption(
                "invalid ML-KEM-768 encapsulation key"@,
            ) && final(self)@ == old(self)@,
            r matches Ok(ct) ==> exists|m: Seq<u8>|
                m.len() == 32 && ct@ == (#[trigger] ml_kem_encapsulated(peer_ratchet_key@, m)).0
                    && final(self)@ == rekeyed(old(self)@, ml_kem_encapsulated(peer_ratchet_key@, m).1),
    {
        let mut m = [0u8; 32];
        crate::primitives::random_fill(&mut m);
        self.rekey_send_with(peer_ratchet_key, m)
    }

    /// Completes a re-key the peer started: decapsulates `kem_ct` with our
    /// ratchet KEM key, replaces that key pair by `next_kem`, mixes the
    /// secret into the root key and returns the new public key. A
    /// ciphertext of the wrong length is a `Decryption` error and changes
    /// nothing.
    pub fn rekey_recv_with(&mut self, kem_ct: &[u8], next_kem: PostQuantumKeyPair) -> (r: Result<Vec<u8>, KassiberError>)
        requires
            old(self).wf(),
            next_kem.secret@.len() == ML_KEM_SEED_SIZE,
            next_kem.public@ == ml_kem_encapsulation_key(next_kem.secret@),
        ensures
            final(self).wf(),
            r is Err <==> kem_ct@.len() != ML_KEM_CT_SIZE,
            r matches Err(e) ==> e@ == KassiberErrorView::Decryption("invalid ML-KEM-768 ciphertext"@)
                && final(self)@ == old(self)@,
            r matches Ok(pk) ==> pk@ == next_kem.public@ && final(self)@ == (RatchetView {
                kem_public: next_kem.public@,
                kem_secret: next_kem.secret@,
                ..rekeyed(old(self)@, ml_kem_decapsulated(old(self)@.kem_secret, kem_ct@))
            }),
    {
        let shared = match self.ratchet_kem.decapsulate(kem_ct) {
            Ok(s) => s,
            Err(e) => return Err(e),
        };
        self.ratchet_kem = next_kem;
        self.mix_rekey_secret(shared.as_slice());
        Ok(self.ratchet_kem.public.clone())
    }

    /// Completes a re-key the peer started, rotating to a fresh ratchet KEM
    /// key pair; see [`SpqrRatchet::rekey_recv_with`].
    pub fn rekey_recv(&mut self, kem_ct: &[u8]) -> (r: Result<Vec<u8>, KassiberError>)
        requires
            old(self).wf(),
        ensures
            final(self).wf(),
            r is Err <==> kem_ct@.len() != ML_KEM_CT_SIZE,
            r matches Err(e) ==> e@ == KassiberErrorView::Decryption("invalid ML-KEM-768 ciphertext"@)
                && final(self)@ == old(self)@,
            r matches Ok(pk) ==> pk@ == final(self)@.kem_public && final(self)@ == (RatchetView {
                kem_public: final(self)@.kem_public,
                kem_secret: final(self)@.kem_secret,
                ..rekeyed(old(self)@, ml_kem_decapsulated(old(self)@.kem_secret, kem_ct@))
            }),
            r matches Ok(pk) ==> pk@.len() == ML_KEM_EK_SIZE && ml_kem_key_valid(pk@),
    {
        if kem_ct.len() != ML_KEM_CT_SIZE {
            return Err(KassiberError::Decryption(String::from_str("invalid ML-KEM-768 ciphertext")));
        }
        let next_kem = match PostQuantumKeyPair::generate_ml_kem768() {
            Ok(k) => k,
            Err(e) => return Err(e),
        };
        self.rekey_recv_with(kem_ct, next_kem)
    }

    /// The state summary: root key, send and receive counters
    /// (little-endian), and the role (0: initiator, 1: responder).
    pub fn serialize(&self) -> (r: Vec<u8>)
        ensures
            r@ == self@.root + le32(self@.send_counter) + le32(self@.recv_counter) + seq![
                if self@.role == Role::Initiator { 0u8 } else { 1u8 },
            ],
    {
        let mut state: Vec<u8> = Vec::new();
        extend_bytes(&mut state, &self.root_key);
        push_le32(&mut state, self.send_counter);
        push_le32(&mut state, self.recv_counter);
        let b: u8 = match self.role {
            Role::Initiator => 0,
            Role::Responder => 1,
        };
        state.push(b);
        state
    }
}

// ---------------------------------------------------------------------------
// Laws
// ---------------------------------------------------------------------------

/// The two roles derive mirrored chains from the same root: the
/// initiator's send chain is the responder's receive chain and vice versa.
pub proof fn lemma_mirrored_chains(root: Seq<u8>)
    ensures
        chain_origin(root, Role::Initiator, true) == chain_origin(root, Role::Responder, false),
        chain_origin(root, Role::Initiator, false) == chain_origin(root, Role::Responder, true),
{
}

/// Two ratchets on the same secret in opposite roles agree on every message
/// key: what one sends at counter `n`, the other derives at counter `n`.
pub proof fn lemma_peer_keys_agree(secret: Seq<u8>, n: u32)
    ensures
        message_key_at(chain_origin(initial_root(secret), Role::Initiator, true), n)
            == message_key_at(chain_origin(initial_root(secret), Role::Responder, false), n),
        message_key_at(chain_origin(initial_root(secret), Role::Responder, true), n)
            == message_key_at(chain_origin(initial_root(secret), Role::Initiator, false), n),
{
}

/// Peers in opposite roles that share a root stay mirrored after mixing the
/// same re-key secret.
pub proof fn lemma_rekey_mirrored(a: RatchetView, b: RatchetView, shared: Seq<u8>)
    requires
        a.root == b.root,
        a.role == Role::Initiator,
        b.role == Role::Responder,
    ensures
        rekeyed(a, shared).send_origin == rekeyed(b, shared).recv_origin,
        rekeyed(a, shared).recv_origin == rekeyed(b, shared).send_origin,
{
}

// ---------------------------------------------------------------------------
// Adapter: ratchet keys for AES-256-GCM
// ---------------------------------------------------------------------------

/// The AES key for a ratchet message key.
pub open spec fn aes_key_for(message_key: Seq<u8>) -> Seq<u8> {
    hkdf_sha256(hkdf_salt(tag("kassiber-aes-salt-v1")), message_key, tag("kassiber-aes-key-v1"))
}

/// A ratchet that encrypts and decrypts messages with its message keys.
pub struct TripleRatchetAdapter {
    pub spqr: SpqrRatchet,
}

impl TripleRatchetAdapter {
    /// A fresh adapter; see [`SpqrRatchet::initialize`].
    pub fn new(shared_secret: &[u8], config: RatchetConfig, role: Role) -> (r: Result<Self, KassiberError>)
        ensures
            r matches Ok(a) && a.spqr.wf() && a.spqr@.root == initial_root(shared_secret@)
                && a.spqr@.send_origin == chain_origin(a.spqr@.root, role, true)
                && a.spqr@.recv_origin == chain_origin(a.spqr@.root, role, false)
                && a.spqr@.send_counter == 0 && a.spqr@.recv_counter == 0 && a.spqr@.skipped.len() == 0
                && a.spqr@.role == role && a.spqr@.max_messages_per_phase == config.max_messages_per_phase
                && a.spqr@.max_lookahead == config.max_lookahead
                && a.spqr@.max_skipped_keys == config.max_skipped_keys
                && a.spqr@.rekey_interval_secs == config.rekey_interval_secs,
    {
        match SpqrRatchet::initialize(shared_secret, config, role) {
            Ok(spqr) => Ok(TripleRatchetAdapter { spqr }),
            Err(e) => Err(e),
        }
    }

    /// Encrypts with the next send key; returns the ciphertext and its
    /// counter. Opening the ciphertext with the AES key of that message key
    /// gives the plaintext back.
    pub fn encrypt(&mut self, plaintext: &[u8], aad: &[u8]) -> (r: Result<(AesAead, u32), KassiberError>)
        requires
            old(self).spqr.wf(),
        ensures
            final(self).spqr.wf(),
            old(self).spqr@.send_counter >= old(self).spqr@.max_messages_per_phase ==> (r matches Err(e)
                && e@ == KassiberErrorView::RatchetDesync("Max messages per phase exceeded"@)
                && final(self).spqr@ == old(self).spqr@),
            old(self).spqr@.send_counter < old(self).spqr@.max_messages_per_phase ==> {
                let c = old(self).spqr@.send_counter;
                let key = aes_key_for(message_key_at(old(self).spqr@.send_origin, c));
                &&& final(self).spqr@ == (RatchetView { send_counter: (c + 1) as u32, ..old(self).spqr@ })
                &&& (r is Err <==> plaintext@.len() > AES_GCM_P_MAX || aad@.len() > AES_GCM_A_MAX)
                &&& r matches Ok(p) ==> p.1 == c && p.0.sealed() == aes_gcm_sealed(
                    key,
                    p.0.nonce@,
                    plaintext@,
                    aad@,
                ) && aes_gcm_opened(key, p.0.nonce@, p.0.sealed(), aad@) == Some(plaintext@)
            },
    {
        let step = match self.spqr.next_send_key() {
            Ok(s) => s,
            Err(e) => return Err(e),
        };
        let aes_key = Aes256GcmKey::from_shared_secret(&step.message_key);
        let ct = match aes_key.encrypt(plaintext, aad) {
            Ok(c) => c,
            Err(e) => return Err(e),
        };
        Ok((ct, self.spqr.send_counter - 1))
    }

    /// Decrypts the message `counter` with the receive key for it (see
    /// [`SpqrRatchet::recv_key_at`]).
    pub fn decrypt(&mut self, counter: u32, aead: &AesAead, aad: &[u8]) -> (r: Result<Vec<u8>, KassiberError>)
        requires
            old(self).spqr.wf(),
        ensures
            final(self).spqr.wf(),
            ({
                let v = old(self).spqr@;
                let accepted = recv_hit(v, counter) || (counter >= v.recv_counter && !too_far(v, counter));
                &&& !accepted ==> r is Err && final(self).spqr@ == v
                &&& accepted ==> match aes_gcm_opened(
                    aes_key_for(message_key_at(v.recv_origin, counter)),
                    aead.nonce@,
                    aead.sealed(),
                    aad@,
                ) {
                    Some(p) => r matches Ok(x) && x@ == p,
                    None => r is Err,
                }
            }),
    {
        let step = match self.spqr.recv_key_at(counter) {
            Ok(s) => s,
            Err(e) => return Err(e),
        };
        let aes_key = Aes256GcmKey::from_shared_secret(&step.message_key);
        aes_key.decrypt(aead, aad)
    }
}

} // verus!
