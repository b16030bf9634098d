//! The keystore: key material by identifier, and Ed25519 signing with a
//! stored 32-byte seed.
//!
//! The store itself is a state machine: each request (store, retrieve,
//! delete, presence check) takes the state to its next state and yields a
//! reply. Serving requests from several tasks (an actor) is left to the
//! caller. On a host without StrongBox hardware, keys are generated in
//! software from the operating system's generator.
use vstd::prelude::*;
use vstd::string::*;
use crate::error::{KassiberError, KassiberErrorView};
use crate::primitives::{ed25519_accepts, ed25519_signature, ed25519_sign, ed25519_verifying_key, random_fill};
use crate::util::bytes_to_vec;
use crate::primitives::array32;

verus! {

/// Keystore settings.
#[derive(Debug, Clone)]
pub struct KeystoreConfig {
    pub use_strongbox: bool,
    pub key_ttl_seconds: u64,
}

impl Default for KeystoreConfig {
    fn default() -> (c: Self)
        ensures
            c.use_strongbox,
            c.key_ttl_seconds == 300,
    {
        KeystoreConfig { use_strongbox: true, key_ttl_seconds: 300 }
    }
}

/// The system clock's type, held as it is.
#[verifier::external_type_specification]
#[verifier::external_body]
pub struct ExSystemTime(std::time::SystemTime);

/// The current time (`std::time::SystemTime::now`); nothing is stated of it.
#[verifier::external_body]
fn system_now() -> (t: std::time::SystemTime) {
    std::time::SystemTime::now()
}

/// Cloning a `SystemTime` (a `Copy` type) gives the same instant.
pub assume_specification[ <std::time::SystemTime as Clone>::clone ](t: &std::time::SystemTime) -> (r: std::time::SystemTime)
    ensures
        r == *t,
;

/// A handle to a stored key: its identifier and when it was stored.
#[derive(Debug, Clone)]
pub struct SecureKeyHandle {
    pub key_id: String,
    pub created_at: std::time::SystemTime,
}

/// The keys of a keystore, by identifier.
pub struct KeystoreState {
    keys: Vec<(String, Vec<u8>)>,
    config: KeystoreConfig,
}

/// The identifiers of the entries, in order.
pub open spec fn entry_ids(s: Seq<(String, Vec<u8>)>) -> Seq<Seq<char>> {
    s.map_values(|e: (String, Vec<u8>)| e.0@)
}

/// The key stored under `id` in the entries, if any.
pub open spec fn lookup(s: Seq<(String, Vec<u8>)>, id: Seq<char>) -> Option<Seq<u8>>
    decreases s.len(),
{
    if s.len() == 0 {
        None
    } else if s.last().0@ == id {
        Some(s.last().1@)
    } else {
        lookup(s.drop_last(), id)
    }
}

/// The text of the error for a missing key.
pub open spec fn not_found_message(id: Seq<char>) -> Seq<char> {
    "Key not found: "@ + id
}

/// Scrubs key bytes that leave the store: `zeroize::Zeroize::zeroize` on a
/// `Vec<u8>` overwrites every byte (and the spare capacity) with zeros,
/// then clears the vector. Claims: the vector is empty afterwards.
#[verifier::external_body]
fn scrub(v: &mut Vec<u8>)
    ensures
        final(v)@.len() == 0,
{
    zeroize::Zeroize::zeroize(v)
}

/// Whether two strings are equal.
fn str_equal(a: &str, b: &str) -> (r: bool)
    ensures
        r == (a@ == b@),
{
    let ac = crate::text::str_chars(a);
    let bc = crate::text::str_chars(b);
    if ac.len() != bc.len() {
        return false;
    }
    let mut i: usize = 0;
    while i < ac.len()
        invariant
            ac@ == a@,
            bc@ == b@,
            ac@.len() == bc@.len(),
            0 <= i <= ac@.len(),
            forall|k: int| 0 <= k < i ==> ac@[k] == bc@[k],
        decreases ac@.len() - i,
    {
        if ac[i] != bc[i] {
            return false;
        }
        i = i + 1;
    }
    assert(a@ =~= b@);
    true
}

impl KeystoreState {
    /// Well-formedness: no identifier twice.
    pub closed spec fn wf(&self) -> bool {
        forall|a: int, b: int|
            0 <= a < b < self.keys@.len() ==> (#[trigger] self.keys@[a]).0@ != (#[trigger] self.keys@[b]).0@
    }

    /// The stored keys as a map from identifiers to key bytes.
    pub closed spec fn contents(&self) -> Map<Seq<char>, Seq<u8>> {
        Map::new(|id: Seq<char>| lookup(self.keys@, id) is Some, |id: Seq<char>| lookup(self.keys@, id).unwrap())
    }

    /// The settings the keystore was made with.
    pub closed spec fn config(&self) -> KeystoreConfig {
        self.config
    }

    /// An empty keystore with the given settings.
    pub fn new(config: KeystoreConfig) -> (s: Self)
        ensures
            s.wf(),
            s.contents() == Map::<Seq<char>, Seq<u8>>::empty(),
            s.config() == config,
    {
        let s = KeystoreState { keys: Vec::new(), config };
        assert(s.contents() =~= Map::<Seq<char>, Seq<u8>>::empty());
        s
    }

    /// The position of `key_id` among the entries, if stored.
    fn position(&self, key_id: &str) -> (r: Option<usize>)
        requires
            self.wf(),
        ensures
            match r {
                Some(i) => i < self.keys@.len() && self.keys@[i as int].0@ == key_id@,
                None => forall|k: int| 0 <= k < self.keys@.len() ==> (#[trigger] self.keys@[k]).0@ != key_id@,
            },
    {
        let mut i: usize = 0;
        while i < self.keys.len()
            invariant
                0 <= i <= self.keys@.len(),
                forall|k: int| 0 <= k < i ==> (#[trigger] self.keys@[k]).0@ != key_id@,
            decreases self.keys@.len() - i,
        {
            if str_equal(self.keys[i].0.as_str(), key_id) {
                return Some(i);
            }
            i = i + 1;
        }
        None
    }

    /// Stores `key_data` under `key_id`, replacing any earlier key there
    /// (whose bytes are scrubbed).
    pub fn store_key(&mut self, key_id: String, key_data: Vec<u8>) -> (r: Result<SecureKeyHandle, KassiberError>)
        requires
            old(self).wf(),
        ensures
            final(self).wf(),
            final(self).contents() == old(self).contents().insert(key_id@, key_data@),
            r matches Ok(h) && h.key_id@ == key_id@,
    {
        let ghost id = key_id@;
        let ghost data = key_data@;
        match self.position(key_id.as_str()) {
            Some(i) => {
                let ghost before = self.keys@;
                let id_copy = key_id.clone();
                let (_, mut replaced) = self.keys.remove(i);
                scrub(&mut replaced);
                self.keys.insert(i, (id_copy, key_data));
                proof {
                    assert(self.keys@ =~= before.update(i as int, self.keys@[i as int]));
                    assert forall|x: Seq<char>| #[trigger] lookup(self.keys@, x) == (if x == id { Some(data) } else { lookup(before, x) }) by {
                        lemma_lookup_update(before, i as int, self.keys@[i as int], x);
                    }
                    assert forall|a: int, b: int| 0 <= a < b < self.keys@.len() implies (#[trigger] self.keys@[a]).0@ != (#[trigger] self.keys@[b]).0@ by {
                        assert(self.keys@[a].0@ == before[a].0@);
                        assert(self.keys@[b].0@ == before[b].0@);
                    }
                    assert(self.contents() =~= old(self).contents().insert(id, data));
                }
            },
            None => {
                let ghost before = self.keys@;
                let id_copy = key_id.clone();
                self.keys.push((id_copy, key_data));
                proof {
                    assert(self.keys@.drop_last() =~= before);
                    assert forall|x: Seq<char>| #[trigger] lookup(self.keys@, x) == (if x == id { Some(data) } else { lookup(before, x) }) by {
                        if x != id {
                            assert(self.keys@.last().0@ == id);
                        }
                    }
                    assert forall|a: int, b: int| 0 <= a < b < self.keys@.len() implies (#[trigger] self.keys@[a]).0@ != (#[trigger] self.keys@[b]).0@ by {
                        if b == self.keys@.len() - 1 {
                            assert(self.keys@[a] == before[a]);
                        } else {
                            assert(self.keys@[a] == before[a]);
                            assert(self.keys@[b] == before[b]);
                        }
                    }
                    assert(self.contents() =~= old(self).contents().insert(id, data));
                }
            },
        }
        let created_at = system_now();
        Ok(SecureKeyHandle { key_id, created_at })
    }

    /// A copy of the key stored under `key_id`.
    pub fn retrieve_key(&self, key_id: &str) -> (r: Result<Vec<u8>, KassiberError>)
        requires
            self.wf(),
        ensures
            match r {
                Ok(v) => self.contents().contains_key(key_id@) && v@ == self.contents()[key_id@],
                Err(e) => !self.contents().contains_key(key_id@) && e@ == KassiberErrorView::Keystore(
                    not_found_message(key_id@),
                ),
            },
    {
        match self.position(key_id) {
            Some(i) => {
                proof {
                    lemma_lookup_found(self.keys@, i as int);
                }
                Ok(bytes_to_vec(self.keys[i].1.as_slice()))
            },
            None => {
                proof {
                    lemma_lookup_absent(self.keys@, key_id@);
                }
                let mut m = String::from_str("Key not found: ");
                m.append(key_id);
                Err(KassiberError::Keystore(m))
            },
        }
    }

    /// Removes the key stored under `key_id`, if any, scrubbing its bytes.
    pub fn delete_key(&mut self, key_id: &str) -> (r: Result<(), KassiberError>)
        requires
            old(self).wf(),
        ensures
            final(self).wf(),
            final(self).contents() == old(self).contents().remove(key_id@),
            r is Ok,
    {
        match self.position(key_id) {
            Some(i) => {
                let ghost before = self.keys@;
                let (_, mut removed) = self.keys.remove(i);
                scrub(&mut removed);
                proof {
                    assert forall|x: Seq<char>| #[trigger] lookup(self.keys@, x) == (if x == key_id@ { None } else { lookup(before, x) }) by {
                        lemma_lookup_remove(before, i as int, x);
                    }
                    assert forall|a: int, b: int| 0 <= a < b < self.keys@.len() implies (#[trigger] self.keys@[a]).0@ != (#[trigger] self.keys@[b]).0@ by {
                        let oa = if a < i { a } else { a + 1 };
                        let ob = if b < i { b } else { b + 1 };
                        assert(self.keys@[a] == before[oa]);
                        assert(self.keys@[b] == before[ob]);
                    }
                    assert(self.contents() =~= old(self).contents().remove(key_id@));
                }
            },
            None => {
                proof {
                    lemma_lookup_absent(self.keys@, key_id@);
                    assert(self.contents() =~= old(self).contents().remove(key_id@));
                }
            },
        }
        Ok(())
    }

    /// Whether a key is stored under `key_id`.
    pub fn has_key(&self, key_id: &str) -> (b: bool)
        requires
            self.wf(),
        ensures
            b == self.contents().contains_key(key_id@),
    {
        match self.position(key_id) {
            Some(i) => {
                proof {
                    lemma_lookup_found(self.keys@, i as int);
                }
                true
            },
            None => {
                proof {
                    lemma_lookup_absent(self.keys@, key_id@);
                }
                false
            },
        }
    }
}

proof fn lemma_lookup_absent(s: Seq<(String, Vec<u8>)>, id: Seq<char>)
    requires
        forall|k: int| 0 <= k < s.len() ==> (#[trigger] s[k]).0@ != id,
    ensures
        lookup(s, id) is None,
    decreases s.len(),
{
    if s.len() > 0 {
        assert(s.last() == s[s.len() - 1]);
        lemma_lookup_absent(s.drop_last(), id);
    }
}

proof fn lemma_lookup_found(s: Seq<(String, Vec<u8>)>, i: int)
    requires
        0 <= i < s.len(),
        forall|a: int, b: int| 0 <= a < b < s.len() ==> (#[trigger] s[a]).0@ != (#[trigger] s[b]).0@,
    ensures
        lookup(s, s[i].0@) == Some(s[i].1@),
    decreases s.len(),
{
    if i < s.len() - 1 {
        assert(s.last() == s[s.len() - 1]);
        assert(s.drop_last()[i] == s[i]);
        lemma_lookup_found(s.drop_last(), i);
    }
}

proof fn lemma_lookup_update(s: Seq<(String, Vec<u8>)>, i: int, e: (String, Vec<u8>), x: Seq<char>)
    requires
        0 <= i < s.len(),
        s[i].0@ == e.0@,
        forall|a: int, b: int| 0 <= a < b < s.len() ==> (#[trigger] s[a]).0@ != (#[trigger] s[b]).0@,
    ensures
        lookup(s.update(i, e), x) == (if x == e.0@ { Some(e.1@) } else { lookup(s, x) }),
    decreases s.len(),
{
    let t = s.update(i, e);
    if i == s.len() - 1 {
        assert(t.last() == e);
        assert(t.drop_last() =~= s.drop_last());
        if x == e.0@ {
        } else {
            assert(s.last().0@ == e.0@);
        }
    } else {
        assert(t.last() == s.last());
        assert(t.drop_last() =~= s.drop_last().update(i, e));
        assert(s.last().0@ != e.0@) by {
            assert(s[i].0@ != s[s.len() - 1].0@);
        }
        lemma_lookup_update(s.drop_last(), i, e, x);
    }
}

proof fn lemma_lookup_remove(s: Seq<(String, Vec<u8>)>, i: int, x: Seq<char>)
    requires
        0 <= i < s.len(),
        forall|a: int, b: int| 0 <= a < b < s.len() ==> (#[trigger] s[a]).0@ != (#[trigger] s[b]).0@,
    ensures
        lookup(s.remove(i), x) == (if x == s[i].0@ { None } else { lookup(s, x) }),
    decreases s.len(),
{
    let t = s.remove(i);
    if i == s.len() - 1 {
        assert(t =~= s.drop_last());
        if x == s[i].0@ {
            assert forall|k: int| 0 <= k < t.len() implies (#[trigger] t[k]).0@ != x by {
                assert(t[k] == s[k]);
            }
            lemma_lookup_absent(t, x);
        }
    } else {
        assert(t.last() == s.last());
        assert(t.drop_last() =~= s.drop_last().remove(i));
        assert(s.last().0@ != s[i].0@) by {
            assert(s[i].0@ != s[s.len() - 1].0@);
        }
        assert(s.drop_last()[i] == s[i]);
        lemma_lookup_remove(s.drop_last(), i, x);
    }
}

/// Reading back what the keystore holds after a request, over
/// [`KeystoreState::contents`]: after storing `data` under `id` a
/// retrieval of `id` gives `data` and the other identifiers keep their
/// keys; after deleting `id` there is no key under `id` and the others keep
/// theirs.
pub proof fn lemma_keystore_read_after_write(contents: Map<Seq<char>, Seq<u8>>, id: Seq<char>, data: Seq<u8>, other: Seq<char>)
    requires
        other != id,
    ensures
        contents.insert(id, data).contains_key(id),
        contents.insert(id, data)[id] == data,
        contents.insert(id, data).contains_key(other) == contents.contains_key(other),
        contents.contains_key(other) ==> contents.insert(id, data)[other] == contents[other],
        !contents.remove(id).contains_key(id),
        contents.remove(id).contains_key(other) == contents.contains_key(other),
        contents.contains_key(other) ==> contents.remove(id)[other] == contents[other],
{
}

/// The text of the error for a stored key that is not an Ed25519 seed.
pub open spec fn not_a_seed_message(alias: Seq<char>) -> Seq<char> {
    "Key '"@ + alias + "' is not a 32-byte seed"@
}

/// A fresh 32-byte Ed25519 seed from the operating system's generator
/// (the software fallback for hardware key generation).
pub fn generate_seed() -> (r: Vec<u8>)
    ensures
        r@.len() == 32,
{
    let mut seed = [0u8; 32];
    random_fill(&mut seed);
    bytes_to_vec(&seed)
}

/// Ed25519-signs `data` with the seed stored under `alias`; a stored key
/// that is not 32 bytes is a `Keystore` error. The signature verifies under
/// the seed's verifying key.
pub fn hw_sign_with_seed(alias: &str, seed: &[u8], data: &[u8]) -> (r: Result<Vec<u8>, KassiberError>)
    ensures
        r is Ok <==> seed@.len() == 32,
        r matches Err(e) ==> e@ == KassiberErrorView::Keystore(not_a_seed_message(alias@)),
        r matches Ok(sig) ==> sig@ == ed25519_signature(seed@, data@) && ed25519_accepts(
            ed25519_verifying_key(seed@),
            data@,
            sig@,
        ),
{
    if seed.len() != 32 {
        let mut m = String::from_str("Key '");
        m.append(alias);
        m.append("' is not a 32-byte seed");
        return Err(KassiberError::Keystore(m));
    }
    let seed_bytes = array32(seed);
    let sig = ed25519_sign(&seed_bytes, data);
    Ok(bytes_to_vec(&sig))
}

} // verus!
