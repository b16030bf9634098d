# kassiber

The core of KASSIBER, a cryptographic layer that sits between a person and
any messenger: a hybrid post-quantum handshake (ML-KEM-768 with X25519,
prekey bundles signed with ML-DSA-65 and Ed25519), a hash-chain ratchet with
a bounded store of skipped keys and ML-KEM re-keys, and a transport codec
that turns ciphertext into plain-looking sentences of BIP-39 words between
`<<<KASSIBER>>>` markers.

The library under `src/` is written in Verus: its public functions carry
contracts, and Verus proves every function against its own contract and
those of the functions it calls. The cryptographic primitives come from the
RustCrypto and dalek crates, DEFLATE from `flate2`, randomness from `rand`,
scrubbing of removed keys from `zeroize`; each call into them goes through
a small trusted wrapper whose contract names what the call returns.

The BIP-39 English word list is taken from the `bip39` crate
(`Language::English.word_list()`), which carries the standard list of 2048
distinct lower-case words; the wrapper that reads it states what that
crate's array shows: each word is a run of the letters `a`–`z`, and no two
are equal.

Layout:

- `src/framing.rs`, `src/packing.rs`, `src/dictionary.rs`, `src/codec.rs`,
  `src/text.rs`: frames with CRC-32, 11-bit word packing, the dictionary,
  and the codec with its carrier text.
- `src/primitives.rs`, `src/ratchet.rs`, `src/session.rs`, `src/wire.rs`:
  primitives, the ratchet, the session with its handshake and resets, and
  the wire encoding of bundles and handshake messages.
- `src/keystore.rs`: the keystore as a state machine and Ed25519 signing
  with stored seeds.
- `src/ffi.rs`: the application-facing identity and carrier messaging.
- `app/`: the UniFFI surface and the tokio keystore actor around the
  library.
- `tests/`: tests of the library.
