//! KASSIBER: hybrid post-quantum messaging core and dictionary transport codec.
#![allow(unused_imports)]

pub mod error;
pub mod util;
pub mod framing;
pub mod text;
pub mod bip39_english;
pub mod dictionary;
pub mod packing;
pub mod codec;
pub mod primitives;
pub mod ratchet;
pub mod wire;
pub mod session;
pub mod keystore;
pub mod ffi;
