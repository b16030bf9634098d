//! Error types of the crypto core and of the transport layer, and their
//! mathematical views (messages as character sequences).
use vstd::prelude::*;
use vstd::string::*;
use crate::util::{decimal, u64_to_decimal};

verus! {

/// Errors of the cryptographic core.
#[derive(Debug, Clone)]
pub enum KassiberError {
    KeyGeneration(String),
    Encryption(String),
    Decryption(String),
    Signature(String),
    SignatureVerification,
    Keystore(String),
    RatchetDesync(String),
    SessionResetRequired,
    InvalidSession(String),
    InvalidInput(String),
    Serialization(String),
    Ffi(String),
}

/// [`KassiberError`] with its messages seen as character sequences.
pub enum KassiberErrorView {
    KeyGeneration(Seq<char>),
    Encryption(Seq<char>),
    Decryption(Seq<char>),
    Signature(Seq<char>),
    SignatureVerification,
    Keystore(Seq<char>),
    RatchetDesync(Seq<char>),
    SessionResetRequired,
    InvalidSession(Seq<char>),
    InvalidInput(Seq<char>),
    Serialization(Seq<char>),
    Ffi(Seq<char>),
}

impl View for KassiberError {
    type V = KassiberErrorView;

    open spec fn view(&self) -> KassiberErrorView {
        match self {
            KassiberError::KeyGeneration(m) => KassiberErrorView::KeyGeneration(m@),
            KassiberError::Encryption(m) => KassiberErrorView::Encryption(m@),
            KassiberError::Decryption(m) => KassiberErrorView::Decryption(m@),
            KassiberError::Signature(m) => KassiberErrorView::Signature(m@),
            KassiberError::SignatureVerification => KassiberErrorView::SignatureVerification,
            KassiberError::Keystore(m) => KassiberErrorView::Keystore(m@),
            KassiberError::RatchetDesync(m) => KassiberErrorView::RatchetDesync(m@),
            KassiberError::SessionResetRequired => KassiberErrorView::SessionResetRequired,
            KassiberError::InvalidSession(m) => KassiberErrorView::InvalidSession(m@),
            KassiberError::InvalidInput(m) => KassiberErrorView::InvalidInput(m@),
            KassiberError::Serialization(m) => KassiberErrorView::Serialization(m@),
            KassiberError::Ffi(m) => KassiberErrorView::Ffi(m@),
        }
    }
}

/// Errors of the transport layer.
#[derive(Debug, Clone)]
pub enum TransportError {
    InvalidDictionary(String),
    UnknownWord(String),
    InvalidIndex(u16),
    InvalidFrameType(u8),
    InvalidFrame(String),
    ChecksumMismatch { expected: u32, computed: u32 },
    Compression(String),
    MissingEndMarker,
    NoData,
}

/// [`TransportError`] with its messages seen as character sequences.
pub enum TransportErrorView {
    InvalidDictionary(Seq<char>),
    UnknownWord(Seq<char>),
    InvalidIndex(u16),
    InvalidFrameType(u8),
    InvalidFrame(Seq<char>),
    ChecksumMismatch { expected: u32, computed: u32 },
    Compression(Seq<char>),
    MissingEndMarker,
    NoData,
}

impl View for TransportError {
    type V = TransportErrorView;

    open spec fn view(&self) -> TransportErrorView {
        match self {
            TransportError::InvalidDictionary(m) => TransportErrorView::InvalidDictionary(m@),
            TransportError::UnknownWord(m) => TransportErrorView::UnknownWord(m@),
            TransportError::InvalidIndex(i) => TransportErrorView::InvalidIndex(*i),
            TransportError::InvalidFrameType(b) => TransportErrorView::InvalidFrameType(*b),
            TransportError::InvalidFrame(m) => TransportErrorView::InvalidFrame(m@),
            TransportError::ChecksumMismatch { expected, computed } => {
                TransportErrorView::ChecksumMismatch { expected: *expected, computed: *computed }
            },
            TransportError::Compression(m) => TransportErrorView::Compression(m@),
            TransportError::MissingEndMarker => TransportErrorView::MissingEndMarker,
            TransportError::NoData => TransportErrorView::NoData,
        }
    }
}

/// A transport result seen through the views of its value and error.
pub open spec fn tview<T: View>(r: Result<T, TransportError>) -> Result<T::V, TransportErrorView> {
    match r {
        Ok(v) => Ok(v@),
        Err(e) => Err(e@),
    }
}

/// A crypto result seen through the views of its value and error.
pub open spec fn kview<T: View>(r: Result<T, KassiberError>) -> Result<T::V, KassiberErrorView> {
    match r {
        Ok(v) => Ok(v@),
        Err(e) => Err(e@),
    }
}

/// The text of a crypto error.
pub open spec fn kassiber_error_text(e: KassiberErrorView) -> Seq<char> {
    match e {
        KassiberErrorView::KeyGeneration(m) => "Key generation failed: "@ + m,
        KassiberErrorView::Encryption(m) => "Encryption failed: "@ + m,
        KassiberErrorView::Decryption(m) => "Decryption failed: "@ + m,
        KassiberErrorView::Signature(m) => "Signature failed: "@ + m,
        KassiberErrorView::SignatureVerification => "Signature verification failed"@,
        KassiberErrorView::Keystore(m) => "Keystore error: "@ + m,
        KassiberErrorView::RatchetDesync(m) => "Ratchet desynchronized: "@ + m,
        KassiberErrorView::SessionResetRequired => "Session reset required"@,
        KassiberErrorView::InvalidSession(m) => "Invalid session state: "@ + m,
        KassiberErrorView::InvalidInput(m) => "Invalid input: "@ + m,
        KassiberErrorView::Serialization(m) => "Serialization error: "@ + m,
        KassiberErrorView::Ffi(m) => "FFI error: "@ + m,
    }
}

/// The lower-case hexadecimal digit of `d` (below 16).
pub open spec fn hex_digit(d: nat) -> char {
    if d < 10 { ((48 + d) as u8) as char } else { ((87 + d) as u8) as char }
}

/// `b` as `0x` and two lower-case hexadecimal digits.
pub open spec fn hex_byte(b: u8) -> Seq<char> {
    seq!['0', 'x', hex_digit((b / 16) as nat), hex_digit((b % 16) as nat)]
}

/// The text of a transport error.
pub open spec fn transport_error_text(e: TransportErrorView) -> Seq<char> {
    match e {
        TransportErrorView::InvalidDictionary(m) => "Invalid dictionary: "@ + m,
        TransportErrorView::UnknownWord(m) => "Unknown word: "@ + m,
        TransportErrorView::InvalidIndex(i) => "Invalid word index: "@ + decimal(i as nat),
        TransportErrorView::InvalidFrameType(b) => "Invalid frame type: "@ + hex_byte(b),
        TransportErrorView::InvalidFrame(m) => "Invalid frame: "@ + m,
        TransportErrorView::ChecksumMismatch { expected, computed } => "Checksum mismatch: expected "@
            + decimal(expected as nat) + ", computed "@ + decimal(computed as nat),
        TransportErrorView::Compression(m) => "Compression error: "@ + m,
        TransportErrorView::MissingEndMarker => "Missing end marker"@,
        TransportErrorView::NoData => "No data"@,
    }
}

/// `p` followed by `m`.
fn joined(p: &str, m: &str) -> (s: String)
    ensures
        s@ == p@ + m@,
{
    let mut s = String::from_str(p);
    s.append(m);
    s
}

/// Appends the lower-case hexadecimal digit of `d`.
fn push_hex_digit(s: &mut String, d: u8)
    requires
        d < 16,
    ensures
        final(s)@ == old(s)@.push(hex_digit(d as nat)),
{
    let c = if d < 10 { (48 + d) as char } else { (87 + d) as char };
    crate::text::string_push(s, c);
}

impl KassiberError {
    /// The error's text.
    pub fn to_string(&self) -> (s: String)
        ensures
            s@ == kassiber_error_text(self@),
    {
        match self {
            KassiberError::KeyGeneration(m) => joined("Key generation failed: ", m.as_str()),
            KassiberError::Encryption(m) => joined("Encryption failed: ", m.as_str()),
            KassiberError::Decryption(m) => joined("Decryption failed: ", m.as_str()),
            KassiberError::Signature(m) => joined("Signature failed: ", m.as_str()),
            KassiberError::SignatureVerification => String::from_str("Signature verification failed"),
            KassiberError::Keystore(m) => joined("Keystore error: ", m.as_str()),
            KassiberError::RatchetDesync(m) => joined("Ratchet desynchronized: ", m.as_str()),
            KassiberError::SessionResetRequired => String::from_str("Session reset required"),
            KassiberError::InvalidSession(m) => joined("Invalid session state: ", m.as_str()),
            KassiberError::InvalidInput(m) => joined("Invalid input: ", m.as_str()),
            KassiberError::Serialization(m) => joined("Serialization error: ", m.as_str()),
            KassiberError::Ffi(m) => joined("FFI error: ", m.as_str()),
        }
    }
}

impl TransportError {
    /// The error's text.
    pub fn to_string(&self) -> (s: String)
        ensures
            s@ == transport_error_text(self@),
    {
        match self {
            TransportError::InvalidDictionary(m) => joined("Invalid dictionary: ", m.as_str()),
            TransportError::UnknownWord(m) => joined("Unknown word: ", m.as_str()),
            TransportError::InvalidIndex(i) => joined(
                "Invalid word index: ",
                u64_to_decimal(*i as u64).as_str(),
            ),
            TransportError::InvalidFrameType(b) => {
                let mut s = String::from_str("Invalid frame type: 0x");
                push_hex_digit(&mut s, *b / 16);
                push_hex_digit(&mut s, *b % 16);
                proof {
                    reveal_strlit("Invalid frame type: 0x");
                    reveal_strlit("Invalid frame type: ");
                    assert(s@ =~= "Invalid frame type: "@ + hex_byte(*b));
                }
                s
            },
            TransportError::InvalidFrame(m) => joined("Invalid frame: ", m.as_str()),
            TransportError::ChecksumMismatch { expected, computed } => {
                let mut s = String::from_str("Checksum mismatch: expected ");
                s.append(u64_to_decimal(*expected as u64).as_str());
                s.append(", computed ");
                s.append(u64_to_decimal(*computed as u64).as_str());
                s
            },
            TransportError::Compression(m) => joined("Compression error: ", m.as_str()),
            TransportError::MissingEndMarker => String::from_str("Missing end marker"),
            TransportError::NoData => String::from_str("No data"),
        }
    }
}

} // verus!
