//! Framing: splitting a payload into checksummed chunks (≤ 2 KB each) and
//! reassembling them with full validation.
use vstd::prelude::*;
use vstd::string::*;
use crate::error::{TransportError, TransportErrorView, tview};
use crate::util::{lemma_from_le16_encode, lemma_from_le32_encode, bytes_to_vec, copy_range, decimal, u64_to_decimal, slice_swap, extend_bytes, from_le16, from_le32, le16, le32, lemma_le16_roundtrip, lemma_le32_roundtrip, push_le16, push_le32};

verus! {

/// Upper bound for the size of one serialized frame.
pub const MAX_CHUNK_SIZE: usize = 2048;

/// Size of the frame header: type (1), sequence (2), total (2), checksum (4).
pub const FRAME_HEADER_LEN: usize = 9;

/// Position of a frame inside a chunked payload.
#[derive(Debug, Clone, Copy, PartialEq, Eq, Structural)]
pub enum FrameType {
    First,
    Continuation,
    Last,
    Single,
}

impl FrameType {
    /// The wire byte of a frame type.
    pub open spec fn spec_byte(self) -> u8 {
        match self {
            FrameType::First => 1,
            FrameType::Continuation => 2,
            FrameType::Last => 3,
            FrameType::Single => 4,
        }
    }

    /// The frame type a wire byte stands for, if any.
    pub open spec fn spec_from_byte(b: u8) -> Option<FrameType> {
        if b == 1 {
            Some(FrameType::First)
        } else if b == 2 {
            Some(FrameType::Continuation)
        } else if b == 3 {
            Some(FrameType::Last)
        } else if b == 4 {
            Some(FrameType::Single)
        } else {
            None
        }
    }

    /// The variant's name, as `{:?}` prints it.
    pub open spec fn spec_name(self) -> Seq<char> {
        match self {
            FrameType::First => "First"@,
            FrameType::Continuation => "Continuation"@,
            FrameType::Last => "Last"@,
            FrameType::Single => "Single"@,
        }
    }

    /// The wire byte of this frame type.
    pub fn to_u8(self) -> (b: u8)
        ensures
            b == self.spec_byte(),
    {
        match self {
            FrameType::First => 1,
            FrameType::Continuation => 2,
            FrameType::Last => 3,
            FrameType::Single => 4,
        }
    }

    /// Parses a wire byte; any byte other than 1..=4 is rejected.
    pub fn from_u8(byte: u8) -> (r: Result<Self, TransportError>)
        ensures
            match Self::spec_from_byte(byte) {
                Some(t) => r matches Ok(u) && u == t,
                None => r matches Err(TransportError::InvalidFrameType(b)) && b == byte,
            },
    {
        if byte == 1 {
            Ok(FrameType::First)
        } else if byte == 2 {
            Ok(FrameType::Continuation)
        } else if byte == 3 {
            Ok(FrameType::Last)
        } else if byte == 4 {
            Ok(FrameType::Single)
        } else {
            Err(TransportError::InvalidFrameType(byte))
        }
    }

    /// A frame that opens a payload: `First` or `Single`.
    pub fn is_first(&self) -> (b: bool)
        ensures
            b <==> (*self == FrameType::First || *self == FrameType::Single),
    {
        match self {
            FrameType::First | FrameType::Single => true,
            _ => false,
        }
    }

    /// A frame that closes a payload: `Last` or `Single`.
    pub fn is_last(&self) -> (b: bool)
        ensures
            b <==> (*self == FrameType::Last || *self == FrameType::Single),
    {
        match self {
            FrameType::Last | FrameType::Single => true,
            _ => false,
        }
    }

    /// The variant's name, as `{:?}` prints it.
    pub fn name(&self) -> (s: &'static str)
        ensures
            s@ == self.spec_name(),
    {
        proof {
            reveal_strlit("First");
            reveal_strlit("Continuation");
            reveal_strlit("Last");
            reveal_strlit("Single");
        }
        match self {
            FrameType::First => "First",
            FrameType::Continuation => "Continuation",
            FrameType::Last => "Last",
            FrameType::Single => "Single",
        }
    }
}

/// One chunk of a payload with its header fields.
#[derive(Debug, Clone)]
pub struct Frame {
    pub frame_type: FrameType,
    pub sequence: u16,
    pub total_chunks: u16,
    pub payload: Vec<u8>,
    pub checksum: u32,
}

/// A [`Frame`] with its payload seen as a byte sequence.
pub struct FrameView {
    pub frame_type: FrameType,
    pub sequence: u16,
    pub total_chunks: u16,
    pub payload: Seq<u8>,
    pub checksum: u32,
}

impl View for Frame {
    type V = FrameView;

    open spec fn view(&self) -> FrameView {
        FrameView {
            frame_type: self.frame_type,
            sequence: self.sequence,
            total_chunks: self.total_chunks,
            payload: self.payload@,
            checksum: self.checksum,
        }
    }
}

// ---------------------------------------------------------------------------
// CRC-32 (IEEE 802.3, reflected, polynomial 0xEDB88320)
// ---------------------------------------------------------------------------

/// One shift of the reflected CRC-32 register.
pub open spec fn crc_shift(c: u32) -> u32 {
    if c & 1 != 0 {
        (c >> 1) ^ 0xEDB88320u32
    } else {
        c >> 1
    }
}

/// `k` shifts of the register.
pub open spec fn crc_shifts(c: u32, k: nat) -> u32
    decreases k,
{
    if k == 0 {
        c
    } else {
        crc_shift(crc_shifts(c, (k - 1) as nat))
    }
}

/// The register after absorbing all bytes of `data`, starting from all ones.
pub open spec fn crc_register(data: Seq<u8>) -> u32
    decreases data.len(),
{
    if data.len() == 0 {
        0xFFFF_FFFFu32
    } else {
        crc_shifts(crc_register(data.drop_last()) ^ (data.last() as u32), 8)
    }
}

/// CRC-32 of `data`: the final register, inverted.
pub open spec fn spec_crc32(data: Seq<u8>) -> u32 {
    !crc_register(data)
}

// ---------------------------------------------------------------------------
// CRC-32 as a bit-serial shift register
// ---------------------------------------------------------------------------

/// Bit `i` of the message `data`, bytes in order and each byte's bits from
/// the least significant up: the order in which the reflected CRC-32 reads
/// them.
pub open spec fn message_bit(data: Seq<u8>, i: nat) -> bool {
    ((data[(i / 8) as int] as u32 >> ((i % 8) as u32)) & 1u32) == 1u32
}

/// The CRC-32 shift register after the first `n` message bits: it starts
/// at all ones; each bit is compared with the register's lowest bit, the
/// register moves one place down, and where the two bits differ the
/// reflected generator polynomial 0xEDB88320 is added (XOR).
pub open spec fn crc_lfsr(data: Seq<u8>, n: nat) -> u32
    decreases n,
{
    if n == 0 {
        0xFFFF_FFFFu32
    } else {
        let r = crc_lfsr(data, (n - 1) as nat);
        if ((r & 1u32) == 1u32) != message_bit(data, (n - 1) as nat) {
            (r >> 1u32) ^ 0xEDB88320u32
        } else {
            r >> 1u32
        }
    }
}

/// The IEEE CRC-32 of `data` defined bit by bit: the register after every
/// bit of the message, inverted.
pub open spec fn crc32_bitwise(data: Seq<u8>) -> u32 {
    !crc_lfsr(data, 8 * data.len())
}

/// The shift register reads only the bits it has been fed.
proof fn lemma_lfsr_prefix(data: Seq<u8>, j: nat)
    requires
        data.len() > 0,
        j <= 8 * (data.len() - 1),
    ensures
        crc_lfsr(data, j) == crc_lfsr(data.drop_last(), j),
    decreases j,
{
    if j > 0 {
        lemma_lfsr_prefix(data, (j - 1) as nat);
        let k = ((j - 1) as nat / 8) as int;
        assert(k < data.len() - 1);
        assert(data.drop_last()[k] == data[k]);
    }
}

/// Feeding a byte one bit at a time, or XOR-ing it in whole and shifting
/// eight times, differ only by the bits of the byte not yet fed.
proof fn lemma_lfsr_byte(data: Seq<u8>, t: nat)
    requires
        data.len() > 0,
        t <= 8,
    ensures
        crc_lfsr(data, (8 * (data.len() - 1) + t) as nat) ^ ((data.last() as u32) >> (t as u32)) == crc_shifts(
            crc_lfsr(data, 8 * (data.len() - 1) as nat) ^ (data.last() as u32),
            t,
        ),
    decreases t,
{
    let b = data.last() as u32;
    let base = (8 * (data.len() - 1)) as nat;
    if t == 0 {
        assert(b >> 0u32 == b) by (bit_vector);
    } else {
        let tt = (t - 1) as nat;
        lemma_lfsr_byte(data, tt);
        let j = base + tt;
        assert(j / 8 == data.len() - 1);
        assert(j % 8 == tt);
        let c = crc_lfsr(data, j);
        let t32 = tt as u32;
        assert(crc_lfsr(data, j + 1) == (if ((c & 1u32) == 1u32) != (((b >> t32) & 1u32) == 1u32) {
            (c >> 1u32) ^ 0xEDB88320u32
        } else {
            c >> 1u32
        }));
        assert(((if ((c & 1u32) == 1u32) != (((b >> t32) & 1u32) == 1u32) {
            (c >> 1u32) ^ 0xEDB88320u32
        } else {
            c >> 1u32
        }) ^ (b >> ((t32 + 1) as u32))) == (if (c ^ (b >> t32)) & 1 != 0 {
            ((c ^ (b >> t32)) >> 1) ^ 0xEDB88320u32
        } else {
            (c ^ (b >> t32)) >> 1
        })) by (bit_vector)
            requires
                b < 256,
                t32 < 8;
        assert((t32 + 1) as u32 == t as u32);
    }
}

/// The CRC-32 that frames carry is the IEEE CRC-32 defined bit by bit:
/// the register absorbs every bit of every byte, the high bits included,
/// under the generator polynomial 0xEDB88320, from all ones, inverted at
/// the end.
pub proof fn lemma_crc32_is_bitwise(data: Seq<u8>)
    ensures
        spec_crc32(data) == crc32_bitwise(data),
        crc_register(data) == crc_lfsr(data, 8 * data.len()),
    decreases data.len(),
{
    if data.len() > 0 {
        let d = data.drop_last();
        let base = (8 * d.len()) as nat;
        lemma_crc32_is_bitwise(d);
        lemma_lfsr_prefix(data, base);
        lemma_lfsr_byte(data, 8);
        let b = data.last() as u32;
        assert(b >> 8u32 == 0) by (bit_vector)
            requires b < 256;
        assert(base == (8 * (data.len() - 1)) as nat);
        assert(((8 * (data.len() - 1) + 8) as nat) == 8 * data.len());
        let r = crc_lfsr(data, 8 * data.len());
        assert(r ^ (b >> 8u32) == crc_shifts(crc_lfsr(data, base) ^ b, 8));
        assert(r ^ 0u32 == r) by (bit_vector);
        assert(crc_register(data) == crc_shifts(crc_register(d) ^ b, 8));
    } else {
        assert(crc_register(data) == crc_lfsr(data, 0));
    }
}

/// CRC-32 (IEEE) of `data`.
pub fn crc32(data: &[u8]) -> (r: u32)
    ensures
        r == spec_crc32(data@),
{
    let mut crc: u32 = 0xFFFF_FFFF;
    let mut i: usize = 0;
    while i < data.len()
        invariant
            0 <= i <= data@.len(),
            crc == crc_register(data@.subrange(0, i as int)),
        decreases data@.len() - i,
    {
        let ghost before = data@.subrange(0, i as int);
        crc = crc ^ (data[i] as u32);
        let ghost start = crc;
        let mut k: usize = 0;
        while k < 8
            invariant
                0 <= k <= 8,
                crc == crc_shifts(start, k as nat),
            decreases 8 - k,
        {
            crc = if crc & 1 != 0 {
                (crc >> 1) ^ 0xEDB88320u32
            } else {
                crc >> 1
            };
            k = k + 1;
        }
        i = i + 1;
        proof {
            let now = data@.subrange(0, i as int);
            assert(now.drop_last() == before);
            assert(now.last() == data@[i - 1]);
        }
    }
    assert(data@.subrange(0, data@.len() as int) == data@);
    !crc
}

// ---------------------------------------------------------------------------
// Frame encoding
// ---------------------------------------------------------------------------

/// Wire form of a frame: type, sequence, total, checksum (LE), payload.
pub open spec fn frame_encoding(f: FrameView) -> Seq<u8> {
    seq![f.frame_type.spec_byte()] + le16(f.sequence) + le16(f.total_chunks) + le32(f.checksum)
        + f.payload
}

/// What [`Frame::from_bytes`] yields for `data`.
pub open spec fn spec_frame_from_bytes(data: Seq<u8>) -> Result<FrameView, TransportErrorView> {
    if data.len() < 9 {
        Err(TransportErrorView::InvalidFrame("Frame too short"@))
    } else {
        match FrameType::spec_from_byte(data[0]) {
            None => Err(TransportErrorView::InvalidFrameType(data[0])),
            Some(t) => {
                let payload = data.subrange(9, data.len() as int);
                let checksum = from_le32(data[5], data[6], data[7], data[8]);
                let computed = spec_crc32(payload);
                if computed != checksum {
                    Err(TransportErrorView::ChecksumMismatch { expected: checksum, computed })
                } else {
                    Ok(
                        FrameView {
                            frame_type: t,
                            sequence: from_le16(data[1], data[2]),
                            total_chunks: from_le16(data[3], data[4]),
                            payload,
                            checksum,
                        },
                    )
                }
            },
        }
    }
}

impl Frame {
    /// Serializes the frame into its wire form.
    pub fn to_bytes(&self) -> (r: Vec<u8>)
        ensures
            r@ == frame_encoding(self@),
    {
        let mut buf: Vec<u8> = Vec::with_capacity(9);
        buf.push(self.frame_type.to_u8());
        push_le16(&mut buf, self.sequence);
        push_le16(&mut buf, self.total_chunks);
        push_le32(&mut buf, self.checksum);
        extend_bytes(&mut buf, self.payload.as_slice());
        buf
    }

    /// Parses a frame and checks its CRC-32.
    pub fn from_bytes(data: &[u8]) -> (r: Result<Self, TransportError>)
        ensures
            tview(r) == spec_frame_from_bytes(data@),
    {
        if data.len() < 9 {
            return Err(TransportError::InvalidFrame(String::from_str("Frame too short")));
        }
        let frame_type = match FrameType::from_u8(data[0]) {
            Ok(t) => t,
            Err(e) => return Err(e),
        };
        let sequence = data[1] as u16 + 256 * (data[2] as u16);
        let total_chunks = data[3] as u16 + 256 * (data[4] as u16);
        let checksum = data[5] as u32 + 256 * (data[6] as u32) + 65536 * (data[7] as u32)
            + 16777216 * (data[8] as u32);
        let payload = copy_range(data, 9, data.len());
        let computed = crc32(payload.as_slice());
        if computed != checksum {
            return Err(TransportError::ChecksumMismatch { expected: checksum, computed });
        }
        Ok(Frame { frame_type, sequence, total_chunks, payload, checksum })
    }
}

/// Decoding the wire form of a frame whose checksum matches its payload
/// gives the frame back.
#[verifier::rlimit(50)]
pub proof fn lemma_frame_roundtrip(f: FrameView)
    requires
        f.checksum == spec_crc32(f.payload),
    ensures
        spec_frame_from_bytes(frame_encoding(f)) == Ok::<FrameView, TransportErrorView>(f),
{
    let e = frame_encoding(f);
    lemma_le16_roundtrip(f.sequence);
    lemma_le16_roundtrip(f.total_chunks);
    lemma_le32_roundtrip(f.checksum);
    assert(e.subrange(9, e.len() as int) == f.payload);
    assert(e[0] == f.frame_type.spec_byte());
    assert(e[1] == le16(f.sequence)[0] && e[2] == le16(f.sequence)[1]);
    assert(e[3] == le16(f.total_chunks)[0] && e[4] == le16(f.total_chunks)[1]);
    assert(e[5] == le32(f.checksum)[0] && e[6] == le32(f.checksum)[1]);
    assert(e[7] == le32(f.checksum)[2] && e[8] == le32(f.checksum)[3]);
}

/// A frame that parses from `data` encodes back to `data`: parsing loses
/// nothing.
pub proof fn lemma_frame_from_bytes_encodes(data: Seq<u8>)
    requires
        spec_frame_from_bytes(data) is Ok,
    ensures
        frame_encoding(spec_frame_from_bytes(data)->Ok_0) == data,
{
    let f = spec_frame_from_bytes(data)->Ok_0;
    lemma_from_le16_encode(data[1], data[2]);
    lemma_from_le16_encode(data[3], data[4]);
    lemma_from_le32_encode(data[5], data[6], data[7], data[8]);
    assert(f.frame_type.spec_byte() == data[0]);
    assert(frame_encoding(f) =~= data);
}

/// The wire bytes of the frame types: `First` is 0x01, `Continuation`
/// 0x02, `Last` 0x03 and `Single` 0x04; exactly these bytes name a frame
/// type, and each reads back as its type.
pub proof fn lemma_frame_type_bytes(t: FrameType, b: u8)
    ensures
        FrameType::First.spec_byte() == 1,
        FrameType::Continuation.spec_byte() == 2,
        FrameType::Last.spec_byte() == 3,
        FrameType::Single.spec_byte() == 4,
        FrameType::spec_from_byte(b) is Some <==> 1 <= b <= 4,
        FrameType::spec_from_byte(t.spec_byte()) == Some(t),
        FrameType::spec_from_byte(b) matches Some(u) ==> u.spec_byte() == b,
{
}

/// The frames of a chunked payload start with the type bytes the wire
/// format fixes: one frame of type 0x04 (`Single`) where the payload fits
/// one frame, else 0x01 (`First`), then 0x02 (`Continuation`) for each
/// middle frame and 0x03 (`Last`) at the end.
pub proof fn lemma_chunk_type_bytes(data: Seq<u8>, limit: nat)
    requires
        data.len() <= limit || (limit > 0 && chunk_count(data.len(), limit) <= 65535),
    ensures
        data.len() <= limit ==> spec_chunk(data, limit).len() == 1 && frame_encoding(spec_chunk(data, limit)[0])[0] == 4,
        data.len() > limit ==> {
            let fs = spec_chunk(data, limit);
            &&& fs.len() >= 2
            &&& frame_encoding(fs[0])[0] == 1
            &&& frame_encoding(fs[fs.len() - 1])[0] == 3
            &&& forall|k: int| 0 < k < fs.len() - 1 ==> frame_encoding(#[trigger] fs[k])[0] == 2
        },
{
    if data.len() > limit {
        let total = chunk_count(data.len(), limit);
        assert(total >= 2) by (nonlinear_arith)
            requires total == (data.len() + limit - 1) / (limit as int), data.len() > limit, limit > 0;
    }
}

/// The frames' views, in order.
pub open spec fn views(s: Seq<Frame>) -> Seq<FrameView> {
    s.map_values(|f: Frame| f@)
}

// ---------------------------------------------------------------------------
// Chunking
// ---------------------------------------------------------------------------

/// A splitter of payloads into frames of at most `max_chunk_size` bytes.
pub struct Chunker {
    max_chunk_size: usize,
}

impl Chunker {
    #[verifier::type_invariant]
    spec fn bounded(self) -> bool {
        self.max_chunk_size <= MAX_CHUNK_SIZE
    }
}

/// Frame `i` of `total` when `data` is cut into pieces of `limit` bytes.
pub open spec fn chunk_frame(data: Seq<u8>, limit: nat, total: nat, i: nat) -> FrameView {
    let start = i * limit;
    let end = if (i + 1) * limit <= data.len() { (i + 1) * limit } else { data.len() as nat };
    let payload = data.subrange(start as int, end as int);
    FrameView {
        frame_type: if i == 0 {
            FrameType::First
        } else if i == total - 1 {
            FrameType::Last
        } else {
            FrameType::Continuation
        },
        sequence: (i % 65536) as u16,
        total_chunks: (if total <= 65535 { total } else { 65535 }) as u16,
        payload,
        checksum: spec_crc32(payload),
    }
}

/// Number of pieces of `limit` bytes needed for `n` bytes (more than `limit`).
pub open spec fn chunk_count(n: nat, limit: nat) -> nat {
    ((n + limit - 1) / (limit as int)) as nat
}

/// The frames [`Chunker::chunk`] produces for `data` with payload limit `limit`.
pub open spec fn spec_chunk(data: Seq<u8>, limit: nat) -> Seq<FrameView> {
    if data.len() <= limit {
        seq![
            FrameView {
                frame_type: FrameType::Single,
                sequence: 0,
                total_chunks: 1,
                payload: data,
                checksum: spec_crc32(data),
            },
        ]
    } else {
        let total = chunk_count(data.len(), limit);
        Seq::new(total, |i: int| chunk_frame(data, limit, total, i as nat))
    }
}

impl Chunker {
    /// The configured frame size bound.
    pub closed spec fn max_chunk(&self) -> nat {
        self.max_chunk_size as nat
    }

    /// The payload bytes one frame can carry: the frame size minus the header.
    pub open spec fn payload_limit(&self) -> nat {
        if self.max_chunk() >= 9 { (self.max_chunk() - 9) as nat } else { 0 }
    }

    /// A chunker whose frames hold at most `min(max_chunk_size, 2048)` bytes.
    pub fn new(max_chunk_size: usize) -> (c: Self)
        ensures
            c.max_chunk() == if max_chunk_size <= MAX_CHUNK_SIZE { max_chunk_size } else { MAX_CHUNK_SIZE },
    {
        let m = if max_chunk_size <= MAX_CHUNK_SIZE { max_chunk_size } else { MAX_CHUNK_SIZE };
        Chunker { max_chunk_size: m }
    }

    /// The default chunker: frames of at most 2048 bytes.
    pub fn default() -> (c: Self)
        ensures
            c.max_chunk() == MAX_CHUNK_SIZE,
    {
        Self::new(MAX_CHUNK_SIZE)
    }

    /// Splits `data` into frames. Data that fits into one frame yields a
    /// single `Single` frame; otherwise `First`, `Continuation`*, `Last`.
    pub fn chunk(&self, data: &[u8]) -> (r: Vec<Frame>)
        requires
            data@.len() <= self.payload_limit() || self.payload_limit() > 0,
            data@.len() <= usize::MAX - MAX_CHUNK_SIZE,
        ensures
            views(r@) == spec_chunk(data@, self.payload_limit()),
    {
        proof {
            use_type_invariant(self);
        }
        let limit: usize = if self.max_chunk_size >= 9 { self.max_chunk_size - 9 } else { 0 };
        assert(limit == self.payload_limit());
        let n = data.len();
        if n <= limit {
            let payload = bytes_to_vec(data);
            let checksum = crc32(data);
            let mut v: Vec<Frame> = Vec::new();
            v.push(Frame { frame_type: FrameType::Single, sequence: 0, total_chunks: 1, payload, checksum });
            assert(views(v@) =~= spec_chunk(data@, limit as nat));
            return v;
        }
        let total: usize = (n + limit - 1) / limit;
        let total_u16: u16 = if total <= 65535 { total as u16 } else { 65535 };
        let ghost spec = spec_chunk(data@, limit as nat);
        let mut frames: Vec<Frame> = Vec::new();
        let mut i: usize = 0;
        let mut pos: usize = 0;
        while i < total
            invariant
                n == data@.len(),
                0 < limit,
                n > limit,
                n <= usize::MAX - MAX_CHUNK_SIZE,
                limit <= MAX_CHUNK_SIZE,
                total == chunk_count(n as nat, limit as nat),
                total_u16 == (if total <= 65535 { total } else { 65535 }),
                spec == spec_chunk(data@, limit as nat),
                spec.len() == total,
                pos == i * limit,
                i <= total,
                views(frames@) =~= spec.subrange(0, i as int),
            decreases total - i,
        {
            proof {
                assert(i * limit < n) by (nonlinear_arith)
                    requires i < total, total == (n + limit - 1) / (limit as int), limit > 0;
                assert((i + 1) * limit == i * limit + limit) by (nonlinear_arith);
            }
            let end = if pos + limit <= n { pos + limit } else { n };
            let payload = copy_range(data, pos, end);
            let checksum = crc32(payload.as_slice());
            let frame_type = if i == 0 {
                FrameType::First
            } else if i == total - 1 {
                FrameType::Last
            } else {
                FrameType::Continuation
            };
            let f = Frame { frame_type, sequence: (i % 65536) as u16, total_chunks: total_u16, payload, checksum };
            proof {
                assert(f@ == chunk_frame(data@, limit as nat, total as nat, i as nat));
                assert(spec[i as int] == chunk_frame(data@, limit as nat, total as nat, i as nat));
            }
            let ghost prev = frames@;
            frames.push(f);
            i = i + 1;
            pos = pos + limit;
            proof {
                assert(frames@ == prev.push(f));
                assert(views(frames@) =~= views(prev).push(f@));
                assert(spec.subrange(0, i as int) =~= spec.subrange(0, i - 1).push(spec[i - 1]));
                assert(views(frames@) =~= spec.subrange(0, i as int));
            }
        }
        proof {
            assert(spec.subrange(0, total as int) =~= spec);
        }
        frames
    }
}

// ---------------------------------------------------------------------------
// Reassembly
// ---------------------------------------------------------------------------

/// Inserts `x` into `s` behind every element whose sequence is not larger:
/// the insertion step of a stable sort by sequence number.
pub open spec fn insert_by_sequence(s: Seq<FrameView>, x: FrameView) -> Seq<FrameView>
    decreases s.len(),
{
    if s.len() == 0 || s.last().sequence <= x.sequence {
        s.push(x)
    } else {
        insert_by_sequence(s.drop_last(), x).push(s.last())
    }
}

/// Stable sort by sequence number (frames with equal sequence keep their order).
pub open spec fn sort_by_sequence(s: Seq<FrameView>) -> Seq<FrameView>
    decreases s.len(),
{
    if s.len() == 0 {
        s
    } else {
        insert_by_sequence(sort_by_sequence(s.drop_last()), s.last())
    }
}

/// The frame type expected at position `i` of `total` frames.
pub open spec fn expected_type(total: u16, i: int) -> FrameType {
    if total == 1 {
        FrameType::Single
    } else if i == 0 {
        FrameType::First
    } else if i == total - 1 {
        FrameType::Last
    } else {
        FrameType::Continuation
    }
}

/// The complaint about frame `i` of the sorted frames, if any.
pub open spec fn frame_fault(s: Seq<FrameView>, total: u16, i: int) -> Option<TransportErrorView> {
    let f = s[i];
    if f.total_chunks != total {
        Some(TransportErrorView::InvalidFrame("Inconsistent total_chunks across frames"@))
    } else if f.sequence != i {
        Some(TransportErrorView::InvalidFrame("Duplicate or missing chunk at sequence "@ + decimal(i as nat)))
    } else if f.frame_type != expected_type(total, i) {
        Some(
            TransportErrorView::InvalidFrame(
                "Unexpected frame type "@ + f.frame_type.spec_name() + " at sequence "@ + decimal(
                    i as nat,
                ) + " (expected "@ + expected_type(total, i).spec_name() + ")"@,
            ),
        )
    } else {
        None
    }
}

/// The first complaint about frames `i..` of the sorted frames, if any.
pub open spec fn first_fault(s: Seq<FrameView>, total: u16, i: int) -> Option<TransportErrorView>
    decreases s.len() - i,
{
    if i < 0 || i >= s.len() {
        None
    } else {
        match frame_fault(s, total, i) {
            Some(e) => Some(e),
            None => first_fault(s, total, i + 1),
        }
    }
}

/// The payloads of `s`, concatenated in order.
pub open spec fn concat_payloads(s: Seq<FrameView>) -> Seq<u8>
    decreases s.len(),
{
    if s.len() == 0 {
        Seq::empty()
    } else {
        concat_payloads(s.drop_last()) + s.last().payload
    }
}

/// What [`Chunker::reassemble`] yields for frames already sorted by sequence.
pub open spec fn spec_reassemble(s: Seq<FrameView>) -> Result<Seq<u8>, TransportErrorView> {
    if s.len() == 0 {
        Err(TransportErrorView::InvalidFrame("No frames"@))
    } else if s[0].total_chunks == 0 {
        Err(TransportErrorView::InvalidFrame("total_chunks is zero"@))
    } else if s.len() != s[0].total_chunks {
        Err(
            TransportErrorView::InvalidFrame(
                "Expected "@ + decimal(s[0].total_chunks as nat) + " chunks, got "@ + decimal(
                    s.len(),
                ),
            ),
        )
    } else {
        match first_fault(s, s[0].total_chunks, 0) {
            Some(e) => Err(e),
            None => Ok(concat_payloads(s)),
        }
    }
}

proof fn lemma_insert_past_larger(p: Seq<FrameView>, t: Seq<FrameView>, x: FrameView)
    requires
        forall|k: int| 0 <= k < t.len() ==> #[trigger] t[k].sequence > x.sequence,
    ensures
        insert_by_sequence(p + t, x) == insert_by_sequence(p, x) + t,
    decreases t.len(),
{
    if t.len() == 0 {
        assert(p + t =~= p);
        assert(insert_by_sequence(p, x) + t =~= insert_by_sequence(p, x));
    } else {
        let pt = p + t;
        assert(pt.last() == t.last());
        assert(pt.drop_last() =~= p + t.drop_last());
        lemma_insert_past_larger(p, t.drop_last(), x);
        assert(insert_by_sequence(p, x) + t =~= (insert_by_sequence(p, x) + t.drop_last()).push(
            t.last(),
        ));
    }
}

impl Chunker {
    /// Reassembles frames into the payload they carry. The frames are first
    /// sorted by sequence number (stably, in place); then `total_chunks` must
    /// be non-zero and agree across all frames, there must be exactly one
    /// frame per sequence number `0..total`, and the frame types must read
    /// `Single`, or `First`, `Continuation`*, `Last`.
    pub fn reassemble(frames: &mut [Frame]) -> (r: Result<Vec<u8>, TransportError>)
        ensures
            views(final(frames)@) == sort_by_sequence(views(old(frames)@)),
            tview(r) == spec_reassemble(views(final(frames)@)),
    {
        if frames.len() == 0 {
            assert(views(frames@) =~= sort_by_sequence(views(frames@)));
            return Err(TransportError::InvalidFrame(String::from_str("No frames")));
        }
        sort_frames(frames);
        let total = frames[0].total_chunks;
        if total == 0 {
            return Err(TransportError::InvalidFrame(String::from_str("total_chunks is zero")));
        }
        if frames.len() != total as usize {
            let mut m = String::from_str("Expected ");
            m.append(u64_to_decimal(total as u64).as_str());
            m.append(" chunks, got ");
            m.append(u64_to_decimal(frames.len() as u64).as_str());
            return Err(TransportError::InvalidFrame(m));
        }
        let ghost s = views(frames@);
        let mut i: usize = 0;
        while i < frames.len()
            invariant
                s == views(frames@),
                s == sort_by_sequence(views(old(frames)@)),
                s.len() == total,
                total > 0,
                s[0].total_chunks == total,
                0 <= i <= s.len(),
                first_fault(s, total, 0) == first_fault(s, total, i as int),
            decreases s.len() - i,
        {
            let f = &frames[i];
            assert(s[i as int] == f@);
            if f.total_chunks != total {
                return Err(
                    TransportError::InvalidFrame(
                        String::from_str("Inconsistent total_chunks across frames"),
                    ),
                );
            }
            if f.sequence as usize != i {
                let mut m = String::from_str("Duplicate or missing chunk at sequence ");
                m.append(u64_to_decimal(i as u64).as_str());
                return Err(TransportError::InvalidFrame(m));
            }
            let expected = if total == 1 {
                FrameType::Single
            } else if i == 0 {
                FrameType::First
            } else if i == total as usize - 1 {
                FrameType::Last
            } else {
                FrameType::Continuation
            };
            assert(expected == expected_type(total, i as int));
            if f.frame_type != expected {
                let mut m = String::from_str("Unexpected frame type ");
                m.append(f.frame_type.name());
                m.append(" at sequence ");
                m.append(u64_to_decimal(i as u64).as_str());
                m.append(" (expected ");
                m.append(expected.name());
                m.append(")");
                return Err(TransportError::InvalidFrame(m));
            }
            i = i + 1;
        }
        let mut out: Vec<u8> = Vec::new();
        let mut k: usize = 0;
        while k < frames.len()
            invariant
                s == views(frames@),
                0 <= k <= s.len(),
                out@ == concat_payloads(s.subrange(0, k as int)),
            decreases s.len() - k,
        {
            extend_bytes(&mut out, frames[k].payload.as_slice());
            k = k + 1;
            assert(s.subrange(0, k as int).drop_last() =~= s.subrange(0, k - 1));
        }
        assert(s.subrange(0, s.len() as int) =~= s);
        Ok(out)
    }
}

/// Sorts frames stably by sequence number (insertion sort).
fn sort_frames(frames: &mut [Frame])
    ensures
        views(final(frames)@) == sort_by_sequence(views(old(frames)@)),
{
    let n = frames.len();
    let ghost orig = views(frames@);
    if n == 0 {
        assert(orig =~= sort_by_sequence(orig));
        return;
    }
    let mut i: usize = 1;
    proof {
        assert(orig.subrange(0, 1).drop_last() =~= Seq::<FrameView>::empty());
        assert(sort_by_sequence(Seq::<FrameView>::empty()) == Seq::<FrameView>::empty());
        assert(sort_by_sequence(orig.subrange(0, 1)) == insert_by_sequence(Seq::<FrameView>::empty(), orig[0]));
        assert(insert_by_sequence(Seq::<FrameView>::empty(), orig[0]) == Seq::<FrameView>::empty().push(orig[0]));
        assert(views(frames@).subrange(0, 1) =~= sort_by_sequence(orig.subrange(0, 1)));
    }
    while i < n
        invariant
            n == frames@.len(),
            orig.len() == n,
            1 <= i <= n,
            views(frames@).subrange(0, i as int) == sort_by_sequence(orig.subrange(0, i as int)),
            views(frames@).subrange(i as int, n as int) == orig.subrange(i as int, n as int),
        decreases n - i,
    {
        let ghost sorted = sort_by_sequence(orig.subrange(0, i as int));
        let ghost x = orig[i as int];
        proof {
            assert(views(frames@)[i as int] == views(frames@).subrange(i as int, n as int)[0]);
            assert(views(frames@).subrange(i + 1, n as int) =~= views(frames@).subrange(i as int, n as int).subrange(1, n - i));
            assert(orig.subrange(i + 1, n as int) =~= orig.subrange(i as int, n as int).subrange(1, n - i));
            assert(views(frames@).subrange(0, i + 1) =~= views(frames@).subrange(0, i as int).push(x));
            assert(sorted.subrange(0, i as int) =~= sorted);
            assert(sorted.subrange(i as int, i as int) =~= Seq::<FrameView>::empty());
        }
        let mut j: usize = i;
        while j > 0 && frames[j - 1].sequence > frames[j].sequence
            invariant
                n == frames@.len(),
                0 <= j <= i < n,
                sorted.len() == i,
                views(frames@).subrange(0, i + 1) == sorted.subrange(0, j as int).push(x) + sorted.subrange(
                    j as int,
                    i as int,
                ),
                forall|k: int| j <= k < i ==> #[trigger] sorted[k].sequence > x.sequence,
                views(frames@).subrange(i + 1, n as int) == orig.subrange(i + 1, n as int),
            decreases j,
        {
            let ghost before = views(frames@);
            proof {
                let pre = before.subrange(0, i + 1);
                let rhs = sorted.subrange(0, j as int).push(x) + sorted.subrange(j as int, i as int);
                assert(pre[j - 1] == before[j - 1]);
                assert(pre[j as int] == before[j as int]);
                assert(rhs[j - 1] == sorted[j - 1]);
                assert(rhs[j as int] == x);
            }
            slice_swap(frames, j - 1, j);
            proof {
                let after = views(frames@);
                let target = sorted.subrange(0, j - 1).push(x) + sorted.subrange(j - 1, i as int);
                let old_rhs = sorted.subrange(0, j as int).push(x) + sorted.subrange(j as int, i as int);
                assert forall|k: int| 0 <= k < i + 1 implies #[trigger] after.subrange(0, i + 1)[k] == target[k] by {
                    assert(before.subrange(0, i + 1)[k] == old_rhs[k]);
                    if k < j - 1 {
                        assert(after[k] == before[k]);
                    } else if k == j - 1 {
                    } else if k == j {
                    } else {
                        assert(after[k] == before[k]);
                    }
                }
                assert(after =~= before.update(j - 1, x).update(j as int, sorted[j - 1]));
                assert(after.subrange(0, i + 1) =~= sorted.subrange(0, j - 1).push(x) + sorted.subrange(
                    j - 1,
                    i as int,
                ));
                assert(after.subrange(i + 1, n as int) =~= before.subrange(i + 1, n as int));
            }
            j = j - 1;
        }
        proof {
            let p = sorted.subrange(0, j as int);
            let t = sorted.subrange(j as int, i as int);
            assert(sorted =~= p + t);
            lemma_insert_past_larger(p, t, x);
            if j > 0 {
                let pre = views(frames@).subrange(0, i + 1);
                let rhs = p.push(x) + t;
                assert(pre[j - 1] == views(frames@)[j - 1]);
                assert(pre[j as int] == views(frames@)[j as int]);
                assert(rhs[j - 1] == sorted[j - 1]);
                assert(rhs[j as int] == x);
                assert(p.last() == sorted[j - 1]);
            }
            assert(insert_by_sequence(p, x) == p.push(x));
            let oi = orig.subrange(0, i + 1);
            assert(oi.drop_last() =~= orig.subrange(0, i as int));
            assert(oi.last() == x);
            assert(views(frames@).subrange(0, i + 1) =~= p.push(x) + t);
        }
        i = i + 1;
    }
    assert(views(frames@).subrange(0, n as int) =~= views(frames@));
    assert(orig.subrange(0, n as int) =~= orig);
}


// ---------------------------------------------------------------------------
// Laws
// ---------------------------------------------------------------------------

/// Every frame of [`Chunker::chunk`] carries at most `limit` payload bytes.
pub proof fn lemma_chunk_payload_bound(data: Seq<u8>, limit: nat)
    requires
        data.len() <= limit || limit > 0,
    ensures
        forall|k: int| 0 <= k < spec_chunk(data, limit).len() ==> (#[trigger] spec_chunk(data, limit)[k]).payload.len() <= limit,
{
    if data.len() > limit {
        let total = chunk_count(data.len(), limit);
        assert forall|k: int| 0 <= k < spec_chunk(data, limit).len() implies (#[trigger] spec_chunk(data, limit)[k]).payload.len() <= limit by {
            let kk = k as nat;
            assert(kk * limit <= data.len()) by (nonlinear_arith)
                requires kk < total, total == (data.len() + limit - 1) / (limit as int), limit > 0;
            assert((kk + 1) * limit == kk * limit + limit) by (nonlinear_arith);
        }
    }
}

proof fn lemma_sort_increasing(s: Seq<FrameView>)
    requires
        forall|a: int, b: int| 0 <= a < b < s.len() ==> #[trigger] s[a].sequence < #[trigger] s[b].sequence,
    ensures
        sort_by_sequence(s) == s,
    decreases s.len(),
{
    if s.len() > 0 {
        let d = s.drop_last();
        lemma_sort_increasing(d);
        if d.len() > 0 {
            assert(d.last().sequence < s.last().sequence);
        }
        assert(d.push(s.last()) =~= s);
    }
}

proof fn lemma_no_fault(s: Seq<FrameView>, total: u16, i: int)
    requires
        0 <= i <= s.len(),
        forall|k: int| i <= k < s.len() ==> #[trigger] frame_fault(s, total, k) is None,
    ensures
        first_fault(s, total, i) is None,
    decreases s.len() - i,
{
    if i < s.len() {
        lemma_no_fault(s, total, i + 1);
    }
}

#[verifier::spinoff_prover]
proof fn lemma_concat_chunks(data: Seq<u8>, limit: nat, total: nat, k: nat)
    requires
        limit > 0,
        data.len() > limit,
        total == chunk_count(data.len(), limit),
        k <= total,
    ensures
        concat_payloads(Seq::new(total, |i: int| chunk_frame(data, limit, total, i as nat)).subrange(0, k as int))
            == data.subrange(0, if k * limit <= data.len() { (k * limit) as int } else { data.len() as int }),
    decreases k,
{
    let s = Seq::new(total, |i: int| chunk_frame(data, limit, total, i as nat));
    if k == 0 {
        assert(s.subrange(0, 0) =~= Seq::<FrameView>::empty());
        assert(data.subrange(0, 0) =~= Seq::<u8>::empty());
    } else {
        lemma_concat_chunks(data, limit, total, (k - 1) as nat);
        let sk = s.subrange(0, k as int);
        assert(sk.drop_last() =~= s.subrange(0, k - 1));
        assert(sk.last() == chunk_frame(data, limit, total, (k - 1) as nat));
        assert((k - 1) * limit < data.len()) by (nonlinear_arith)
            requires k <= total, total == (data.len() + limit - 1) / (limit as int), limit > 0, k >= 1;
        assert(k * limit == (k - 1) * limit + limit) by (nonlinear_arith);
        let start = (k - 1) * limit;
        let end = if k * limit <= data.len() { k * limit } else { data.len() as nat };
        assert(data.subrange(0, start as int) + data.subrange(start as int, end as int) =~= data.subrange(0, end as int));
    }
}

/// Chunking then reassembling gives the data back: the frames of
/// [`Chunker::chunk`] are already in sequence order, pass every check of
/// [`Chunker::reassemble`], and their payloads concatenate to the input
/// (as long as the frame count fits the 16-bit header fields).
pub proof fn lemma_chunk_then_reassemble(data: Seq<u8>, limit: nat)
    requires
        data.len() <= limit || (limit > 0 && chunk_count(data.len(), limit) <= 65535),
    ensures
        sort_by_sequence(spec_chunk(data, limit)) == spec_chunk(data, limit),
        spec_reassemble(spec_chunk(data, limit)) == Ok::<Seq<u8>, TransportErrorView>(data),
{
    let s = spec_chunk(data, limit);
    if data.len() <= limit {
        lemma_sort_increasing(s);
        assert(frame_fault(s, 1, 0) is None);
        lemma_no_fault(s, 1, 0);
        assert(s.drop_last() =~= Seq::<FrameView>::empty());
        assert(concat_payloads(Seq::<FrameView>::empty()) == Seq::<u8>::empty());
        assert(concat_payloads(s) == concat_payloads(s.drop_last()) + s.last().payload);
        assert(concat_payloads(s) =~= data);
    } else {
        let total = chunk_count(data.len(), limit);
        assert(total >= 2) by (nonlinear_arith)
            requires total == (data.len() + limit - 1) / (limit as int), data.len() > limit, limit > 0;
        assert forall|a: int, b: int| 0 <= a < b < s.len() implies #[trigger] s[a].sequence < #[trigger] s[b].sequence by {
            assert(s[a].sequence == a);
            assert(s[b].sequence == b);
        }
        lemma_sort_increasing(s);
        assert(s[0].total_chunks == total);
        assert forall|k: int| 0 <= k < s.len() implies #[trigger] frame_fault(s, total as u16, k) is None by {
            assert(s[k].sequence == k);
            assert(s[k].frame_type == expected_type(total as u16, k));
        }
        lemma_no_fault(s, total as u16, 0);
        lemma_concat_chunks(data, limit, total, total);
        assert(s.subrange(0, total as int) =~= s);
        assert(total * limit >= data.len()) by (nonlinear_arith)
            requires total == (data.len() + limit - 1) / (limit as int), limit > 0;
        assert(data.subrange(0, data.len() as int) =~= data);
    }
}


/// Frames in non-decreasing sequence order.
pub open spec fn in_sequence_order(s: Seq<FrameView>) -> bool {
    forall|a: int, b: int| 0 <= a < b < s.len() ==> #[trigger] s[a].sequence <= #[trigger] s[b].sequence
}

/// Frames in strictly increasing sequence order.
pub open spec fn strictly_in_sequence(s: Seq<FrameView>) -> bool {
    forall|a: int, b: int| 0 <= a < b < s.len() ==> #[trigger] s[a].sequence < #[trigger] s[b].sequence
}

/// Inserting adds the frame and keeps the others.
proof fn lemma_insert_multiset(s: Seq<FrameView>, x: FrameView)
    ensures
        insert_by_sequence(s, x).to_multiset() == s.to_multiset().insert(x),
    decreases s.len(),
{
    broadcast use vstd::seq_lib::group_to_multiset_ensures;
    broadcast use vstd::multiset::group_multiset_axioms;
    if !(s.len() == 0 || s.last().sequence <= x.sequence) {
        let d = s.drop_last();
        lemma_insert_multiset(d, x);
        assert(d.push(s.last()) =~= s);
        assert(s.to_multiset().insert(x) =~= d.to_multiset().insert(x).insert(s.last()));
    }
}

/// Sorting keeps the frames.
pub proof fn lemma_sort_multiset(s: Seq<FrameView>)
    ensures
        sort_by_sequence(s).to_multiset() == s.to_multiset(),
    decreases s.len(),
{
    broadcast use vstd::seq_lib::group_to_multiset_ensures;
    if s.len() > 0 {
        let d = s.drop_last();
        lemma_sort_multiset(d);
        lemma_insert_multiset(sort_by_sequence(d), s.last());
        assert(d.push(s.last()) =~= s);
    }
}

/// Inserting into frames in order, all at most `bound`, a frame at most
/// `bound` keeps them in order and at most `bound`.
proof fn lemma_insert_in_order(s: Seq<FrameView>, x: FrameView, bound: u16)
    requires
        in_sequence_order(s),
        forall|k: int| 0 <= k < s.len() ==> #[trigger] s[k].sequence <= bound,
        x.sequence <= bound,
    ensures
        in_sequence_order(insert_by_sequence(s, x)),
        forall|k: int| 0 <= k < insert_by_sequence(s, x).len() ==> #[trigger] insert_by_sequence(s, x)[k].sequence <= bound,
        insert_by_sequence(s, x).len() == s.len() + 1,
    decreases s.len(),
{
    if s.len() == 0 || s.last().sequence <= x.sequence {
        let r = s.push(x);
        assert forall|a: int, b: int| 0 <= a < b < r.len() implies #[trigger] r[a].sequence <= #[trigger] r[b].sequence by {
            if b == s.len() {
                assert(r[a] == s[a]);
                assert(s[a].sequence <= s.last().sequence);
            } else {
                assert(r[a] == s[a] && r[b] == s[b]);
            }
        }
        assert forall|k: int| 0 <= k < r.len() implies #[trigger] r[k].sequence <= bound by {
            if k < s.len() {
                assert(r[k] == s[k]);
            }
        }
    } else {
        let d = s.drop_last();
        let top = s.last().sequence;
        assert forall|k: int| 0 <= k < d.len() implies #[trigger] d[k].sequence <= top by {
            assert(d[k] == s[k]);
        }
        assert forall|a: int, b: int| 0 <= a < b < d.len() implies #[trigger] d[a].sequence <= #[trigger] d[b].sequence by {
            assert(d[a] == s[a] && d[b] == s[b]);
        }
        lemma_insert_in_order(d, x, top);
        let i = insert_by_sequence(d, x);
        let r = i.push(s.last());
        assert forall|a: int, b: int| 0 <= a < b < r.len() implies #[trigger] r[a].sequence <= #[trigger] r[b].sequence by {
            assert(r[a] == i[a]);
            if b < i.len() {
                assert(r[b] == i[b]);
            }
        }
        assert forall|k: int| 0 <= k < r.len() implies #[trigger] r[k].sequence <= bound by {
            if k < i.len() {
                assert(r[k] == i[k]);
            }
        }
    }
}

/// Sorting puts the frames in sequence order.
pub proof fn lemma_sort_in_order(s: Seq<FrameView>)
    ensures
        in_sequence_order(sort_by_sequence(s)),
        sort_by_sequence(s).len() == s.len(),
    decreases s.len(),
{
    if s.len() > 0 {
        let d = s.drop_last();
        lemma_sort_in_order(d);
        lemma_insert_in_order(sort_by_sequence(d), s.last(), 65535);
    }
}

/// Frames in order that hold the same frames as frames in strictly
/// increasing order are those frames.
pub proof fn lemma_sorted_unique(q: Seq<FrameView>, c: Seq<FrameView>)
    requires
        in_sequence_order(q),
        strictly_in_sequence(c),
        q.to_multiset() == c.to_multiset(),
    ensures
        q == c,
    decreases c.len(),
{
    broadcast use vstd::seq_lib::group_to_multiset_ensures;
    broadcast use vstd::multiset::group_multiset_axioms;
    vstd::seq_lib::to_multiset_len(q);
    vstd::seq_lib::to_multiset_len(c);
    if c.len() == 0 {
        assert(q =~= c);
    } else {
        let n = c.len() - 1;
        let m = c.last();
        let ql = q.last();
        assert(q.to_multiset().count(ql) > 0);
        assert(c.contains(ql));
        let j = choose|j: int| 0 <= j < c.len() && c[j] == ql;
        assert(q.to_multiset().count(m) > 0);
        assert(q.contains(m));
        let i = choose|i: int| 0 <= i < q.len() && q[i] == m;
        if i < n {
            assert(q[i].sequence <= q[n].sequence);
        }
        if j < n {
            assert(c[j].sequence < c[n].sequence);
        }
        assert(j == n);
        assert(ql == m);
        assert(q.remove(n) =~= q.drop_last());
        assert(c.remove(n) =~= c.drop_last());
        assert(q.drop_last().to_multiset() == c.drop_last().to_multiset());
        let qd = q.drop_last();
        let cd = c.drop_last();
        assert forall|a: int, b: int| 0 <= a < b < qd.len() implies #[trigger] qd[a].sequence <= #[trigger] qd[b].sequence by {
            assert(qd[a] == q[a] && qd[b] == q[b]);
        }
        assert forall|a: int, b: int| 0 <= a < b < cd.len() implies #[trigger] cd[a].sequence < #[trigger] cd[b].sequence by {
            assert(cd[a] == c[a] && cd[b] == c[b]);
        }
        lemma_sorted_unique(qd, cd);
        assert(qd.push(ql) =~= q);
        assert(cd.push(m) =~= c);
    }
}

/// The frames of [`Chunker::chunk`] are in strictly increasing sequence
/// order while their count fits the 16-bit header fields.
proof fn lemma_chunk_strictly_in_sequence(data: Seq<u8>, limit: nat)
    requires
        data.len() <= limit || (limit > 0 && chunk_count(data.len(), limit) <= 65535),
    ensures
        strictly_in_sequence(spec_chunk(data, limit)),
{
    let s = spec_chunk(data, limit);
    if data.len() > limit {
        assert forall|a: int, b: int| 0 <= a < b < s.len() implies #[trigger] s[a].sequence < #[trigger] s[b].sequence by {
            assert(s[a].sequence == a);
            assert(s[b].sequence == b);
        }
    }
}

/// Reassembly does not depend on the order in which frames arrive: any
/// reordering of the frames of [`Chunker::chunk`] sorts back into them and
/// reassembles to the data (as long as the frame count fits the 16-bit
/// header fields).
pub proof fn lemma_reassemble_any_order(data: Seq<u8>, limit: nat, arrived: Seq<FrameView>)
    requires
        data.len() <= limit || (limit > 0 && chunk_count(data.len(), limit) <= 65535),
        arrived.to_multiset() == spec_chunk(data, limit).to_multiset(),
    ensures
        sort_by_sequence(arrived) == spec_chunk(data, limit),
        spec_reassemble(sort_by_sequence(arrived)) == Ok::<Seq<u8>, TransportErrorView>(data),
{
    lemma_sort_multiset(arrived);
    lemma_sort_in_order(arrived);
    lemma_chunk_strictly_in_sequence(data, limit);
    lemma_sorted_unique(sort_by_sequence(arrived), spec_chunk(data, limit));
    lemma_chunk_then_reassemble(data, limit);
}


/// Frames that pass every check of reassembly are in strictly increasing
/// sequence order (frame `i` has sequence number `i`).
pub proof fn lemma_no_fault_in_sequence(s: Seq<FrameView>, total: u16)
    requires
        first_fault(s, total, 0) is None,
    ensures
        strictly_in_sequence(s),
{
    lemma_first_fault_none(s, total, 0);
    assert forall|a: int, b: int| 0 <= a < b < s.len() implies #[trigger] s[a].sequence < #[trigger] s[b].sequence by {
        assert(frame_fault(s, total, a) is None);
        assert(frame_fault(s, total, b) is None);
    }
}

proof fn lemma_first_fault_none(s: Seq<FrameView>, total: u16, i: int)
    requires
        0 <= i,
        first_fault(s, total, i) is None,
    ensures
        forall|k: int| i <= k < s.len() ==> #[trigger] frame_fault(s, total, k) is None,
    decreases s.len() - i,
{
    if i < s.len() {
        lemma_first_fault_none(s, total, i + 1);
    }
}

} // verus!
