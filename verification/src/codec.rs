//! Transport codec: deflate compression → framing → dictionary encoding.
//!
//! Every frame is prefixed with its 4-byte little-endian length before it is
//! packed into 11-bit word indices, because unpacking can yield trailing
//! padding bytes; decoding truncates to that length.
use vstd::prelude::*;
use vstd::string::*;
use std::io::{Read, Write};
use crate::dictionary::{Bip39Dictionary, WordDictionary, clean_dictionary, english_list, is_clean_word, is_lower_word, lemma_bits_per_word_2048, lemma_render_shape, lemma_sentence_roundtrip, rendered_char, sentence_len, sentences, lookup_tokens, lowered, render_sentences, selected_words, sentence_tokens};
use crate::error::{TransportError, TransportErrorView, tview};
use crate::framing::{Chunker, Frame, FrameView, chunk_count, frame_encoding, lemma_chunk_payload_bound, lemma_chunk_then_reassemble, lemma_frame_roundtrip, lemma_reassemble_any_order, lemma_sort_multiset, lemma_sort_in_order, lemma_sorted_unique, lemma_no_fault_in_sequence, spec_chunk, spec_crc32, spec_frame_from_bytes, spec_reassemble, sort_by_sequence, views};
use crate::packing::{lemma_pack_below, lemma_pack_then_unpack, pack_bits, p2, spec_pack, spec_unpack, unpack_bits};
use crate::text::{all_chars, find_chars, find_from, is_trimmed_line, join_strings, join_with, lemma_join_chars, lemma_nonblank_lines_join, nonblank_lines, nonblank_lines_vec, str_chars, string_texts};
use crate::util::{copy_range, extend_bytes, from_le32, le32, lemma_le32_roundtrip, push_le32};

verus! {

/// Maximum decompressed payload size (1 MiB): deflate bombs from untrusted
/// carriers must not exhaust memory.
pub const MAX_DECOMPRESSED_SIZE: usize = 1048576;

/// Length prefix prepended to each frame before word-index packing.
pub const LEN_PREFIX: usize = 4;

/// Marker that brackets an encoded payload inside carrier text.
pub const KASSIBER_MARKER: &'static str = "<<<KASSIBER>>>";

// ---------------------------------------------------------------------------
// Compression (flate2)
// ---------------------------------------------------------------------------

/// The DEFLATE stream that `flate2` produces for `data` at the best
/// compression level.
pub uninterp spec fn deflate_best(data: Seq<u8>) -> Seq<u8>;

/// The first `limit` bytes that `flate2` decodes from the DEFLATE stream
/// `data`, or `None` where decoding fails.
pub uninterp spec fn inflate_prefix(data: Seq<u8>, limit: nat) -> Option<Seq<u8>>;

/// How a `flate2` compression run failed.
pub enum DeflateFailure {
    /// Writing the input failed, with the I/O error's debug text.
    Write(String),
    /// Finishing the stream failed, with the I/O error's debug text.
    Finish(String),
}

/// Compresses with `flate2::write::DeflateEncoder` at `Compression::best()`
/// into a `Vec`. Claims: it succeeds (the encoder's writer is a `Vec`,
/// which accepts every write, and the compressor fails only on misuse), the
/// output is the named stream [`deflate_best`], and decoding it gives the
/// input back (so a prefix of `limit` bytes decodes to the first `limit`
/// input bytes).
#[verifier::external_body]
fn deflate(data: &[u8]) -> (r: Result<Vec<u8>, DeflateFailure>)
    ensures
        r is Ok,
        r matches Ok(v) ==> {
            &&& v@ == deflate_best(data@)
            &&& v@.len() <= isize::MAX
            &&& forall|limit: nat| #[trigger] inflate_prefix(v@, limit) == Some(
                if limit <= data@.len() { data@.take(limit as int) } else { data@ },
            )
        },
{
    let mut encoder = flate2::write::DeflateEncoder::new(Vec::new(), flate2::Compression::best());
    match encoder.write_all(data) {
        Ok(()) => {},
        Err(e) => return Err(DeflateFailure::Write(format!("{:?}", e))),
    }
    encoder.finish().map_err(|e| DeflateFailure::Finish(format!("{:?}", e)))
}

/// Decodes with `flate2::read::DeflateDecoder`, reading at most `limit`
/// bytes (`Read::take`, then `read_to_end`). Claims: the result is the
/// named [`inflate_prefix`]; an error carries the I/O error's debug text.
#[verifier::external_body]
fn inflate(data: &[u8], limit: u64) -> (r: Result<Vec<u8>, String>)
    ensures
        match r {
            Ok(v) => inflate_prefix(data@, limit as nat) == Some(v@),
            Err(_) => inflate_prefix(data@, limit as nat) is None,
        },
{
    let decoder = flate2::read::DeflateDecoder::new(data);
    let mut limited = decoder.take(limit);
    let mut result = Vec::new();
    match limited.read_to_end(&mut result) {
        Ok(_) => Ok(result),
        Err(e) => Err(format!("{:?}", e)),
    }
}

/// `prefix` followed by `detail`.
fn message(prefix: &str, detail: &str) -> (s: String)
    ensures
        s@ == prefix@ + detail@,
{
    let mut s = String::from_str(prefix);
    s.append(detail);
    s
}

/// Compresses `data` (DEFLATE, best level); this always succeeds.
pub fn compress(data: &[u8]) -> (r: Result<Vec<u8>, TransportError>)
    ensures
        r is Ok,
        r matches Ok(v) ==> {
            &&& v@ == deflate_best(data@)
            &&& v@.len() <= isize::MAX
            &&& forall|limit: nat| #[trigger] inflate_prefix(v@, limit) == Some(
                if limit <= data@.len() { data@.take(limit as int) } else { data@ },
            )
        },
        r matches Err(e) ==> e@ is Compression,
{
    match deflate(data) {
        Ok(v) => Ok(v),
        Err(DeflateFailure::Write(d)) => Err(TransportError::Compression(message("Compress: ", d.as_str()))),
        Err(DeflateFailure::Finish(d)) => Err(
            TransportError::Compression(message("Compress finish: ", d.as_str())),
        ),
    }
}

/// What [`decompress`] yields for `data`, apart from the text of a decoder error.
pub open spec fn spec_decompress(data: Seq<u8>) -> Option<Result<Seq<u8>, TransportErrorView>> {
    match inflate_prefix(data, (MAX_DECOMPRESSED_SIZE + 1) as nat) {
        None => None,
        Some(v) => if v.len() > MAX_DECOMPRESSED_SIZE {
            Some(
                Err(
                    TransportErrorView::Compression(
                        "Decompressed size exceeds limit of 1048576 bytes"@,
                    ),
                ),
            )
        } else {
            Some(Ok(v))
        },
    }
}

/// Decompresses `data`, refusing more than [`MAX_DECOMPRESSED_SIZE`] bytes.
pub fn decompress(data: &[u8]) -> (r: Result<Vec<u8>, TransportError>)
    ensures
        match spec_decompress(data@) {
            Some(expected) => tview(r) == expected,
            None => r matches Err(e) && e@ is Compression,
        },
{
    let limit: u64 = MAX_DECOMPRESSED_SIZE as u64 + 1;
    match inflate(data, limit) {
        Err(d) => Err(TransportError::Compression(message("Decompress: ", d.as_str()))),
        Ok(v) => {
            if v.len() > MAX_DECOMPRESSED_SIZE {
                Err(
                    TransportError::Compression(
                        String::from_str("Decompressed size exceeds limit of 1048576 bytes"),
                    ),
                )
            } else {
                Ok(v)
            }
        },
    }
}

// ---------------------------------------------------------------------------
// Word-index packing with the dictionary's width
// ---------------------------------------------------------------------------

/// Packs bytes into word indices of the dictionary's width (11 bits).
pub fn bytes_to_word_indices(data: &[u8], dict: &Bip39Dictionary) -> (r: Result<Vec<u16>, TransportError>)
    ensures
        r matches Ok(v) && v@ == spec_pack(data@, 11),
{
    let bits = dict.bits_per_word();
    proof {
        lemma_bits_per_word_2048();
    }
    Ok(pack_bits(data, bits))
}

/// Unpacks word indices (11 bits each) into bytes; an index outside the
/// dictionary is an error.
pub fn word_indices_to_bytes(indices: &[u16], dict: &Bip39Dictionary) -> (r: Result<Vec<u8>, TransportError>)
    ensures
        tview(r) == spec_unpack(indices@, 11, 2048),
{
    let bits = dict.bits_per_word();
    proof {
        lemma_bits_per_word_2048();
        vstd::arithmetic::power2::lemma2_to64();
    }
    unpack_bits(indices, bits, dict.size())
}

// ---------------------------------------------------------------------------
// Packets
// ---------------------------------------------------------------------------

/// One encoded frame: the sentence text and the word indices behind it.
#[derive(Debug, Clone)]
pub struct EncodedPacket {
    pub sentence: String,
    pub raw_indices: Vec<u16>,
}

/// An [`EncodedPacket`] seen as text and index sequences.
pub struct PacketView {
    pub sentence: Seq<char>,
    pub raw_indices: Seq<u16>,
}

impl View for EncodedPacket {
    type V = PacketView;

    open spec fn view(&self) -> PacketView {
        PacketView { sentence: self.sentence@, raw_indices: self.raw_indices@ }
    }
}

/// The packets' views, in order.
pub open spec fn packet_views(s: Seq<EncodedPacket>) -> Seq<PacketView> {
    s.map_values(|p: EncodedPacket| p@)
}

/// The bytes packed for one frame: its length (LE u32), then the frame.
pub open spec fn packet_bytes(f: FrameView) -> Seq<u8> {
    le32(frame_encoding(f).len() as u32) + frame_encoding(f)
}

/// The packet that carries frame `f` with the dictionary `words`.
pub open spec fn spec_packet(words: Seq<Seq<char>>, f: FrameView) -> PacketView {
    let indices = spec_pack(packet_bytes(f), 11);
    PacketView { sentence: render_sentences(selected_words(words, indices)), raw_indices: indices }
}

/// The packets that carry the frames `fs`, in order.
pub open spec fn spec_packets(words: Seq<Seq<char>>, fs: Seq<FrameView>) -> Seq<PacketView> {
    fs.map_values(|f: FrameView| spec_packet(words, f))
}

/// What [`TransportCodec::decode`] makes of one sentence.
pub open spec fn spec_decode_packet(words: Seq<Seq<char>>, sentence: Seq<char>) -> Result<FrameView, TransportErrorView> {
    match lookup_tokens(lowered(words), sentence_tokens(sentence)) {
        Err(e) => Err(e),
        Ok(indices) => match spec_unpack(indices, 11, 2048) {
            Err(e) => Err(e),
            Ok(packed) => if packed.len() < 4 {
                Err(TransportErrorView::InvalidFrame("Packet shorter than length prefix"@))
            } else if packed.len() < 4 + from_le32(packed[0], packed[1], packed[2], packed[3]) {
                Err(
                    TransportErrorView::InvalidFrame(
                        "Packet truncated (declared frame length exceeds data)"@,
                    ),
                )
            } else {
                spec_frame_from_bytes(
                    packed.subrange(4, 4 + from_le32(packed[0], packed[1], packed[2], packed[3])),
                )
            },
        },
    }
}

/// The frames of all sentences, or the first failure, in order.
pub open spec fn spec_decode_frames(words: Seq<Seq<char>>, sentences: Seq<Seq<char>>) -> Result<Seq<FrameView>, TransportErrorView>
    decreases sentences.len(),
{
    if sentences.len() == 0 {
        Ok(Seq::empty())
    } else {
        match spec_decode_frames(words, sentences.drop_last()) {
            Err(e) => Err(e),
            Ok(fs) => match spec_decode_packet(words, sentences.last()) {
                Err(e) => Err(e),
                Ok(f) => Ok(fs.push(f)),
            },
        }
    }
}

/// The sentences of the packets.
pub open spec fn packet_sentences(ps: Seq<PacketView>) -> Seq<Seq<char>> {
    ps.map_values(|p: PacketView| p.sentence)
}

// ---------------------------------------------------------------------------
// The codec
// ---------------------------------------------------------------------------

/// Codec settings: frame size bound and dictionary.
#[derive(Debug, Clone)]
pub struct TransportConfig {
    pub max_chunk_size: usize,
    pub dictionary: Bip39Dictionary,
}

impl TransportConfig {
    /// Frames of 2048 bytes and the BIP-39 English dictionary.
    pub fn default() -> (c: Self)
        ensures
            c.max_chunk_size == 2048,
            c.dictionary.wf(),
            c.dictionary.word_list() == english_list(),
            carrier_dictionary(english_list()),
    {
        let dictionary = Bip39Dictionary::english();
        proof {
            lemma_lower_words_marker_free(dictionary.word_list());
        }
        TransportConfig { max_chunk_size: 2048, dictionary }
    }
}

/// Encodes payloads as dictionary sentences and decodes them back.
pub struct TransportCodec {
    config: TransportConfig,
    chunker: Chunker,
}

impl TransportCodec {
    #[verifier::type_invariant]
    spec fn inv(self) -> bool {
        &&& self.config.dictionary.wf()
        &&& self.chunker.max_chunk() == if self.config.max_chunk_size <= 2048 {
            self.config.max_chunk_size as nat
        } else {
            2048
        }
    }

    /// The dictionary's words.
    pub closed spec fn words(&self) -> Seq<Seq<char>> {
        self.config.dictionary.word_list()
    }

    /// The payload bytes per frame.
    pub closed spec fn payload_limit(&self) -> nat {
        self.chunker.payload_limit()
    }

    /// A codec with the given settings.
    pub fn new(config: TransportConfig) -> (c: Self)
        requires
            config.dictionary.wf(),
        ensures
            c.words() == config.dictionary.word_list(),
            c.payload_limit() == if config.max_chunk_size <= 2048 {
                if config.max_chunk_size >= 9 { config.max_chunk_size - 9 } else { 0 }
            } else {
                2039
            },
    {
        let chunker = Chunker::new(config.max_chunk_size);
        TransportCodec { config, chunker }
    }

    /// The default codec: 2048-byte frames, BIP-39 English.
    pub fn default() -> (c: Self)
        ensures
            c.words() == english_list(),
            c.payload_limit() == 2039,
            carrier_dictionary(c.words()),
    {
        Self::new(TransportConfig::default())
    }

    /// The packet for one frame: its length-prefixed bytes packed into word
    /// indices and rendered as sentences.
    fn encode_frame(&self, frame: &Frame) -> (p: EncodedPacket)
        requires
            frame_encoding(frame@).len() <= 2048,
        ensures
            p@ == spec_packet(self.words(), frame@),
    {
        proof {
            use_type_invariant(self);
        }
        let frame_bytes = frame.to_bytes();
        let mut buf: Vec<u8> = Vec::with_capacity(LEN_PREFIX);
        push_le32(&mut buf, frame_bytes.len() as u32);
        extend_bytes(&mut buf, frame_bytes.as_slice());
        assert(buf@ == packet_bytes(frame@));
        let bits = self.config.dictionary.bits_per_word();
        proof {
            lemma_bits_per_word_2048();
        }
        let indices = pack_bits(buf.as_slice(), bits);
        proof {
            self.config.dictionary.lemma_shape();
            vstd::arithmetic::power2::lemma2_to64();
            assert forall|k: int| 0 <= k < indices@.len() implies #[trigger] indices@[k] < 2048 by {
                crate::packing::lemma_pack_below(buf@, 11, k);
            }
        }
        let sentence = self.config.dictionary.to_natural_sentence(indices.as_slice());
        EncodedPacket { sentence, raw_indices: indices }
    }

    /// Compresses `data`, splits it into frames and renders each framed
    /// chunk (length-prefixed) as dictionary sentences.
    pub fn encode(&self, data: &[u8]) -> (r: Result<Vec<EncodedPacket>, TransportError>)
        requires
            self.payload_limit() > 0,
        ensures
            r is Ok,
            match r {
                Ok(ps) => packet_views(ps@) == spec_packets(
                    self.words(),
                    spec_chunk(deflate_best(data@), self.payload_limit()),
                ),
                Err(e) => e@ is Compression,
            },
            r is Ok ==> clean_dictionary(self.words()) && data@.len() <= MAX_DECOMPRESSED_SIZE && (
            deflate_best(data@).len() <= self.payload_limit() || chunk_count(
                deflate_best(data@).len(),
                self.payload_limit(),
            ) <= 65535) ==> spec_decode(self.words(), packet_sentences(packet_views(r->Ok_0@)))
                == Some(Ok::<Seq<u8>, TransportErrorView>(data@)),
    {
        proof {
            use_type_invariant(self);
        }
        let compressed = match compress(data) {
            Ok(c) => c,
            Err(e) => return Err(e),
        };
        let frames = self.chunker.chunk(compressed.as_slice());
        let ghost fv = views(frames@);
        proof {
            crate::framing::lemma_chunk_payload_bound(compressed@, self.payload_limit());
        }
        let mut packets: Vec<EncodedPacket> = Vec::new();
        let mut i: usize = 0;
        while i < frames.len()
            invariant
                fv == views(frames@),
                fv == spec_chunk(deflate_best(data@), self.payload_limit()),
                0 <= i <= fv.len(),
                packet_views(packets@) == spec_packets(self.words(), fv.subrange(0, i as int)),
                forall|k: int| 0 <= k < fv.len() ==> frame_encoding(#[trigger] fv[k]).len() <= 2048,
            decreases fv.len() - i,
        {
            assert(frames@[i as int]@ == fv[i as int]);
            let packet = self.encode_frame(&frames[i]);
            let ghost pv = packet@;
            let ghost before = packet_views(packets@);
            packets.push(packet);
            i = i + 1;
            proof {
                assert(packet_views(packets@) =~= before.push(pv));
                assert(fv.subrange(0, i as int) =~= fv.subrange(0, i - 1).push(fv[i - 1]));
                assert(spec_packets(self.words(), fv.subrange(0, i as int)) =~= spec_packets(
                    self.words(),
                    fv.subrange(0, i - 1),
                ).push(spec_packet(self.words(), fv[i - 1])));
            }
        }
        proof {
            assert(fv.subrange(0, fv.len() as int) =~= fv);
            self.config.dictionary.lemma_shape();
            let limit = self.payload_limit();
            if clean_dictionary(self.words()) && data@.len() <= MAX_DECOMPRESSED_SIZE && (
            deflate_best(data@).len() <= limit || chunk_count(deflate_best(data@).len(), limit)
                <= 65535) {
                assert(inflate_prefix(compressed@, (MAX_DECOMPRESSED_SIZE + 1) as nat) == Some(
                    data@,
                ));
                lemma_codec_roundtrip(self.words(), data@, limit);
            }
        }
        Ok(packets)
    }
}

/// What [`TransportCodec::decode`] yields for the packets' sentences; `None`
/// where the DEFLATE decoder fails (its error text is not stated).
pub open spec fn spec_decode(words: Seq<Seq<char>>, sentences: Seq<Seq<char>>) -> Option<Result<Seq<u8>, TransportErrorView>> {
    if sentences.len() == 0 {
        Some(Err(TransportErrorView::NoData))
    } else {
        match spec_decode_frames(words, sentences) {
            Err(e) => Some(Err(e)),
            Ok(fs) => match spec_reassemble(sort_by_sequence(fs)) {
                Err(e) => Some(Err(e)),
                Ok(c) => spec_decompress(c),
            },
        }
    }
}

impl TransportCodec {
    /// Parses one sentence back into the frame it carries: words to
    /// indices, indices to bytes, then the length prefix and the frame.
    fn decode_packet(&self, sentence: &str) -> (r: Result<Frame, TransportError>)
        ensures
            tview(r) == spec_decode_packet(self.words(), sentence@),
    {
        proof {
            use_type_invariant(self);
            self.config.dictionary.lemma_shape();
        }
        let indices = match self.config.dictionary.from_natural_sentence(sentence) {
            Ok(v) => v,
            Err(e) => return Err(e),
        };
        let packed = match word_indices_to_bytes(indices.as_slice(), &self.config.dictionary) {
            Ok(v) => v,
            Err(e) => return Err(e),
        };
        if packed.len() < LEN_PREFIX {
            return Err(
                TransportError::InvalidFrame(String::from_str("Packet shorter than length prefix")),
            );
        }
        let frame_len: u64 = packed[0] as u64 + 256 * (packed[1] as u64) + 65536 * (
        packed[2] as u64) + 16777216 * (packed[3] as u64);
        assert(frame_len == from_le32(packed@[0], packed@[1], packed@[2], packed@[3]));
        if (packed.len() as u64) < 4 + frame_len {
            return Err(
                TransportError::InvalidFrame(
                    String::from_str("Packet truncated (declared frame length exceeds data)"),
                ),
            );
        }
        let body = copy_range(packed.as_slice(), LEN_PREFIX, LEN_PREFIX + frame_len as usize);
        Frame::from_bytes(body.as_slice())
    }

    /// Decodes packets back into the payload: each sentence to its frame,
    /// the frames reassembled (in sequence order) and decompressed. No
    /// packets is `NoData`; the first failing packet's error is returned.
    pub fn decode(&self, packets: &[EncodedPacket]) -> (r: Result<Vec<u8>, TransportError>)
        ensures
            match spec_decode(self.words(), packet_sentences(packet_views(packets@))) {
                Some(expected) => tview(r) == expected,
                None => r matches Err(e) && e@ is Compression,
            },
    {
        let ghost ss = packet_sentences(packet_views(packets@));
        if packets.len() == 0 {
            return Err(TransportError::NoData);
        }
        let mut frames: Vec<Frame> = Vec::new();
        let mut i: usize = 0;
        proof {
            assert(ss.subrange(0, 0) =~= Seq::<Seq<char>>::empty());
            assert(views(frames@) =~= Seq::<FrameView>::empty());
        }
        while i < packets.len()
            invariant
                ss == packet_sentences(packet_views(packets@)),
                ss.len() == packets@.len(),
                0 <= i <= ss.len(),
                spec_decode_frames(self.words(), ss.subrange(0, i as int)) == Ok::<
                    Seq<FrameView>,
                    TransportErrorView,
                >(views(frames@)),
            decreases ss.len() - i,
        {
            let ghost prefix = ss.subrange(0, i as int);
            let ghost next = ss.subrange(0, i + 1);
            proof {
                assert(next.drop_last() =~= prefix);
                assert(next.last() == packets@[i as int].sentence@);
            }
            let frame = match self.decode_packet(packets[i].sentence.as_str()) {
                Ok(f) => f,
                Err(e) => {
                    proof {
                        lemma_decode_frames_err(self.words(), ss, (i + 1) as nat);
                    }
                    return Err(e);
                },
            };
            let ghost before = views(frames@);
            frames.push(frame);
            proof {
                assert(views(frames@) =~= before.push(frame@));
            }
            i = i + 1;
        }
        proof {
            assert(ss.subrange(0, ss.len() as int) =~= ss);
        }
        let compressed = match Chunker::reassemble(frames.as_mut_slice()) {
            Ok(c) => c,
            Err(e) => return Err(e),
        };
        decompress(compressed.as_slice())
    }
}

/// A failure among the first `n` sentences is the failure of all of them.
proof fn lemma_decode_frames_err(words: Seq<Seq<char>>, ss: Seq<Seq<char>>, n: nat)
    requires
        n <= ss.len(),
        spec_decode_frames(words, ss.subrange(0, n as int)) is Err,
    ensures
        spec_decode_frames(words, ss) == spec_decode_frames(words, ss.subrange(0, n as int)),
    decreases ss.len() - n,
{
    if n < ss.len() {
        let next = ss.subrange(0, (n + 1) as int);
        assert(next.drop_last() =~= ss.subrange(0, n as int));
        lemma_decode_frames_err(words, ss, n + 1);
    } else {
        assert(ss.subrange(0, n as int) =~= ss);
    }
}

// ---------------------------------------------------------------------------
// Carrier text
// ---------------------------------------------------------------------------

/// The carrier text for the sentences: the marker, each sentence on a line
/// of its own, the marker again.
pub open spec fn carrier_text(sentences: Seq<Seq<char>>) -> Seq<char> {
    KASSIBER_MARKER@ + "\n"@ + join_with(sentences, "\n"@) + "\n"@ + KASSIBER_MARKER@
}

/// The sentences between the first two markers of `text` (its non-blank
/// lines there, trimmed): `None` without a first marker, `MissingEndMarker`
/// without a second one after it.
pub open spec fn carrier_sentences(text: Seq<char>) -> Result<Option<Seq<Seq<char>>>, TransportErrorView> {
    let m = KASSIBER_MARKER@;
    match find_from(text, m, 0) {
        None => Ok(None),
        Some(p) => match find_from(text, m, p + m.len()) {
            None => Err(TransportErrorView::MissingEndMarker),
            Some(q) => Ok(Some(nonblank_lines(text.subrange(p + m.len(), q)))),
        },
    }
}

/// What [`TransportCodec::decode_from_carrier`] yields for `text`; `None`
/// where the DEFLATE decoder fails (its error text is not stated).
pub open spec fn spec_decode_carrier(words: Seq<Seq<char>>, text: Seq<char>) -> Option<Result<Option<Seq<u8>>, TransportErrorView>> {
    match carrier_sentences(text) {
        Err(e) => Some(Err(e)),
        Ok(None) => Some(Ok(None)),
        Ok(Some(ss)) => if ss.len() == 0 {
            Some(Ok(None))
        } else {
            match spec_decode(words, ss) {
                None => None,
                Some(Err(e)) => Some(Err(e)),
                Some(Ok(d)) => Some(Ok(Some(d))),
            }
        },
    }
}

/// A match that [`find_from`] reports lies inside the text, at or after
/// where the search began.
proof fn lemma_find_from_bounds(s: Seq<char>, pat: Seq<char>, i: int)
    ensures
        find_from(s, pat, i) matches Some(p) ==> i <= p && p + pat.len() <= s.len(),
    decreases s.len() - i,
{
    if !(i < 0 || i >= s.len() || i + pat.len() > s.len()) {
        if s.subrange(i, i + pat.len()) != pat {
            lemma_find_from_bounds(s, pat, i + 1);
        }
    }
}

/// The sentences of the packets, as fresh strings.
fn sentences_of(packets: &[EncodedPacket]) -> (r: Vec<String>)
    ensures
        string_texts(r@) == packet_sentences(packet_views(packets@)),
{
    let ghost ss = packet_sentences(packet_views(packets@));
    let mut out: Vec<String> = Vec::new();
    let mut i: usize = 0;
    while i < packets.len()
        invariant
            ss == packet_sentences(packet_views(packets@)),
            ss.len() == packets@.len(),
            0 <= i <= ss.len(),
            string_texts(out@) == ss.subrange(0, i as int),
        decreases ss.len() - i,
    {
        let ghost before = string_texts(out@);
        let sentence = packets[i].sentence.clone();
        assert(sentence@ == ss[i as int]);
        out.push(sentence);
        i = i + 1;
        assert(string_texts(out@) =~= before.push(ss[i - 1]));
        assert(string_texts(out@) =~= ss.subrange(0, i as int));
    }
    assert(ss.subrange(0, ss.len() as int) =~= ss);
    out
}

/// Packets that carry the given sentences and no word indices.
fn packets_of(sentences: &Vec<String>) -> (r: Vec<EncodedPacket>)
    ensures
        packet_sentences(packet_views(r@)) == string_texts(sentences@),
{
    let ghost ss = string_texts(sentences@);
    let mut out: Vec<EncodedPacket> = Vec::new();
    let mut i: usize = 0;
    while i < sentences.len()
        invariant
            ss == string_texts(sentences@),
            ss.len() == sentences@.len(),
            0 <= i <= ss.len(),
            packet_sentences(packet_views(out@)) == ss.subrange(0, i as int),
        decreases ss.len() - i,
    {
        let ghost before = packet_sentences(packet_views(out@));
        let sentence = sentences[i].clone();
        assert(sentence@ == ss[i as int]);
        out.push(EncodedPacket { sentence, raw_indices: Vec::new() });
        i = i + 1;
        assert(packet_sentences(packet_views(out@)) =~= before.push(ss[i - 1]));
        assert(packet_sentences(packet_views(out@)) =~= ss.subrange(0, i as int));
    }
    assert(ss.subrange(0, ss.len() as int) =~= ss);
    out
}

impl TransportCodec {
    /// Encodes `data` into one carrier text: the marker, one line per
    /// packet sentence, the marker.
    pub fn encode_single(&self, data: &[u8]) -> (r: Result<String, TransportError>)
        requires
            self.payload_limit() > 0,
        ensures
            r is Ok,
            match r {
                Ok(s) => s@ == carrier_text(
                    packet_sentences(
                        spec_packets(self.words(), spec_chunk(deflate_best(data@), self.payload_limit())),
                    ),
                ),
                Err(e) => e@ is Compression,
            },
            r is Ok ==> carrier_dictionary(self.words()) && data@.len() <= MAX_DECOMPRESSED_SIZE && (
            deflate_best(data@).len() <= self.payload_limit() || chunk_count(
                deflate_best(data@).len(),
                self.payload_limit(),
            ) <= 65535) ==> spec_decode_carrier(self.words(), r->Ok_0@) == Some(
                Ok::<Option<Seq<u8>>, TransportErrorView>(Some(data@)),
            ),
    {
        let packets = match self.encode(data) {
            Ok(p) => p,
            Err(e) => return Err(e),
        };
        proof {
            use_type_invariant(self);
            self.config.dictionary.lemma_shape();
            let fs = spec_chunk(deflate_best(data@), self.payload_limit());
            lemma_chunk_nonempty(deflate_best(data@), self.payload_limit());
            if carrier_dictionary(self.words()) {
                lemma_carrier_of_packets(self.words(), fs);
            }
        }
        let sentences = sentences_of(packets.as_slice());
        let body = join_strings(&sentences, "\n");
        let mut out = String::from_str(KASSIBER_MARKER);
        out.append("\n");
        out.append(body.as_str());
        out.append("\n");
        out.append(KASSIBER_MARKER);
        Ok(out)
    }

    /// Finds an encoded payload between the first two markers of `text` and
    /// decodes it. No first marker, or nothing but blank lines between the
    /// markers, is `Ok(None)`; a missing second marker is `MissingEndMarker`.
    pub fn decode_from_carrier(&self, text: &str) -> (r: Result<Option<Vec<u8>>, TransportError>)
        ensures
            match spec_decode_carrier(self.words(), text@) {
                Some(Ok(None)) => r matches Ok(None),
                Some(Ok(Some(d))) => r matches Ok(Some(v)) && v@ == d,
                Some(Err(e)) => r matches Err(x) && x@ == e,
                None => r matches Err(x) && x@ is Compression,
            },
    {
        let chars = str_chars(text);
        let marker = str_chars(KASSIBER_MARKER);
        let p = match find_chars(&chars, &marker, 0) {
            None => return Ok(None),
            Some(p) => p,
        };
        proof {
            lemma_find_from_bounds(chars@, marker@, 0);
        }
        assert(p + marker@.len() <= chars@.len());
        assert(chars@.len() == chars.len());
        let start = p + marker.len();
        let q = match find_chars(&chars, &marker, start) {
            None => return Err(TransportError::MissingEndMarker),
            Some(q) => q,
        };
        proof {
            lemma_find_from_bounds(chars@, marker@, start as int);
        }
        let lines = nonblank_lines_vec(&chars, start, q);
        if lines.len() == 0 {
            return Ok(None);
        }
        let packets = packets_of(&lines);
        match self.decode(packets.as_slice()) {
            Ok(v) => Ok(Some(v)),
            Err(e) => Err(e),
        }
    }

    /// Whether `text` holds the marker.
    pub fn detect_kassiber(text: &str) -> (b: bool)
        ensures
            b == find_from(text@, KASSIBER_MARKER@, 0) is Some,
    {
        let chars = str_chars(text);
        let marker = str_chars(KASSIBER_MARKER);
        find_chars(&chars, &marker, 0).is_some()
    }
}

// ---------------------------------------------------------------------------
// Decoding undoes encoding
// ---------------------------------------------------------------------------

/// The sentence of a frame's packet decodes to the frame, for a clean
/// dictionary and a frame whose checksum matches.
proof fn lemma_packet_roundtrip(words: Seq<Seq<char>>, f: FrameView)
    requires
        clean_dictionary(words),
        words.len() == 2048,
        f.checksum == spec_crc32(f.payload),
        frame_encoding(f).len() <= 2048,
    ensures
        spec_decode_packet(words, spec_packet(words, f).sentence) == Ok::<FrameView, TransportErrorView>(f),
{
    let enc = frame_encoding(f);
    let bytes = packet_bytes(f);
    let indices = spec_pack(bytes, 11);
    vstd::arithmetic::power2::lemma2_to64();
    assert(p2(11) == 2048);
    assert forall|k: int| 0 <= k < indices.len() implies #[trigger] indices[k] < words.len() by {
        lemma_pack_below(bytes, 11, k);
    }
    lemma_sentence_roundtrip(words, indices);
    lemma_pack_then_unpack(bytes, 11);
    let u = spec_unpack(indices, 11, 2048)->Ok_0;
    let len = enc.len() as u32;
    lemma_le32_roundtrip(len);
    assert(u.subrange(0, bytes.len() as int) == bytes);
    assert(u[0] == bytes[0] && u[1] == bytes[1] && u[2] == bytes[2] && u[3] == bytes[3]);
    assert(from_le32(u[0], u[1], u[2], u[3]) == len);
    assert forall|j: int| 0 <= j < len implies #[trigger] u.subrange(4, 4 + len)[j] == enc[j] by {
        assert(u.subrange(0, bytes.len() as int)[4 + j] == bytes[4 + j]);
        assert(bytes[4 + j] == enc[j]);
    }
    assert(u.subrange(4, 4 + len) =~= enc);
    lemma_frame_roundtrip(f);
}

/// The packets of frames with matching checksums decode to the frames.
#[verifier::rlimit(60)]
proof fn lemma_frames_roundtrip(words: Seq<Seq<char>>, fs: Seq<FrameView>)
    requires
        clean_dictionary(words),
        words.len() == 2048,
        forall|k: int| 0 <= k < fs.len() ==> (#[trigger] fs[k]).checksum == spec_crc32(fs[k].payload)
            && frame_encoding(fs[k]).len() <= 2048,
    ensures
        spec_decode_frames(words, packet_sentences(spec_packets(words, fs))) == Ok::<
            Seq<FrameView>,
            TransportErrorView,
        >(fs),
    decreases fs.len(),
{
    let ss = packet_sentences(spec_packets(words, fs));
    if fs.len() > 0 {
        let d = fs.drop_last();
        assert(ss.drop_last() =~= packet_sentences(spec_packets(words, d)));
        lemma_frames_roundtrip(words, d);
        assert(ss.last() == spec_packet(words, fs.last()).sentence);
        lemma_packet_roundtrip(words, fs.last());
        assert(d.push(fs.last()) =~= fs);
    } else {
        assert(fs =~= Seq::<FrameView>::empty());
    }
}

/// Decoding the packets that encoding yields gives the data back: for a
/// clean dictionary (non-empty ASCII words without whitespace and
/// `. , ! ?`, distinct after lower-casing), data of at most
/// [`MAX_DECOMPRESSED_SIZE`] bytes, a payload limit that a frame header
/// leaves room for, a frame count that fits the header fields, and a
/// compressed stream that decodes to the data.
#[verifier::rlimit(60)]
pub proof fn lemma_codec_roundtrip(words: Seq<Seq<char>>, data: Seq<u8>, limit: nat)
    requires
        clean_dictionary(words),
        words.len() == 2048,
        0 < limit <= 2039,
        data.len() <= MAX_DECOMPRESSED_SIZE,
        deflate_best(data).len() <= limit || chunk_count(deflate_best(data).len(), limit) <= 65535,
        inflate_prefix(deflate_best(data), (MAX_DECOMPRESSED_SIZE + 1) as nat) == Some(data),
    ensures
        spec_decode(words, packet_sentences(spec_packets(words, spec_chunk(deflate_best(data), limit))))
            == Some(Ok::<Seq<u8>, TransportErrorView>(data)),
{
    let c = deflate_best(data);
    let fs = spec_chunk(c, limit);
    lemma_chunk_payload_bound(c, limit);
    assert forall|k: int| 0 <= k < fs.len() implies (#[trigger] fs[k]).checksum == spec_crc32(fs[k].payload)
        && frame_encoding(fs[k]).len() <= 2048 by {
        assert(fs[k].payload.len() <= limit);
    }
    lemma_frames_roundtrip(words, fs);
    lemma_chunk_then_reassemble(c, limit);
    if c.len() > limit {
        assert(chunk_count(c.len(), limit) >= 1) by (nonlinear_arith)
            requires c.len() > limit, limit > 0, chunk_count(c.len(), limit) == (c.len() + limit - 1) / (limit as int);
    }
    assert(fs.len() > 0);
}


/// Whether the marker occurs nowhere in `s`.
pub open spec fn marker_free(s: Seq<char>) -> bool {
    forall|j: int|
        0 <= j && j + KASSIBER_MARKER@.len() <= s.len() ==> #[trigger] s.subrange(j, j + KASSIBER_MARKER@.len())
            != KASSIBER_MARKER@
}

/// A dictionary whose carrier texts decode: clean, and no word holds the
/// marker.
pub open spec fn carrier_dictionary(words: Seq<Seq<char>>) -> bool {
    &&& clean_dictionary(words)
    &&& forall|k: int| 0 <= k < words.len() ==> marker_free(#[trigger] words[k])
}

/// Words of the letters `a`–`z` do not hold the marker, which starts with
/// `<`.
proof fn lemma_lower_words_marker_free(words: Seq<Seq<char>>)
    requires
        forall|k: int| 0 <= k < words.len() ==> is_lower_word(#[trigger] words[k]),
    ensures
        forall|k: int| 0 <= k < words.len() ==> marker_free(#[trigger] words[k]),
{
    lemma_separators_not_in_marker();
    assert forall|k: int| 0 <= k < words.len() implies marker_free(#[trigger] words[k]) by {
        let w = words[k];
        assert(is_lower_word(w));
        assert forall|j: int| 0 <= j && j + KASSIBER_MARKER@.len() <= w.len() implies #[trigger] w.subrange(
            j,
            j + KASSIBER_MARKER@.len(),
        ) != KASSIBER_MARKER@ by {
            assert(w.subrange(j, j + 14)[0] == w[j]);
            assert('a' <= w[j]);
        }
    }
}

/// A window over a character that the marker does not hold is not the
/// marker.
proof fn lemma_window_not_marker(s: Seq<char>, j: int, p: int)
    requires
        0 <= j <= p < j + KASSIBER_MARKER@.len(),
        j + KASSIBER_MARKER@.len() <= s.len(),
        !KASSIBER_MARKER@.contains(s[p]),
    ensures
        s.subrange(j, j + KASSIBER_MARKER@.len()) != KASSIBER_MARKER@,
{
    let m = KASSIBER_MARKER@;
    if s.subrange(j, j + m.len()) == m {
        assert(m[p - j] == s[p]);
    }
}

/// Separators the marker does not occur in: space, full stop, line break.
proof fn lemma_separators_not_in_marker()
    ensures
        !KASSIBER_MARKER@.contains(' '),
        !KASSIBER_MARKER@.contains('.'),
        !KASSIBER_MARKER@.contains('\n'),
        KASSIBER_MARKER@.len() == 14,
        KASSIBER_MARKER@[0] == '<',
{
    reveal_strlit("<<<KASSIBER>>>");
}

/// Two marker-free texts around a separator of characters outside the
/// marker make a marker-free text.
proof fn lemma_concat_marker_free(a: Seq<char>, sep: Seq<char>, b: Seq<char>)
    requires
        marker_free(a),
        marker_free(b),
        sep.len() > 0,
        forall|i: int| 0 <= i < sep.len() ==> !KASSIBER_MARKER@.contains(#[trigger] sep[i]),
    ensures
        marker_free(a + sep + b),
{
    lemma_separators_not_in_marker();
    let m = KASSIBER_MARKER@;
    let t = a + sep + b;
    let n: int = 14;
    assert forall|j: int| 0 <= j && j + n <= t.len() implies #[trigger] t.subrange(j, j + n) != m by {
        if j + n <= a.len() {
            assert(t.subrange(j, j + n) =~= a.subrange(j, j + n));
        } else if j >= a.len() + sep.len() {
            let o = j - a.len() - sep.len();
            assert(t.subrange(j, j + n) =~= b.subrange(o, o + n));
        } else {
            let p = if j >= a.len() { j } else { a.len() as int };
            assert(t[p] == sep[p - a.len()]);
            lemma_window_not_marker(t, j, p);
        }
    }
}

/// Joining marker-free parts with such a separator keeps the marker out.
proof fn lemma_join_marker_free(ws: Seq<Seq<char>>, sep: Seq<char>)
    requires
        forall|k: int| 0 <= k < ws.len() ==> marker_free(#[trigger] ws[k]),
        sep.len() > 0,
        forall|i: int| 0 <= i < sep.len() ==> !KASSIBER_MARKER@.contains(#[trigger] sep[i]),
    ensures
        marker_free(join_with(ws, sep)),
    decreases ws.len(),
{
    lemma_separators_not_in_marker();
    if ws.len() == 1 {
        assert(marker_free(ws[0]));
    } else if ws.len() > 1 {
        let d = ws.drop_last();
        assert forall|k: int| 0 <= k < d.len() implies marker_free(#[trigger] d[k]) by {
            assert(d[k] == ws[k]);
        }
        lemma_join_marker_free(d, sep);
        assert(marker_free(ws.last()));
        lemma_concat_marker_free(join_with(d, sep), sep, ws.last());
    }
}

/// Rendered marker-free words are marker-free.
proof fn lemma_render_marker_free(ws: Seq<Seq<char>>)
    requires
        forall|k: int| 0 <= k < ws.len() ==> marker_free(#[trigger] ws[k]),
    ensures
        marker_free(render_sentences(ws)),
{
    lemma_separators_not_in_marker();
    reveal_strlit(" ");
    reveal_strlit(". ");
    reveal_strlit(".");
    if ws.len() > 0 {
        let s = sentences(ws, 0);
        lemma_sentences_marker_free(ws, 0);
        lemma_join_marker_free(s, ". "@);
        let e = Seq::<char>::empty();
        lemma_concat_marker_free(join_with(s, ". "@), "."@, e);
        assert(join_with(s, ". "@) + "."@ + e =~= render_sentences(ws));
    }
}

/// The sentences of marker-free words are marker-free.
proof fn lemma_sentences_marker_free(ws: Seq<Seq<char>>, k: nat)
    requires
        forall|j: int| 0 <= j < ws.len() ==> marker_free(#[trigger] ws[j]),
    ensures
        forall|j: int| 0 <= j < sentences(ws, k).len() ==> marker_free(#[trigger] sentences(ws, k)[j]),
    decreases ws.len(),
{
    lemma_separators_not_in_marker();
    reveal_strlit(" ");
    if ws.len() > 0 {
        let len = if sentence_len(k) <= ws.len() { sentence_len(k) } else { ws.len() };
        let chunk = ws.take(len as int);
        let tail = ws.skip(len as int);
        assert forall|j: int| 0 <= j < chunk.len() implies marker_free(#[trigger] chunk[j]) by {
            assert(chunk[j] == ws[j]);
        }
        assert forall|j: int| 0 <= j < tail.len() implies marker_free(#[trigger] tail[j]) by {
            assert(tail[j] == ws[j + len]);
        }
        lemma_join_marker_free(chunk, " "@);
        lemma_sentences_marker_free(tail, k + 1);
        let rest = sentences(tail, k + 1);
        assert forall|j: int| 0 <= j < sentences(ws, k).len() implies marker_free(#[trigger] sentences(ws, k)[j]) by {
            if j > 0 {
                assert(sentences(ws, k)[j] == rest[j - 1]);
            }
        }
    }
}

/// `find_from` reports the first occurrence: where the pattern occurs at
/// `k` and nowhere from `i` on before it, the search from `i` finds `k`.
proof fn lemma_find_first(s: Seq<char>, pat: Seq<char>, i: int, k: int)
    requires
        0 <= i <= k,
        k + pat.len() <= s.len(),
        pat.len() > 0,
        s.subrange(k, k + pat.len()) == pat,
        forall|j: int| i <= j < k ==> #[trigger] s.subrange(j, j + pat.len()) != pat,
    ensures
        find_from(s, pat, i) == Some(k),
    decreases k - i,
{
    if i < k {
        assert(s.subrange(i, i + pat.len()) != pat);
        lemma_find_first(s, pat, i + 1, k);
    }
}

/// The carrier text of trimmed, marker-free sentences gives the sentences
/// back.
proof fn lemma_carrier_sentences(ss: Seq<Seq<char>>)
    requires
        ss.len() > 0,
        forall|k: int| 0 <= k < ss.len() ==> is_trimmed_line(#[trigger] ss[k]) && marker_free(ss[k]),
    ensures
        carrier_sentences(carrier_text(ss)) == Ok::<Option<Seq<Seq<char>>>, TransportErrorView>(Some(ss)),
{
    lemma_separators_not_in_marker();
    reveal_strlit("\n");
    let m = KASSIBER_MARKER@;
    let nl = "\n"@;
    let j = join_with(ss, nl);
    let t = carrier_text(ss);
    let q = t.len() - 14;
    assert(t.subrange(0, 14) =~= m);
    assert(find_from(t, m, 0) == Some(0int));
    assert forall|k: int| 0 <= k < ss.len() implies marker_free(#[trigger] ss[k]) by {
        assert(is_trimmed_line(ss[k]) && marker_free(ss[k]));
    }
    assert forall|i: int| 0 <= i < nl.len() implies !m.contains(#[trigger] nl[i]) by {
        assert(nl[i] == '\n');
    }
    lemma_join_marker_free(ss, nl);
    let e = Seq::<char>::empty();
    lemma_concat_marker_free(e, nl, j);
    lemma_concat_marker_free(e + nl + j, nl, e);
    let body = t.subrange(14, q);
    assert(body =~= e + nl + j + nl + e);
    assert forall|i: int| 14 <= i < q implies #[trigger] t.subrange(i, i + m.len()) != m by {
        if i + 14 <= q {
            assert(t.subrange(i, i + 14) =~= body.subrange(i - 14, i));
        } else {
            assert(t[q - 1] == '\n');
            lemma_window_not_marker(t, i, q - 1);
        }
    }
    assert(t.subrange(q, q + 14) =~= m);
    lemma_find_first(t, m, 14, q);
    assert(t.subrange(14, q) =~= nl + j + nl);
    lemma_nonblank_lines_join(ss);
}

/// Payloads of at least one byte make at least one frame.
proof fn lemma_chunk_nonempty(data: Seq<u8>, limit: nat)
    requires
        limit > 0,
    ensures
        spec_chunk(data, limit).len() > 0,
{
    if data.len() > limit {
        assert(chunk_count(data.len(), limit) >= 1) by (nonlinear_arith)
            requires
                data.len() > limit,
                limit > 0,
                chunk_count(data.len(), limit) == (data.len() + limit - 1) / (limit as int);
    }
}

/// The sentences of packets are trimmed, marker-free lines, for a carrier
/// dictionary.
proof fn lemma_packet_sentences_shape(words: Seq<Seq<char>>, fs: Seq<FrameView>)
    requires
        carrier_dictionary(words),
        words.len() == 2048,
    ensures
        forall|k: int| 0 <= k < fs.len() ==> is_trimmed_line(#[trigger] packet_sentences(spec_packets(words, fs))[k])
            && marker_free(packet_sentences(spec_packets(words, fs))[k]),
{
    let ss = packet_sentences(spec_packets(words, fs));
    assert forall|k: int| 0 <= k < fs.len() implies is_trimmed_line(#[trigger] ss[k]) && marker_free(ss[k]) by {
        let bytes = packet_bytes(fs[k]);
        let indices = spec_pack(bytes, 11);
        let ws = selected_words(words, indices);
        assert(ss[k] == render_sentences(ws));
        assert(bytes.len() >= 4);
        assert(indices.len() >= 1);
        vstd::arithmetic::power2::lemma2_to64();
        assert(p2(11) == 2048);
        assert forall|j: int| 0 <= j < ws.len() implies is_clean_word(#[trigger] ws[j]) && marker_free(ws[j]) by {
            lemma_pack_below(bytes, 11, j);
            assert(ws[j] == words[indices[j] as int]);
        }
        lemma_render_shape(ws);
        lemma_render_marker_free(ws);
        let r = render_sentences(ws);
        assert forall|i: int| 0 <= i < r.len() implies #[trigger] r[i] != '\n' by {
            assert(rendered_char()(r[i]));
        }
    }
}

/// The carrier text of the packets of `fs` (at least one) gives their
/// sentences back, and there is at least one.
proof fn lemma_carrier_of_packets(words: Seq<Seq<char>>, fs: Seq<FrameView>)
    requires
        carrier_dictionary(words),
        words.len() == 2048,
        fs.len() > 0,
    ensures
        carrier_sentences(carrier_text(packet_sentences(spec_packets(words, fs)))) == Ok::<
            Option<Seq<Seq<char>>>,
            TransportErrorView,
        >(Some(packet_sentences(spec_packets(words, fs)))),
        packet_sentences(spec_packets(words, fs)).len() > 0,
{
    lemma_packet_sentences_shape(words, fs);
    lemma_carrier_sentences(packet_sentences(spec_packets(words, fs)));
}

/// Decoding the carrier text that encoding yields gives the data back, on
/// the inputs of [`lemma_codec_roundtrip`] where no word of the dictionary
/// holds the marker.
pub proof fn lemma_carrier_roundtrip(words: Seq<Seq<char>>, data: Seq<u8>, limit: nat)
    requires
        carrier_dictionary(words),
        words.len() == 2048,
        0 < limit <= 2039,
        data.len() <= MAX_DECOMPRESSED_SIZE,
        deflate_best(data).len() <= limit || chunk_count(deflate_best(data).len(), limit) <= 65535,
        inflate_prefix(deflate_best(data), (MAX_DECOMPRESSED_SIZE + 1) as nat) == Some(data),
    ensures
        spec_decode_carrier(
            words,
            carrier_text(packet_sentences(spec_packets(words, spec_chunk(deflate_best(data), limit)))),
        ) == Some(Ok::<Option<Seq<u8>>, TransportErrorView>(Some(data))),
{
    lemma_codec_roundtrip(words, data, limit);
    lemma_chunk_nonempty(deflate_best(data), limit);
    lemma_carrier_of_packets(words, spec_chunk(deflate_best(data), limit));
}


/// Sequences holding the same elements hold the same images.
proof fn lemma_map_multiset<A, B>(a: Seq<A>, b: Seq<A>, f: spec_fn(A) -> B)
    requires
        a.to_multiset() == b.to_multiset(),
    ensures
        a.map_values(f).to_multiset() == b.map_values(f).to_multiset(),
    decreases a.len(),
{
    broadcast use vstd::seq_lib::group_to_multiset_ensures;
    broadcast use vstd::multiset::group_multiset_axioms;
    vstd::seq_lib::to_multiset_len(a);
    vstd::seq_lib::to_multiset_len(b);
    if a.len() == 0 {
        assert(b.len() == 0);
        assert(a.map_values(f) =~= Seq::<B>::empty());
        assert(b.map_values(f) =~= Seq::<B>::empty());
    } else {
        let x = a.last();
        let d = a.drop_last();
        assert(d.push(x) =~= a);
        assert(a.to_multiset().count(x) > 0);
        assert(b.contains(x));
        let i = choose|i: int| 0 <= i < b.len() && b[i] == x;
        let br = b.remove(i);
        assert(br.to_multiset() == b.to_multiset().remove(x));
        assert(d.to_multiset() =~= a.to_multiset().remove(x));
        lemma_map_multiset(d, br, f);
        let bm = b.map_values(f);
        assert(br.map_values(f) =~= bm.remove(i));
        assert(bm.remove(i).to_multiset() == bm.to_multiset().remove(bm[i]));
        assert(a.map_values(f) =~= d.map_values(f).push(f(x)));
        assert(bm.to_multiset().count(f(x)) > 0);
        assert(a.map_values(f).to_multiset() =~= bm.to_multiset());
    }
}

/// Sentences that each decode to a frame decode, in order, to those frames.
proof fn lemma_decode_frames_each(words: Seq<Seq<char>>, ss: Seq<Seq<char>>)
    requires
        forall|k: int| 0 <= k < ss.len() ==> (#[trigger] spec_decode_packet(words, ss[k])) is Ok,
    ensures
        spec_decode_frames(words, ss) == Ok::<Seq<FrameView>, TransportErrorView>(
            ss.map_values(|s: Seq<char>| spec_decode_packet(words, s)->Ok_0),
        ),
    decreases ss.len(),
{
    let h = |s: Seq<char>| spec_decode_packet(words, s)->Ok_0;
    if ss.len() == 0 {
        assert(ss.map_values(h) =~= Seq::<FrameView>::empty());
    } else {
        let d = ss.drop_last();
        assert forall|k: int| 0 <= k < d.len() implies (#[trigger] spec_decode_packet(words, d[k])) is Ok by {
            assert(d[k] == ss[k]);
        }
        lemma_decode_frames_each(words, d);
        assert(spec_decode_packet(words, ss[ss.len() - 1]) is Ok);
        assert(ss.map_values(h) =~= d.map_values(h).push(h(ss.last())));
    }
}

/// Decoding does not depend on the order in which packets arrive: any
/// reordering of the sentences that encoding yields decodes to the data, on
/// the inputs of [`lemma_codec_roundtrip`].
pub proof fn lemma_decode_any_order(words: Seq<Seq<char>>, data: Seq<u8>, limit: nat, arrived: Seq<Seq<char>>)
    requires
        clean_dictionary(words),
        words.len() == 2048,
        0 < limit <= 2039,
        data.len() <= MAX_DECOMPRESSED_SIZE,
        deflate_best(data).len() <= limit || chunk_count(deflate_best(data).len(), limit) <= 65535,
        inflate_prefix(deflate_best(data), (MAX_DECOMPRESSED_SIZE + 1) as nat) == Some(data),
        arrived.to_multiset() == packet_sentences(
            spec_packets(words, spec_chunk(deflate_best(data), limit)),
        ).to_multiset(),
    ensures
        spec_decode(words, arrived) == Some(Ok::<Seq<u8>, TransportErrorView>(data)),
{
    broadcast use vstd::seq_lib::group_to_multiset_ensures;
    let c = deflate_best(data);
    let fs = spec_chunk(c, limit);
    let ss = packet_sentences(spec_packets(words, fs));
    let h = |s: Seq<char>| spec_decode_packet(words, s)->Ok_0;
    lemma_codec_roundtrip(words, data, limit);
    lemma_chunk_payload_bound(c, limit);
    assert forall|k: int| 0 <= k < ss.len() implies #[trigger] spec_decode_packet(words, ss[k]) == Ok::<
        FrameView,
        TransportErrorView,
    >(fs[k]) by {
        assert(fs[k].payload.len() <= limit);
        assert(ss[k] == spec_packet(words, fs[k]).sentence);
        lemma_packet_roundtrip(words, fs[k]);
    }
    assert forall|k: int| 0 <= k < arrived.len() implies (#[trigger] spec_decode_packet(words, arrived[k])) is Ok by {
        assert(arrived.to_multiset().count(arrived[k]) > 0);
        assert(ss.contains(arrived[k]));
        let j = choose|j: int| 0 <= j < ss.len() && ss[j] == arrived[k];
        assert(spec_decode_packet(words, ss[j]) is Ok);
    }
    lemma_decode_frames_each(words, arrived);
    assert(ss.map_values(h) =~= fs) by {
        assert forall|k: int| 0 <= k < fs.len() implies #[trigger] ss.map_values(h)[k] == fs[k] by {
            assert(spec_decode_packet(words, ss[k]) == Ok::<FrameView, TransportErrorView>(fs[k]));
        }
    }
    lemma_map_multiset(arrived, ss, h);
    lemma_reassemble_any_order(c, limit, arrived.map_values(h));
    vstd::seq_lib::to_multiset_len(arrived);
    vstd::seq_lib::to_multiset_len(ss);
    lemma_chunk_nonempty(c, limit);
}


/// Sentences that decode to frames each decode to a frame.
proof fn lemma_decode_frames_ok(words: Seq<Seq<char>>, ss: Seq<Seq<char>>)
    requires
        spec_decode_frames(words, ss) is Ok,
    ensures
        forall|k: int| 0 <= k < ss.len() ==> (#[trigger] spec_decode_packet(words, ss[k])) is Ok,
    decreases ss.len(),
{
    if ss.len() > 0 {
        let d = ss.drop_last();
        lemma_decode_frames_ok(words, d);
        assert forall|k: int| 0 <= k < ss.len() implies (#[trigger] spec_decode_packet(words, ss[k])) is Ok by {
            if k < d.len() {
                assert(d[k] == ss[k]);
            }
        }
    }
}

/// Decoding does not depend on the order of the packets: where some order
/// of the sentences decodes to data, every reordering decodes to the same
/// data.
pub proof fn lemma_decode_reordered(words: Seq<Seq<char>>, a: Seq<Seq<char>>, b: Seq<Seq<char>>)
    requires
        a.to_multiset() == b.to_multiset(),
        spec_decode(words, a) matches Some(Ok(_)),
    ensures
        spec_decode(words, b) == spec_decode(words, a),
{
    broadcast use vstd::seq_lib::group_to_multiset_ensures;
    let h = |s: Seq<char>| spec_decode_packet(words, s)->Ok_0;
    vstd::seq_lib::to_multiset_len(a);
    vstd::seq_lib::to_multiset_len(b);
    lemma_decode_frames_ok(words, a);
    lemma_decode_frames_each(words, a);
    assert forall|k: int| 0 <= k < b.len() implies (#[trigger] spec_decode_packet(words, b[k])) is Ok by {
        assert(b.to_multiset().count(b[k]) > 0);
        assert(a.contains(b[k]));
        let j = choose|j: int| 0 <= j < a.len() && a[j] == b[k];
        assert(spec_decode_packet(words, a[j]) is Ok);
    }
    lemma_decode_frames_each(words, b);
    let fa = a.map_values(h);
    let fb = b.map_values(h);
    lemma_map_multiset(b, a, h);
    let sa = sort_by_sequence(fa);
    let sb = sort_by_sequence(fb);
    lemma_sort_multiset(fa);
    lemma_sort_multiset(fb);
    lemma_sort_in_order(fb);
    assert(spec_reassemble(sa) is Ok);
    lemma_no_fault_in_sequence(sa, sa[0].total_chunks);
    lemma_sorted_unique(sb, sa);
}

} // verus!
