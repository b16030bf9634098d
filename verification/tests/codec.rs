use kassiber::codec::{
    bytes_to_word_indices, compress, decompress, EncodedPacket, TransportCodec, TransportConfig,
    KASSIBER_MARKER, MAX_DECOMPRESSED_SIZE,
};
use kassiber::framing::Chunker;

#[test]
fn test_roundtrip_small() {
    let codec = TransportCodec::default();
    let data = b"Hello, KASSIBER!";
    let packets = codec.encode(data).unwrap();
    assert_eq!(codec.decode(&packets).unwrap(), data);
}

#[test]
fn test_roundtrip_large() {
    let codec = TransportCodec::default();
    let data: Vec<u8> = (0..10_000).map(|i| (i % 256) as u8).collect();
    assert_eq!(codec.decode(&codec.encode(&data).unwrap()).unwrap(), data);
}

#[test]
fn test_roundtrip_every_length() {
    let codec = TransportCodec::default();
    for len in 0..64usize {
        let data: Vec<u8> = (0..len).map(|i| (i * 7 + 3) as u8).collect();
        let packets = codec.encode(&data).unwrap();
        assert_eq!(codec.decode(&packets).unwrap(), data, "len {}", len);
    }
}

#[test]
fn test_carrier_format() {
    let codec = TransportCodec::default();
    let encoded = codec.encode_single(b"Secret message").unwrap();
    assert!(encoded.starts_with(KASSIBER_MARKER));
    assert!(encoded.ends_with(KASSIBER_MARKER));
    assert_eq!(
        codec.decode_from_carrier(&encoded).unwrap().unwrap(),
        b"Secret message"
    );
}

#[test]
fn test_detect_kassiber() {
    assert!(TransportCodec::detect_kassiber("Hello <<<KASSIBER>>> world"));
    assert!(!TransportCodec::detect_kassiber("Hello world"));
}

#[test]
fn test_decompression_bomb_rejected() {
    let codec = TransportCodec::default();
    let config = TransportConfig::default();
    let bomb_raw = vec![0u8; 2 * MAX_DECOMPRESSED_SIZE];
    let compressed = compress(&bomb_raw).unwrap();
    assert!(compressed.len() < MAX_DECOMPRESSED_SIZE);
    let chunker = Chunker::new(config.max_chunk_size);
    let packets: Vec<EncodedPacket> = chunker
        .chunk(&compressed)
        .iter()
        .map(|f| {
            let fb = f.to_bytes();
            let mut buf = (fb.len() as u32).to_le_bytes().to_vec();
            buf.extend_from_slice(&fb);
            let idx = bytes_to_word_indices(&buf, &config.dictionary).unwrap();
            EncodedPacket {
                sentence: config.dictionary.to_natural_sentence(&idx),
                raw_indices: idx,
            }
        })
        .collect();
    assert!(codec.decode(&packets).is_err());
}

#[test]
fn test_decompressed_size_at_limit_ok() {
    let data = vec![7u8; MAX_DECOMPRESSED_SIZE];
    assert_eq!(decompress(&compress(&data).unwrap()).unwrap(), data);
}

// ---------------------------------------------------------------------------
// Further cases
// ---------------------------------------------------------------------------

#[test]
fn decode_without_packets_is_no_data() {
    let codec = TransportCodec::default();
    let e = codec.decode(&[]).unwrap_err();
    assert_eq!(e.to_string(), "No data");
}

#[test]
fn carrier_without_end_marker() {
    let codec = TransportCodec::default();
    let e = codec.decode_from_carrier("x <<<KASSIBER>>> abandon").unwrap_err();
    assert_eq!(e.to_string(), "Missing end marker");
}

#[test]
fn carrier_without_marker_or_content_is_none() {
    let codec = TransportCodec::default();
    assert_eq!(codec.decode_from_carrier("plain text").unwrap(), None);
    assert_eq!(
        codec.decode_from_carrier("<<<KASSIBER>>>\n  \n\n<<<KASSIBER>>>").unwrap(),
        None
    );
}

#[test]
fn carrier_inside_other_text() {
    let codec = TransportCodec::default();
    let encoded = codec.encode_single(b"payload").unwrap();
    let text = format!("Hi there,\r\n{}\r\nbye", encoded.replace('\n', "\r\n"));
    assert_eq!(codec.decode_from_carrier(&text).unwrap().unwrap(), b"payload");
}

#[test]
fn carrier_lines_are_packet_sentences() {
    let codec = TransportCodec::default();
    let data: Vec<u8> = (0..5000u32).map(|i| (i * 7919 % 256) as u8).collect();
    let packets = codec.encode(&data).unwrap();
    let encoded = codec.encode_single(&data).unwrap();
    let lines: Vec<&str> = encoded.lines().collect();
    assert_eq!(lines.first(), Some(&KASSIBER_MARKER));
    assert_eq!(lines.last(), Some(&KASSIBER_MARKER));
    assert_eq!(lines.len(), packets.len() + 2);
    for (i, p) in packets.iter().enumerate() {
        assert_eq!(lines[i + 1], p.sentence);
    }
}

#[test]
fn tampered_packet_is_rejected() {
    let codec = TransportCodec::default();
    let mut packets = codec.encode(b"some payload that matters").unwrap();
    let s = packets[0].sentence.replacen("a", "o", 1);
    packets[0].sentence = s;
    assert!(codec.decode(&packets).is_err());
}

#[test]
fn unknown_word_in_packet_is_rejected() {
    let codec = TransportCodec::default();
    let packets = vec![EncodedPacket {
        sentence: "abandon nosuchword.".to_string(),
        raw_indices: vec![],
    }];
    assert_eq!(
        codec.decode(&packets).unwrap_err().to_string(),
        "Unknown word: nosuchword"
    );
}

#[test]
fn short_packet_is_rejected() {
    let codec = TransportCodec::default();
    let packets = vec![EncodedPacket {
        sentence: "abandon abandon.".to_string(),
        raw_indices: vec![],
    }];
    assert_eq!(
        codec.decode(&packets).unwrap_err().to_string(),
        "Invalid frame: Packet shorter than length prefix"
    );
    let packets = vec![EncodedPacket {
        sentence: "zoo zoo zoo.".to_string(),
        raw_indices: vec![],
    }];
    assert_eq!(
        codec.decode(&packets).unwrap_err().to_string(),
        "Invalid frame: Packet truncated (declared frame length exceeds data)"
    );
}

#[test]
fn word_index_packing_exact() {
    let dict = kassiber::dictionary::Bip39Dictionary::english();
    let idx = bytes_to_word_indices(&[0xFF, 0x07], &dict).unwrap();
    assert_eq!(idx, vec![2047, 0]);
    let back = kassiber::codec::word_indices_to_bytes(&idx, &dict).unwrap();
    assert_eq!(&back[..2], &[0xFF, 0x07]);
    assert!(kassiber::codec::word_indices_to_bytes(&[2048], &dict).is_err());
}

#[test]
fn small_chunks_roundtrip() {
    let mut config = TransportConfig::default();
    config.max_chunk_size = 40;
    let codec = TransportCodec::new(config);
    let data: Vec<u8> = (0..3000u32).map(|i| (i.wrapping_mul(2654435761u32) >> 24) as u8).collect();
    let packets = codec.encode(&data).unwrap();
    assert!(packets.len() > 1);
    let mut shuffled = packets.clone();
    shuffled.reverse();
    assert_eq!(codec.decode(&shuffled).unwrap(), data);
}

#[test]
fn oversized_payload_rejected_by_decompress() {
    let data = vec![1u8; MAX_DECOMPRESSED_SIZE + 1];
    let e = decompress(&compress(&data).unwrap()).unwrap_err();
    assert_eq!(
        e.to_string(),
        "Compression error: Decompressed size exceeds limit of 1048576 bytes"
    );
}

#[test]
fn mixed_case_dictionary_codec_roundtrip() {
    let words: Vec<String> = (0..2048).map(|i| format!("K{}-w", i)).collect();
    let dictionary = kassiber::dictionary::Bip39Dictionary::new(words).unwrap();
    let codec = TransportCodec::new(TransportConfig { max_chunk_size: 64, dictionary });
    let data: Vec<u8> = (0..500).map(|i| (i * 13 % 251) as u8).collect();
    let packets = codec.encode(&data).unwrap();
    assert!(packets.len() > 1);
    assert_eq!(codec.decode(&packets).unwrap(), data);
    let carrier = codec.encode_single(&data).unwrap();
    assert_eq!(codec.decode_from_carrier(&carrier).unwrap().unwrap(), data);
}

#[test]
fn unpacking_adds_at_most_one_padding_byte() {
    let dict = kassiber::dictionary::Bip39Dictionary::english();
    let back = kassiber::codec::word_indices_to_bytes(&[1, 2, 3], &dict).unwrap();
    assert_eq!(back.len(), 4);
    for len in 0..40usize {
        let data: Vec<u8> = (0..len).map(|i| (i * 37 + 11) as u8).collect();
        let idx = bytes_to_word_indices(&data, &dict).unwrap();
        let b = kassiber::codec::word_indices_to_bytes(&idx, &dict).unwrap();
        assert!(b.len() == data.len() || b.len() == data.len() + 1, "len {}", len);
        assert_eq!(&b[..data.len()], &data[..]);
        assert!(b[data.len()..].iter().all(|&x| x == 0));
    }
}

#[test]
fn decode_any_packet_order() {
    let mut config = TransportConfig::default();
    config.max_chunk_size = 40;
    let codec = TransportCodec::new(config);
    let data: Vec<u8> = (0..600).map(|i| (i * 29 % 253) as u8).collect();
    let packets = codec.encode(&data).unwrap();
    let n = packets.len();
    assert!(n > 2);
    for k in 0..n {
        let mut rotated = packets.clone();
        rotated.rotate_left(k);
        assert_eq!(codec.decode(&rotated).unwrap(), data);
    }
    let mut reversed = packets.clone();
    reversed.reverse();
    assert_eq!(codec.decode(&reversed).unwrap(), data);
}

#[test]
fn unpacking_keeps_every_set_bit() {
    let dict = kassiber::dictionary::Bip39Dictionary::english();
    assert_eq!(
        kassiber::codec::word_indices_to_bytes(&[2047], &dict).unwrap(),
        vec![0xFF, 0x07]
    );
    // The trailing six bits of [2047, 0] are all zero: only padding.
    assert_eq!(
        kassiber::codec::word_indices_to_bytes(&[2047, 0], &dict).unwrap(),
        vec![0xFF, 0x07]
    );
    assert_eq!(
        kassiber::codec::word_indices_to_bytes(&[0, 2047], &dict).unwrap(),
        vec![0x00, 0xF8, 0x3F]
    );
    assert_eq!(
        kassiber::codec::word_indices_to_bytes(&[5, 2048], &dict).unwrap_err().to_string(),
        "Invalid word index: 2048"
    );
}

#[test]
fn decode_reads_only_sentences_in_any_order() {
    let mut config = TransportConfig::default();
    config.max_chunk_size = 40;
    let codec = TransportCodec::new(config);
    let data = b"the same data, whatever order and index fields the packets arrive with".to_vec();
    let packets = codec.encode(&data).unwrap();
    assert!(packets.len() > 1);
    let mut stripped: Vec<EncodedPacket> = packets
        .iter()
        .map(|p| EncodedPacket { sentence: p.sentence.clone(), raw_indices: Vec::new() })
        .collect();
    stripped.swap(0, packets.len() - 1);
    assert_eq!(codec.decode(&stripped).unwrap(), data);
}
