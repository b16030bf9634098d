use kassiber::framing::{Chunker, Frame, FrameType};

fn sample_data() -> Vec<u8> {
    (0..100).map(|i| (i % 256) as u8).collect()
}

#[test]
fn test_single_frame() {
    let frames = Chunker::default().chunk(b"hello");
    assert_eq!(frames.len(), 1);
    assert_eq!(frames[0].payload, b"hello");
}

#[test]
fn test_multi_frame() {
    let data = vec![0u8; 50];
    let frames = Chunker::new(20).chunk(&data);
    assert!(frames.len() > 1);
    assert_eq!(frames[0].frame_type, FrameType::First);
    assert_eq!(frames.last().unwrap().frame_type, FrameType::Last);
}

#[test]
fn test_reassemble() {
    let data = sample_data();
    let mut frames = Chunker::new(20).chunk(&data);
    assert_eq!(Chunker::reassemble(&mut frames).unwrap(), data);
}

#[test]
fn test_reassemble_out_of_order_ok() {
    let data = sample_data();
    let mut frames = Chunker::new(20).chunk(&data);
    frames.reverse();
    assert_eq!(Chunker::reassemble(&mut frames).unwrap(), data);
}

#[test]
fn test_reassemble_rejects_missing_chunk() {
    let data = sample_data();
    let frames = Chunker::new(20).chunk(&data);
    let mut truncated: Vec<Frame> = frames.into_iter().skip(1).collect();
    assert!(Chunker::reassemble(&mut truncated).is_err());
}

#[test]
fn test_reassemble_rejects_duplicate_chunk() {
    let data = sample_data();
    let frames = Chunker::new(20).chunk(&data);
    let mut dup = frames.clone();
    dup.push(frames[1].clone());
    assert!(Chunker::reassemble(&mut dup).is_err());
}

#[test]
fn test_reassemble_rejects_wrong_frame_type() {
    let data = sample_data();
    let mut frames = Chunker::new(20).chunk(&data);
    let mid = frames.len() / 2;
    frames[mid].frame_type = FrameType::Last;
    assert!(Chunker::reassemble(&mut frames).is_err());
}

// ---------------------------------------------------------------------------
// Further cases
// ---------------------------------------------------------------------------

#[test]
fn frame_bytes_roundtrip() {
    let frames = Chunker::new(20).chunk(&sample_data());
    for f in &frames {
        let bytes = f.to_bytes();
        assert_eq!(bytes.len(), 9 + f.payload.len());
        let back = Frame::from_bytes(&bytes).unwrap();
        assert_eq!(back.payload, f.payload);
        assert_eq!(back.sequence, f.sequence);
        assert_eq!(back.total_chunks, f.total_chunks);
        assert_eq!(back.frame_type, f.frame_type);
        assert_eq!(back.checksum, f.checksum);
    }
}

#[test]
fn frame_wire_layout_exact() {
    let frames = Chunker::default().chunk(b"abc");
    let bytes = frames[0].to_bytes();
    // Single frame, sequence 0, one chunk, CRC-32 of "abc" (0x352441C2), payload.
    assert_eq!(bytes, vec![0x04, 0, 0, 1, 0, 0xC2, 0x41, 0x24, 0x35, b'a', b'b', b'c']);
}

#[test]
fn crc32_known_value() {
    assert_eq!(kassiber::framing::crc32(b"123456789"), 0xCBF4_3926);
    assert_eq!(kassiber::framing::crc32(b""), 0);
}

#[test]
fn frame_from_bytes_errors() {
    let e = Frame::from_bytes(&[0u8; 8]).unwrap_err();
    assert_eq!(e.to_string(), "Invalid frame: Frame too short");
    let mut bytes = Chunker::default().chunk(b"abc")[0].to_bytes();
    bytes[0] = 9;
    let e = Frame::from_bytes(&bytes).unwrap_err();
    assert_eq!(e.to_string(), "Invalid frame type: 0x09");
    let mut bytes = Chunker::default().chunk(b"abc")[0].to_bytes();
    bytes[10] ^= 1;
    assert!(matches!(
        Frame::from_bytes(&bytes),
        Err(kassiber::error::TransportError::ChecksumMismatch { .. })
    ));
}

#[test]
fn frame_type_bytes_and_flags() {
    for b in 1u8..5 {
        let t = FrameType::from_u8(b).unwrap();
        assert_eq!(t.to_u8(), b);
    }
    assert!(FrameType::from_u8(0).is_err());
    assert!(FrameType::from_u8(5).is_err());
    assert!(FrameType::Single.is_first() && FrameType::Single.is_last());
    assert!(FrameType::First.is_first() && !FrameType::First.is_last());
    assert!(!FrameType::Continuation.is_first() && !FrameType::Continuation.is_last());
    assert!(FrameType::Last.is_last() && !FrameType::Last.is_first());
}

#[test]
fn reassemble_error_messages() {
    let mut none: Vec<Frame> = Vec::new();
    assert_eq!(Chunker::reassemble(&mut none).unwrap_err().to_string(), "Invalid frame: No frames");
    let frames = Chunker::new(20).chunk(&sample_data());
    let mut truncated: Vec<Frame> = frames.into_iter().skip(1).collect();
    assert_eq!(
        Chunker::reassemble(&mut truncated).unwrap_err().to_string(),
        "Invalid frame: Expected 10 chunks, got 9"
    );
}

#[test]
fn chunk_sizes_respect_limit() {
    let data: Vec<u8> = (0..1000u32).map(|i| (i * 31 % 251) as u8).collect();
    let frames = Chunker::new(100).chunk(&data);
    assert_eq!(frames.len(), 11);
    for (i, f) in frames.iter().enumerate() {
        assert!(f.payload.len() <= 91);
        assert_eq!(f.sequence as usize, i);
        assert_eq!(f.total_chunks, 11);
    }
}

#[test]
fn reassemble_any_reordering() {
    let data = sample_data();
    let frames = Chunker::new(20).chunk(&data);
    let n = frames.len();
    assert!(n > 3);
    for k in 0..n {
        let mut rotated = frames.clone();
        rotated.rotate_left(k);
        assert_eq!(Chunker::reassemble(&mut rotated).unwrap(), data);
        let mut swapped = frames.clone();
        swapped.swap(k, n - 1 - k);
        assert_eq!(Chunker::reassemble(&mut swapped).unwrap(), data);
    }
}
