use kassiber::wire::{push_bytes_field, push_varint, read_bytes, read_varint};

#[test]
fn varint_exact_bytes() {
    let mut v = Vec::new();
    push_varint(&mut v, 300);
    assert_eq!(v, vec![0xAC, 0x02]);
    let mut w = Vec::new();
    push_varint(&mut w, u64::MAX);
    assert_eq!(w.len(), 10);
    assert_eq!(w[9], 1);
    assert_eq!(read_varint(&w, 0), Some((u64::MAX, 10)));
}

#[test]
fn varint_rejects_overlong_and_truncated() {
    let bad = [0xFFu8, 0xFF, 0xFF, 0xFF, 0xFF, 0xFF, 0xFF, 0xFF, 0xFF, 0x02];
    assert_eq!(read_varint(&bad, 0), None);
    assert_eq!(read_varint(&[0x80], 0), None);
    assert_eq!(read_varint(&[0x80, 0x00], 0), Some((0, 2)));
}

#[test]
fn bytes_field_roundtrip_matches_postcard() {
    let data = vec![42u8; 1000];
    let mut v = Vec::new();
    push_bytes_field(&mut v, &data);
    assert_eq!(v, postcard::to_allocvec(&data).unwrap());
    let (back, end) = read_bytes(&v, 0).unwrap();
    assert_eq!(back, data);
    assert_eq!(end, v.len());
    assert!(read_bytes(&v[..v.len() - 1], 0).is_none());
}
