use bytes::BytesMut;
use mem_stream::codec::{LengthPrefixCodec, MAX_FRAME_SIZE};
use mem_stream::ha::with_length;

#[test]
fn frames_come_out_one_by_one() {
    let mut codec = LengthPrefixCodec;
    let mut buf = BytesMut::new();
    codec.encode(&with_length(b"hello"), &mut buf).unwrap();
    assert_eq!(&buf[..], b"\x05\x00\x00\x00hello");
    codec.encode(&with_length(b""), &mut buf).unwrap();
    codec.encode(&with_length(b"world"), &mut buf).unwrap();
    assert_eq!(&codec.decode(&mut buf).unwrap().unwrap()[..], b"hello");
    assert_eq!(&codec.decode(&mut buf).unwrap().unwrap()[..], b"");
    assert_eq!(&codec.decode(&mut buf).unwrap().unwrap()[..], b"world");
    assert!(codec.decode(&mut buf).unwrap().is_none());
    assert!(buf.is_empty());
}

#[test]
fn part_of_a_frame_is_kept_for_later() {
    let mut codec = LengthPrefixCodec;
    let mut buf = BytesMut::from(&b"\x03\x00"[..]);
    assert!(codec.decode(&mut buf).unwrap().is_none());
    buf.extend_from_slice(b"\x00\x00ab");
    assert!(codec.decode(&mut buf).unwrap().is_none());
    assert_eq!(&buf[..], b"\x03\x00\x00\x00ab");
    buf.extend_from_slice(b"cd");
    assert_eq!(&codec.decode(&mut buf).unwrap().unwrap()[..], b"abc");
    assert_eq!(&buf[..], b"d");
}

#[test]
fn a_frame_may_not_be_too_large() {
    let mut codec = LengthPrefixCodec;
    let n = (MAX_FRAME_SIZE + 1) as u32;
    let mut buf = BytesMut::from(&n.to_le_bytes()[..]);
    let e = codec.decode(&mut buf).unwrap_err();
    assert_eq!(e.size, MAX_FRAME_SIZE + 1);
    assert_eq!(e.message(), "frame too large: 16777217 bytes");
    let mut buf = BytesMut::from(&(MAX_FRAME_SIZE as u32).to_le_bytes()[..]);
    assert!(codec.decode(&mut buf).unwrap().is_none());
}
