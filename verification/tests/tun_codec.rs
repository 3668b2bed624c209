use bytes::{Bytes, BytesMut};
use vqn::codec::{NoRoom, TunPacketCodec};

#[test]
fn codec_keeps_its_frame_size() {
    assert_eq!(TunPacketCodec::new(1460).frame_size(), 1460);
    assert_eq!(TunPacketCodec::new(0).frame_size(), 0);
}

#[test]
fn decode_of_an_empty_buffer_gives_nothing() {
    let mut codec = TunPacketCodec::new(1500);
    let mut buf = BytesMut::new();
    assert_eq!(codec.decode(&mut buf), None);
    assert!(buf.is_empty());
}

#[test]
fn decode_takes_the_whole_buffer_as_one_packet() {
    let mut codec = TunPacketCodec::new(1500);
    let mut buf = BytesMut::from(&b"\x45\x00\x00\x1cabcdefgh"[..]);
    let packet = codec.decode(&mut buf);
    assert_eq!(packet, Some(Bytes::from_static(b"\x45\x00\x00\x1cabcdefgh")));
    assert!(buf.is_empty());
    assert!(buf.capacity() >= 1500);
    assert_eq!(codec.decode(&mut buf), None);
    assert_eq!(codec.frame_size(), 1500);
}

#[test]
fn encode_appends_the_packet() {
    let mut codec = TunPacketCodec::new(1500);
    let mut dst = BytesMut::new();
    codec.encode(Bytes::from_static(b"hello"), &mut dst);
    assert_eq!(&dst[..], b"hello");
    codec.encode(Bytes::from_static(b" world"), &mut dst);
    assert_eq!(&dst[..], b"hello world");
    codec.encode(Bytes::new(), &mut dst);
    assert_eq!(&dst[..], b"hello world");
}

#[test]
fn packet_survives_encode_and_decode_byte_for_byte() {
    let mut codec = TunPacketCodec::new(1434);
    let packet: Vec<u8> = (0..1400u32).map(|i| (i * 7 % 251) as u8).collect();
    let mut wire = BytesMut::new();
    codec.encode(Bytes::from(packet.clone()), &mut wire);
    let back = codec.decode(&mut wire);
    assert_eq!(back.as_deref(), Some(&packet[..]));
    assert!(wire.is_empty());
}

#[test]
fn try_decode_and_try_encode_do_the_same_where_there_is_room() {
    let mut codec = TunPacketCodec::new(1500);
    let mut wire = BytesMut::new();
    assert_eq!(codec.try_encode(Bytes::from_static(b"abc"), &mut wire), Ok(()));
    assert_eq!(&wire[..], b"abc");
    assert_eq!(codec.try_decode(&mut wire), Ok(Some(Bytes::from_static(b"abc"))));
    assert_eq!(codec.try_decode(&mut wire), Ok(None));
}

#[test]
fn try_decode_refuses_a_frame_size_that_no_buffer_can_hold() {
    let mut codec = TunPacketCodec::new(usize::MAX);
    let mut wire = BytesMut::from(&b"abc"[..]);
    assert_eq!(codec.try_decode(&mut wire), Err(NoRoom));
    assert_eq!(&wire[..], b"abc");
}
