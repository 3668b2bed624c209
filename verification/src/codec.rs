//! Framing of the TUN device: one read is one packet, one packet is one
//! write.
//!
//! The buffers are those of the `bytes` crate. What its methods do to a
//! buffer's contents is stated in the contracts below, which Verus takes on
//! trust.

use bytes::{BufMut, Bytes, BytesMut};
use vstd::prelude::*;

verus! {

/// `bytes::BytesMut`, a growable buffer of bytes, taken as it is.
#[verifier::external_type_specification]
#[verifier::external_body]
pub struct ExBytesMut(BytesMut);

/// `bytes::Bytes`, a buffer of bytes that no longer changes, taken as it
/// is.
#[verifier::external_type_specification]
#[verifier::external_body]
pub struct ExBytes(Bytes);

/// The bytes that a growable buffer holds.
pub uninterp spec fn buffer_contents(buf: BytesMut) -> Seq<u8>;

/// The bytes that a frozen buffer holds.
pub uninterp spec fn packet_contents(packet: Bytes) -> Seq<u8>;

/// `BytesMut::is_empty`: whether the buffer holds no byte.
pub assume_specification[ BytesMut::is_empty ](buf: &BytesMut) -> (r: bool)
    ensures
        r == (buffer_contents(*buf).len() == 0),
;

/// `BytesMut::len`: the number of bytes that the buffer holds.
pub assume_specification[ BytesMut::len ](buf: &BytesMut) -> (r: usize)
    ensures
        r == buffer_contents(*buf).len(),
;

/// `Bytes::len`: the number of bytes that the packet holds.
pub assume_specification[ Bytes::len ](packet: &Bytes) -> (r: usize)
    ensures
        r == packet_contents(*packet).len(),
;

/// `BytesMut::split_to`: the first `at` bytes leave the buffer and come
/// back as a buffer of their own. It panics where `at` is past the end.
pub assume_specification[ BytesMut::split_to ](buf: &mut BytesMut, at: usize) -> (head: BytesMut)
    requires
        at <= buffer_contents(*old(buf)).len(),
    ensures
        buffer_contents(head) == buffer_contents(*old(buf)).subrange(0, at as int),
        buffer_contents(*final(buf)) == buffer_contents(*old(buf)).subrange(
            at as int,
            buffer_contents(*old(buf)).len() as int,
        ),
;

/// `BytesMut::reserve`: room is made for more bytes and the contents stay.
/// It panics where the capacity asked for cannot be had.
pub assume_specification[ BytesMut::reserve ](buf: &mut BytesMut, additional: usize)
    requires
        buffer_contents(*old(buf)).len() + additional <= isize::MAX,
    ensures
        buffer_contents(*final(buf)) == buffer_contents(*old(buf)),
;

/// `BytesMut::freeze`: the same bytes, no longer growable.
pub assume_specification[ BytesMut::freeze ](buf: BytesMut) -> (packet: Bytes)
    ensures
        packet_contents(packet) == buffer_contents(buf),
;

/// `BufMut::put` on a `BytesMut`, with a `Bytes` to take from: the bytes of
/// the packet are appended to the buffer.
#[verifier::external_body]
fn put_packet(dst: &mut BytesMut, item: Bytes)
    requires
        buffer_contents(*old(dst)).len() + packet_contents(item).len() <= isize::MAX,
    ensures
        buffer_contents(*final(dst)) == buffer_contents(*old(dst)) + packet_contents(item),
{
    dst.put(item)
}

/// What decoding makes of a buffer: nothing where it is empty, else all of
/// it as one packet, with nothing left behind.
pub open spec fn decoded(buf: Seq<u8>) -> (Option<Seq<u8>>, Seq<u8>) {
    if buf.len() == 0 {
        (None, buf)
    } else {
        (Some(buf), Seq::empty())
    }
}

/// What encoding makes of a buffer and a packet: the packet follows what
/// the buffer held.
pub open spec fn encoded(dst: Seq<u8>, item: Seq<u8>) -> Seq<u8> {
    dst + item
}

/// A packet encoded into an empty buffer is decoded as it was, byte for
/// byte, and the buffer is empty again.
pub proof fn lemma_encode_then_decode(item: Seq<u8>)
    requires
        item.len() > 0,
    ensures
        decoded(encoded(Seq::empty(), item)) == (Some(item), Seq::<u8>::empty()),
{
    assert(encoded(Seq::empty(), item) =~= item);
}

/// A buffer cannot hold what it would have to.
#[derive(Debug, Clone, Copy, PartialEq, Eq)]
pub struct NoRoom;

/// The codec of the TUN device: it takes each read as one whole IP packet
/// and writes each packet whole.
pub struct TunPacketCodec {
    mtu: usize,
}

impl TunPacketCodec {
    /// The room that the codec keeps ready for the next packet.
    pub closed spec fn mtu(&self) -> usize {
        self.mtu
    }

    /// A codec that keeps room for packets of `mtu` bytes.
    pub fn new(mtu: usize) -> (r: TunPacketCodec)
        ensures
            r.mtu() == mtu,
    {
        TunPacketCodec { mtu }
    }

    /// The room that the codec keeps ready for the next packet.
    pub fn frame_size(&self) -> (r: usize)
        ensures
            r == self.mtu(),
    {
        self.mtu
    }

    /// Takes the packet that was read into `buf`.
    ///
    /// An empty buffer holds no packet. Otherwise all of the buffer is the
    /// packet: the buffer is left empty, with room for the next one.
    pub fn decode(&mut self, buf: &mut BytesMut) -> (r: Option<Bytes>)
        requires
            old(self).mtu() <= isize::MAX,
        ensures
            final(self).mtu() == old(self).mtu(),
            match r {
                Some(packet) => Some(packet_contents(packet)),
                None => None,
            } == decoded(buffer_contents(*old(buf))).0,
            buffer_contents(*final(buf)) == decoded(buffer_contents(*old(buf))).1,
    {
        if buf.is_empty() {
            return None;
        }
        let ghost all = buffer_contents(*buf);
        let n = buf.len();
        let packet = buf.split_to(n);
        assert(buffer_contents(packet) =~= all);
        assert(buffer_contents(*buf) =~= Seq::<u8>::empty());
        buf.reserve(self.mtu);
        Some(packet.freeze())
    }

    /// Takes the packet that was read into `buf`, as `decode` does, where
    /// the codec can make room for the next packet; else leaves the buffer
    /// as it is and says so.
    pub fn try_decode(&mut self, buf: &mut BytesMut) -> (r: Result<Option<Bytes>, NoRoom>)
        ensures
            final(self).mtu() == old(self).mtu(),
            match r {
                Ok(packet) => old(self).mtu() <= isize::MAX && match packet {
                    Some(packet) => Some(packet_contents(packet)),
                    None => None,
                } == decoded(buffer_contents(*old(buf))).0 && buffer_contents(*final(buf))
                    == decoded(buffer_contents(*old(buf))).1,
                Err(_) => old(self).mtu() > isize::MAX && buffer_contents(*final(buf))
                    == buffer_contents(*old(buf)),
            },
    {
        if self.mtu > isize::MAX as usize {
            Err(NoRoom)
        } else {
            Ok(self.decode(buf))
        }
    }

    /// Appends `item` to `dst`, as `encode` does, where the two together
    /// are no more than a buffer can hold; else leaves `dst` as it is and
    /// says so.
    pub fn try_encode(&mut self, item: Bytes, dst: &mut BytesMut) -> (r: Result<(), NoRoom>)
        ensures
            final(self).mtu() == old(self).mtu(),
            match r {
                Ok(()) => buffer_contents(*old(dst)).len() + packet_contents(item).len()
                    <= isize::MAX && buffer_contents(*final(dst)) == encoded(
                    buffer_contents(*old(dst)),
                    packet_contents(item),
                ),
                Err(_) => buffer_contents(*old(dst)).len() + packet_contents(item).len()
                    > isize::MAX && buffer_contents(*final(dst)) == buffer_contents(*old(dst)),
            },
    {
        let held = dst.len();
        let more = item.len();
        if held > isize::MAX as usize || more > isize::MAX as usize - held {
            Err(NoRoom)
        } else {
            self.encode(item, dst);
            Ok(())
        }
    }

    /// Appends `item` to `dst`, to be written as one packet.
    pub fn encode(&mut self, item: Bytes, dst: &mut BytesMut)
        requires
            buffer_contents(*old(dst)).len() + packet_contents(item).len() <= isize::MAX,
        ensures
            final(self).mtu() == old(self).mtu(),
            buffer_contents(*final(dst)) == encoded(
                buffer_contents(*old(dst)),
                packet_contents(item),
            ),
    {
        let n = item.len();
        dst.reserve(n);
        put_packet(dst, item);
    }
}

} // verus!
