//! Low-latency video transport over datagrams, on a best-effort basis: a frame is
//! cut into chunks, each sent in a datagram of its own. A lost chunk costs one
//! frame.

use std::collections::HashMap;
use vstd::prelude::*;
use vstd::slice::slice_subrange;
use crate::bytes::{put_bytes, put_le16, put_le32};
#[allow(unused_imports)]
use crate::bytes::{le16, le32};
#[allow(unused_imports)]
use crate::protocol::flag_byte;

verus! {

broadcast use vstd::std_specs::hash::group_hash_axioms;

/// Bytes of a datagram before its chunk.
pub const HEADER: usize = 21;

/// Bytes of a frame in one datagram.
pub const PAYLOAD: usize = 1200;

/// The most chunks that a frame is cut into.
pub const MAX_CHUNKS: usize = 65535;

/// The bytes that every video datagram begins with: `TMV1`.
pub open spec fn magic() -> Seq<u8> {
    seq![0x54u8, 0x4D, 0x56, 0x31]
}

/// The bytes that a registration begins with: `TMREG`.
pub open spec fn registration_tag() -> Seq<u8> {
    seq![0x54u8, 0x4D, 0x52, 0x45, 0x47]
}

/// A datagram by which a client asks for video: the tag and at least one byte more.
pub open spec fn is_registration(datagram: Seq<u8>) -> bool {
    datagram.len() >= 6 && datagram.take(5) == registration_tag()
}

/// How many chunks a frame of `len` bytes is cut into.
pub open spec fn chunk_count(len: nat) -> nat {
    let needed = (len + PAYLOAD - 1) / PAYLOAD as int;
    if needed > MAX_CHUNKS { MAX_CHUNKS as nat } else { needed as nat }
}

/// The chunk with number `index` of a frame.
pub open spec fn chunk(data: Seq<u8>, index: int) -> Seq<u8> {
    let end = (index + 1) * PAYLOAD;
    data.subrange(index * PAYLOAD, if end > data.len() { data.len() as int } else { end })
}

/// What is sent of a frame along with each of its chunks.
#[derive(Clone, Copy, Debug)]
pub struct FrameInfo {
    pub frame_id: u32,
    pub keyframe: bool,
    pub width: u32,
    pub height: u32,
}

/// The datagram with the chunk of number `index` of a frame.
pub open spec fn datagram(info: FrameInfo, data: Seq<u8>, index: int) -> Seq<u8> {
    magic() + le32(info.frame_id) + le16(index as u16) + le16(chunk_count(data.len()) as u16)
        + seq![flag_byte(info.keyframe)] + le32(info.width) + le32(info.height) + chunk(data, index)
}

/// The datagrams of a frame.
pub open spec fn datagrams(info: FrameInfo, data: Seq<u8>) -> Seq<Seq<u8>> {
    Seq::new(chunk_count(data.len()), |i: int| datagram(info, data, i))
}

/// Vectors of bytes as sequences of bytes.
pub open spec fn contents(vectors: Seq<Vec<u8>>) -> Seq<Seq<u8>> {
    Seq::new(vectors.len(), |i: int| vectors[i]@)
}

fn make_datagram(info: FrameInfo, index: u16, total: u16, part: &[u8]) -> (r: Vec<u8>)
    ensures
        r@ == magic() + le32(info.frame_id) + le16(index) + le16(total) + seq![
            flag_byte(info.keyframe),
        ] + le32(info.width) + le32(info.height) + part@,
{
    let mut packet: Vec<u8> = Vec::new();
    packet.push(0x54);
    packet.push(0x4D);
    packet.push(0x56);
    packet.push(0x31);
    assert(packet@ =~= magic());
    put_le32(&mut packet, info.frame_id);
    put_le16(&mut packet, index);
    put_le16(&mut packet, total);
    let flag: u8 = if info.keyframe { 1 } else { 0 };
    packet.push(flag);
    assert(packet@ =~= magic() + le32(info.frame_id) + le16(index) + le16(total) + seq![
        flag_byte(info.keyframe),
    ]);
    put_le32(&mut packet, info.width);
    put_le32(&mut packet, info.height);
    put_bytes(&mut packet, part);
    packet
}

/// Cuts a frame into datagrams.
pub fn packetize(info: FrameInfo, data: &[u8]) -> (r: Vec<Vec<u8>>)
    ensures
        contents(r@) == datagrams(info, data@),
{
    let n: usize = data.len();
    let needed: usize = n / PAYLOAD + if n % PAYLOAD == 0 { 0 } else { 1 };
    let total: usize = if needed > MAX_CHUNKS { MAX_CHUNKS } else { needed };
    assert(total == chunk_count(data@.len()));
    let mut out: Vec<Vec<u8>> = Vec::new();
    let mut index: usize = 0;
    while index < total
        invariant
            n == data@.len(),
            index <= total,
            total <= MAX_CHUNKS,
            total == chunk_count(data@.len()),
            contents(out@) =~= datagrams(info, data@).take(index as int),
        decreases total - index,
    {
        let start: usize = index * PAYLOAD;
        let end: usize = if n - start < PAYLOAD { n } else { start + PAYLOAD };
        let part: &[u8] = slice_subrange(data, start, end);
        assert(part@ =~= chunk(data@, index as int));
        let packet: Vec<u8> = make_datagram(info, index as u16, total as u16, part);
        let ghost before = out@;
        out.push(packet);
        proof {
            assert(packet@ == datagram(info, data@, index as int));
            assert(contents(out@) =~= contents(before).push(packet@));
        }
        index = index + 1;
    }
    assert(contents(out@) =~= datagrams(info, data@));
    out
}

/// Tells whether a datagram is a registration.
pub fn registers(datagram: &[u8]) -> (r: bool)
    ensures
        r == is_registration(datagram@),
{
    if datagram.len() < 6 {
        return false;
    }
    let same: bool = datagram[0] == 0x54 && datagram[1] == 0x4D && datagram[2] == 0x52 && datagram[3]
        == 0x45 && datagram[4] == 0x47;
    proof {
        let tag = registration_tag();
        let head = datagram@.take(5);
        if same {
            assert(head =~= tag);
        } else if head == tag {
            assert(head[0] == tag[0] && head[1] == tag[1] && head[2] == tag[2] && head[3] == tag[3]
                && head[4] == tag[4]);
        }
    }
    same
}

/// The clients that have asked for video: for each address the port that it last
/// asked from. (The socket is bound to the IPv4 wildcard address, so that addresses
/// are those of IPv4.)
pub struct VideoUdp {
    clients: HashMap<u32, u16>,
}

impl VideoUdp {
    /// The registered clients, port by address.
    pub closed spec fn view(&self) -> Map<u32, u16> {
        self.clients@
    }

    /// No client yet.
    pub fn new() -> (r: Self)
        ensures
            r@ == Map::<u32, u16>::empty(),
    {
        VideoUdp { clients: HashMap::new() }
    }

    /// Takes in a datagram that came from the given address and port. Tells whether
    /// it was a registration.
    pub fn receive(&mut self, ip: u32, port: u16, datagram: &[u8]) -> (r: bool)
        ensures
            r == is_registration(datagram@),
            final(self)@ == (if is_registration(datagram@) {
                old(self)@.insert(ip, port)
            } else {
                old(self)@
            }),
    {
        if registers(datagram) {
            self.clients.insert(ip, port);
            true
        } else {
            false
        }
    }

    /// Tells whether a client is registered.
    pub fn has_client(&self, peer_ip: u32) -> (r: bool)
        ensures
            r == self@.dom().contains(peer_ip),
    {
        self.clients.contains_key(&peer_ip)
    }

    /// Forgets a client, as its control connection ends.
    pub fn unregister(&mut self, peer_ip: u32)
        ensures
            final(self)@ == old(self)@.remove(peer_ip),
    {
        self.clients.remove(&peer_ip);
    }

    /// The datagrams to send for a frame and the port of the client to send them
    /// to; `None` for a client that is not registered.
    pub fn send_frame(
        &self,
        peer_ip: u32,
        frame_id: u32,
        keyframe: bool,
        width: u32,
        height: u32,
        data: &[u8],
    ) -> (r: Option<(u16, Vec<Vec<u8>>)>)
        ensures
            match r {
                Some(sent) => {
                    &&& self@.dom().contains(peer_ip)
                    &&& sent.0 == self@[peer_ip]
                    &&& contents(sent.1@) == datagrams(
                        (FrameInfo { frame_id, keyframe, width, height }),
                        data@,
                    )
                },
                None => !self@.dom().contains(peer_ip),
            },
    {
        match self.clients.get(&peer_ip) {
            Some(port) => {
                let info = FrameInfo { frame_id, keyframe, width, height };
                Some((*port, packetize(info, data)))
            },
            None => None,
        }
    }
}

/// The chunks of datagrams, one after the other.
pub open spec fn joined(packets: Seq<Seq<u8>>) -> Seq<u8>
    decreases packets.len(),
{
    if packets.len() == 0 {
        seq![]
    } else {
        joined(packets.drop_last()) + packets.last().skip(HEADER as int)
    }
}

proof fn lemma_chunk_of(info: FrameInfo, data: Seq<u8>, index: int)
    ensures
        datagram(info, data, index).skip(HEADER as int) == chunk(data, index),
{
    let header = magic() + le32(info.frame_id) + le16(index as u16) + le16(
        chunk_count(data.len()) as u16,
    ) + seq![flag_byte(info.keyframe)] + le32(info.width) + le32(info.height);
    assert(header.len() == HEADER);
    assert((header + chunk(data, index)).skip(HEADER as int) =~= chunk(data, index));
}

proof fn lemma_joined_prefix(info: FrameInfo, data: Seq<u8>, count: int)
    requires
        0 <= count <= chunk_count(data.len()),
    ensures
        joined(datagrams(info, data).take(count)) == data.take(
            if count * PAYLOAD > data.len() { data.len() as int } else { count * PAYLOAD },
        ),
    decreases count,
{
    let all = datagrams(info, data);
    if count == 0 {
        assert(data.take(0) =~= joined(all.take(0)));
    } else {
        lemma_joined_prefix(info, data, count - 1);
        assert(all.take(count).drop_last() =~= all.take(count - 1));
        assert(all.take(count).last() == datagram(info, data, count - 1));
        lemma_chunk_of(info, data, count - 1);
        let end = if count * PAYLOAD > data.len() { data.len() as int } else { count * PAYLOAD };
        assert(data.take((count - 1) * PAYLOAD) + chunk(data, count - 1) =~= data.take(end));
    }
}

/// A frame survives its datagrams: joined in the order of their numbers, the chunks
/// are the frame. (Of a frame of more than 65535 chunks, as much as those hold.)
pub proof fn lemma_frame_reassembles(info: FrameInfo, data: Seq<u8>)
    ensures
        data.len() <= MAX_CHUNKS * PAYLOAD ==> joined(datagrams(info, data)) == data,
        data.len() > MAX_CHUNKS * PAYLOAD ==> joined(datagrams(info, data)) == data.take(
            MAX_CHUNKS * PAYLOAD,
        ),
{
    let count = chunk_count(data.len()) as int;
    lemma_joined_prefix(info, data, count);
    assert(datagrams(info, data).take(count) =~= datagrams(info, data));
    if data.len() <= MAX_CHUNKS * PAYLOAD {
        assert(data.take(data.len() as int) =~= data);
    }
}

/// No datagram is larger than its header and one chunk, and none is without a chunk.
pub proof fn lemma_datagram_size(info: FrameInfo, data: Seq<u8>, index: int)
    requires
        0 <= index < chunk_count(data.len()),
    ensures
        HEADER < datagram(info, data, index).len() <= HEADER + PAYLOAD,
{
}

/// Every datagram tells which frame it belongs to, which of its chunks it holds and
/// how many there are, so that a loss is noticed and costs no other frame.
pub proof fn lemma_datagram_is_labelled(info: FrameInfo, data: Seq<u8>, index: int)
    requires
        0 <= index < chunk_count(data.len()),
    ensures
        ({
            let packet = datagrams(info, data)[index];
            &&& packet.take(4) == magic()
            &&& crate::bytes::le32_at(packet, 4) == info.frame_id
            &&& packet[8] + 0x100 * packet[9] == index
            &&& packet[10] + 0x100 * packet[11] == chunk_count(data.len())
            &&& (packet[12] != 0) == info.keyframe
            &&& crate::bytes::le32_at(packet, 13) == info.width
            &&& crate::bytes::le32_at(packet, 17) == info.height
        }),
{
    let packet = datagram(info, data, index);
    assert(packet.take(4) =~= magic());
    assert(packet.subrange(4, 8) =~= le32(info.frame_id));
    crate::bytes::lemma_le32_at(packet, 4, info.frame_id);
    assert(packet.subrange(13, 17) =~= le32(info.width));
    crate::bytes::lemma_le32_at(packet, 13, info.width);
    assert(packet.subrange(17, 21) =~= le32(info.height));
    crate::bytes::lemma_le32_at(packet, 17, info.height);
    assert(packet[8] == le16(index as u16)[0] && packet[9] == le16(index as u16)[1]);
    let total = chunk_count(data.len()) as u16;
    assert(packet[10] == le16(total)[0] && packet[11] == le16(total)[1]);
}

/// A frame is cut into chunks of 1200 bytes, as many as it takes and no more than
/// 65535: each but the last is full, and each holds the bytes that are its turn.
pub proof fn lemma_chunks_are_in_turn(info: FrameInfo, data: Seq<u8>, index: int)
    requires
        0 <= index < datagrams(info, data).len(),
    ensures
        ({
            let count = datagrams(info, data).len();
            let packet = datagrams(info, data)[index];
            let from = 1200 * index;
            let size = packet.len() - 21;
            &&& count <= 65535
            &&& 1200 * (count - 1) < data.len()
            &&& count < 65535 ==> data.len() <= 1200 * count
            &&& 0 < size <= 1200
            &&& from + size <= data.len()
            &&& size < 1200 ==> from + size == data.len()
            &&& packet.skip(21) == data.subrange(from, from + size)
        }),
{
    lemma_chunk_of(info, data, index);
}

/// A frame without bytes takes no datagram, and one with bytes takes some.
pub proof fn lemma_empty_frame(info: FrameInfo, data: Seq<u8>)
    ensures
        datagrams(info, data).len() == 0 <==> data.len() == 0,
{
}

/// Byte by byte, the header of a datagram is `TMV1`, the number of the frame, the number
/// of the chunk and of all chunks, 1 for a keyframe and 0 for another frame, width and
/// height, the lowest byte first.
pub proof fn lemma_header_layout(info: FrameInfo, data: Seq<u8>, index: int)
    requires
        0 <= index < datagrams(info, data).len(),
    ensures
        ({
            let p = datagrams(info, data)[index];
            &&& p[0] == 0x54 && p[1] == 0x4D && p[2] == 0x56 && p[3] == 0x31
            &&& p[4] + 256 * p[5] + 65536 * p[6] + 16777216 * p[7] == info.frame_id
            &&& p[8] + 256 * p[9] == index
            &&& p[10] + 256 * p[11] == datagrams(info, data).len()
            &&& p[12] == (if info.keyframe {
                1u8
            } else {
                0u8
            })
            &&& p[13] + 256 * p[14] + 65536 * p[15] + 16777216 * p[16] == info.width
            &&& p[17] + 256 * p[18] + 65536 * p[19] + 16777216 * p[20] == info.height
        }),
{
    let p = datagram(info, data, index);
    lemma_datagram_is_labelled(info, data, index);
    let head = p.take(4);
    let code = magic();
    assert(head[0] == p[0] && head[1] == p[1] && head[2] == p[2] && head[3] == p[3]);
    assert(code[0] == 0x54 && code[1] == 0x4D && code[2] == 0x56 && code[3] == 0x31);
}

/// A registration is `TMREG` and at least one byte more, and nothing else is one.
pub proof fn lemma_registration(bytes: Seq<u8>)
    ensures
        is_registration(bytes) <==> bytes.len() >= 6 && bytes[0] == 0x54 && bytes[1] == 0x4D
            && bytes[2] == 0x52 && bytes[3] == 0x45 && bytes[4] == 0x47,
{
    let head = bytes.take(5);
    let tag = registration_tag();
    if bytes.len() >= 6 {
        assert(head[0] == bytes[0] && head[1] == bytes[1] && head[2] == bytes[2] && head[3]
            == bytes[3] && head[4] == bytes[4]);
        if bytes[0] == 0x54 && bytes[1] == 0x4D && bytes[2] == 0x52 && bytes[3] == 0x45 && bytes[4]
            == 0x47 {
            assert(head =~= tag);
        } else if head == tag {
            assert(tag[0] == 0x54 && tag[1] == 0x4D && tag[2] == 0x52 && tag[3] == 0x45 && tag[4]
                == 0x47);
        }
    }
}

/// The contents of vectors are those of each of them, in their order.
pub proof fn lemma_contents(vectors: Seq<Vec<u8>>, i: int)
    requires
        0 <= i < vectors.len(),
    ensures
        contents(vectors).len() == vectors.len(),
        contents(vectors)[i] == vectors[i]@,
{
}

} // verus!
