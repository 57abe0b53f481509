//! Wire protocol between the server and the tablet.
//!
//! Every message is preceded by its length and little-endian on the wire:
//!
//! ```text
//! [ u32 length ][ u8 message_type ][ payload ... ]
//! ```
//!
//! where the length counts the type byte and the payload.

use vstd::prelude::*;
use vstd::slice::slice_subrange;
use crate::bytes::{get_le32, put_bytes, put_le16, put_le32};
#[allow(unused_imports)]
use crate::bytes::{le16, le32, le32_at, lemma_le32_at};

verus! {

/// Handshake: sent by the server right after a client connects.
pub const MSG_HELLO: u8 = 0x00;

/// Server to client: one encoded video access unit (H.264 with start codes).
pub const MSG_VIDEO: u8 = 0x01;

/// Server to client: stream status or error text.
pub const MSG_INFO: u8 = 0x02;

/// Client to server: a batch of touch events.
pub const MSG_TOUCH: u8 = 0x03;

/// Client to server: keep-alive.
pub const MSG_PING: u8 = 0x04;

/// The largest length that is read.
pub const MAX_MESSAGE: usize = 16 * 1024 * 1024;

/// One touch event: finger number, whether the finger is down, and its two
/// normalized coordinates, each as the bit pattern of a single-precision number.
pub type TouchEvent = (u8, bool, u32, u32);

/// Bytes of a touch event on the wire.
pub const EVENT_BYTES: usize = 10;

/// Why no message could be read.
#[derive(Clone, Copy, Debug, PartialEq, Eq, Structural)]
pub enum ReadError {
    /// The stream ended in the middle of a message.
    UnexpectedEof,
    /// The length was zero or above the limit.
    BadLength,
}

/// A message as it stands on the wire. The length field has 32 bits.
pub open spec fn message(msg_type: u8, payload: Seq<u8>) -> Seq<u8> {
    le32(((payload.len() + 1) % 0x1_0000_0000) as u32) + seq![msg_type] + payload
}

/// Makes the handshake message, which carries the port of the video datagrams.
pub fn make_hello(udp_port: u16) -> (r: Vec<u8>)
    ensures
        r@ == message(MSG_HELLO, le16(udp_port)),
{
    let mut port: Vec<u8> = Vec::new();
    put_le16(&mut port, udp_port);
    assert(port@ =~= le16(udp_port));
    let mut out: Vec<u8> = Vec::new();
    write_message(&mut out, MSG_HELLO, port.as_slice());
    assert(out@ =~= message(MSG_HELLO, le16(udp_port)));
    out
}

/// The payload of the handshake that opens a session: the port of the video
/// datagrams, and behind it the size of the monitor.
pub open spec fn hello_payload(udp_port: u16, width: u32, height: u32) -> Seq<u8> {
    le16(udp_port) + le32(width) + le32(height)
}

/// Makes the handshake message that opens a session. It begins as the one of
/// `make_hello` does, so that who reads the port alone finds it in the same place.
pub fn make_monitor_hello(udp_port: u16, width: u32, height: u32) -> (r: Vec<u8>)
    ensures
        r@ == message(MSG_HELLO, hello_payload(udp_port, width, height)),
{
    let mut payload: Vec<u8> = Vec::new();
    put_le16(&mut payload, udp_port);
    put_le32(&mut payload, width);
    put_le32(&mut payload, height);
    assert(payload@ =~= hello_payload(udp_port, width, height));
    let mut out: Vec<u8> = Vec::new();
    write_message(&mut out, MSG_HELLO, payload.as_slice());
    assert(out@ =~= message(MSG_HELLO, hello_payload(udp_port, width, height)));
    out
}

/// The length field of a message with a payload of the given size.
fn length_field(size: usize) -> (r: u32)
    ensures
        r == ((size + 1) % 0x1_0000_0000) as u32,
{
    let rest: u64 = size as u64 % 0x1_0000_0000;
    if rest == 0xFFFF_FFFF {
        0
    } else {
        rest as u32 + 1
    }
}

proof fn lemma_regroup(before: Seq<u8>, field: Seq<u8>, msg_type: u8, payload: Seq<u8>)
    ensures
        (before + field).push(msg_type) + payload == before + (field + seq![msg_type] + payload),
{
    assert((before + field).push(msg_type) + payload =~= before + (field + seq![msg_type]
        + payload));
}

/// Appends one message to `out`.
pub fn write_message(out: &mut Vec<u8>, msg_type: u8, payload: &[u8])
    ensures
        final(out)@ == old(out)@ + message(msg_type, payload@),
{
    let len: u32 = length_field(payload.len());
    proof {
        lemma_regroup(out@, le32(len), msg_type, payload@);
    }
    put_le32(out, len);
    out.push(msg_type);
    put_bytes(out, payload);
}

/// The length that a message announces, by the four bytes at `at`.
pub open spec fn announced(stream: Seq<u8>, at: int) -> int {
    le32_at(stream, at)
}

/// A length that is read.
pub open spec fn acceptable(length: int) -> bool {
    1 <= length <= MAX_MESSAGE
}

/// Reads the length of a message from the four bytes before it.
pub fn message_length(header: &[u8]) -> (r: Result<usize, ReadError>)
    requires
        header@.len() == 4,
    ensures
        r == (if acceptable(announced(header@, 0)) {
            Ok::<usize, ReadError>(announced(header@, 0) as usize)
        } else {
            Err(ReadError::BadLength)
        }),
{
    let len: usize = get_le32(header, 0) as usize;
    if len < 1 || len > MAX_MESSAGE {
        return Err(ReadError::BadLength);
    }
    Ok(len)
}

/// Splits the body of a message into its type and its payload.
pub fn split_body(body: &[u8]) -> (r: (u8, Vec<u8>))
    requires
        body@.len() >= 1,
    ensures
        r.0 == body@[0],
        r.1@ == body@.skip(1),
{
    let mut payload: Vec<u8> = Vec::new();
    put_bytes(&mut payload, slice_subrange(body, 1, body.len()));
    assert(payload@ =~= body@.skip(1));
    (body[0], payload)
}

/// Reads one message from the bytes of a stream, from `pos` on, and moves `pos`
/// behind what was read: behind the message, behind a length that is not
/// accepted, or to the end of a stream that is too short.
pub fn read_message(stream: &[u8], pos: &mut usize) -> (r: Result<(u8, Vec<u8>), ReadError>)
    requires
        *old(pos) <= stream@.len(),
    ensures
        ({
            let at = *old(pos) as int;
            let length = announced(stream@, at);
            if at + 4 > stream@.len() {
                r == Err::<(u8, Vec<u8>), ReadError>(ReadError::UnexpectedEof) && *final(pos)
                    == stream@.len()
            } else if !acceptable(length) {
                r == Err::<(u8, Vec<u8>), ReadError>(ReadError::BadLength) && *final(pos) == at + 4
            } else if at + 4 + length > stream@.len() {
                r == Err::<(u8, Vec<u8>), ReadError>(ReadError::UnexpectedEof) && *final(pos)
                    == stream@.len()
            } else {
                &&& *final(pos) == at + 4 + length
                &&& r matches Ok(m) && m.0 == stream@[at + 4] && m.1@ == stream@.subrange(
                    at + 5,
                    at + 4 + length,
                )
            }
        }),
{
    let at: usize = *pos;
    let n: usize = stream.len();
    if n - at < 4 {
        *pos = n;
        return Err(ReadError::UnexpectedEof);
    }
    let header: &[u8] = slice_subrange(stream, at, at + 4);
    proof {
        assert(announced(header@, 0) == announced(stream@, at as int));
    }
    match message_length(header) {
        Err(e) => {
            *pos = at + 4;
            Err(e)
        },
        Ok(len) => {
            if n - at - 4 < len {
                *pos = n;
                return Err(ReadError::UnexpectedEof);
            }
            let body: &[u8] = slice_subrange(stream, at + 4, at + 4 + len);
            *pos = at + 4 + len;
            proof {
                assert(body@.skip(1) =~= stream@.subrange(at + 5, at + 4 + len));
            }
            Ok(split_body(body))
        },
    }
}

/// A truth value as a byte.
pub open spec fn flag_byte(flag: bool) -> u8 {
    if flag { 1 } else { 0 }
}

fn put_flag(out: &mut Vec<u8>, flag: bool)
    ensures
        final(out)@ == old(out)@.push(flag_byte(flag)),
{
    if flag {
        out.push(1);
    } else {
        out.push(0);
    }
}

/// The payload of a video message: keyframe flag, width, height, access unit.
pub open spec fn video_payload(keyframe: bool, width: u32, height: u32, h264: Seq<u8>) -> Seq<u8> {
    seq![flag_byte(keyframe)] + le32(width) + le32(height) + h264
}

/// Makes the payload of a video message.
pub fn make_video_payload(keyframe: bool, width: u32, height: u32, h264: &[u8]) -> (r: Vec<u8>)
    ensures
        r@ == video_payload(keyframe, width, height, h264@),
{
    let mut p: Vec<u8> = Vec::new();
    put_flag(&mut p, keyframe);
    put_le32(&mut p, width);
    put_le32(&mut p, height);
    put_bytes(&mut p, h264);
    assert(p@ =~= video_payload(keyframe, width, height, h264@));
    p
}

/// A touch event as it stands on the wire.
pub open spec fn event_bytes(event: TouchEvent) -> Seq<u8> {
    seq![event.0, flag_byte(event.1)] + le32(event.2) + le32(event.3)
}

/// Touch events one after the other.
pub open spec fn events_bytes(events: Seq<TouchEvent>) -> Seq<u8>
    decreases events.len(),
{
    if events.len() == 0 {
        seq![]
    } else {
        events_bytes(events.drop_last()) + event_bytes(events.last())
    }
}

/// The payload of a touch message: the number of events in one byte, then the events.
pub open spec fn touch_payload(events: Seq<TouchEvent>) -> Seq<u8> {
    seq![(events.len() % 0x100) as u8] + events_bytes(events)
}

/// Makes the payload of a touch message.
pub fn encode_touch(events: &[TouchEvent]) -> (r: Vec<u8>)
    ensures
        r@ == touch_payload(events@),
{
    let mut p: Vec<u8> = Vec::new();
    p.push((events.len() % 0x100) as u8);
    let mut i: usize = 0;
    proof {
        assert(events@.take(0) =~= seq![]);
        assert(p@ =~= seq![(events@.len() % 0x100) as u8] + events_bytes(events@.take(0)));
    }
    while i < events.len()
        invariant
            i <= events.len(),
            p@ == seq![(events@.len() % 0x100) as u8] + events_bytes(events@.take(i as int)),
        decreases events.len() - i,
    {
        let event: TouchEvent = events[i];
        let ghost before = p@;
        p.push(event.0);
        put_flag(&mut p, event.1);
        put_le32(&mut p, event.2);
        put_le32(&mut p, event.3);
        proof {
            assert(p@ =~= before + event_bytes(event));
            let next = events@.take(i + 1);
            assert(next.drop_last() =~= events@.take(i as int));
            assert(next.last() == event);
            assert(before + event_bytes(event) =~= seq![(events@.len() % 0x100) as u8] + (
            events_bytes(events@.take(i as int)) + event_bytes(event)));
        }
        i = i + 1;
    }
    assert(events@.take(i as int) =~= events@);
    p
}

/// Makes a touch message, ready to be sent.
pub fn make_touch_message(events: &[TouchEvent]) -> (r: Vec<u8>)
    ensures
        r@ == message(MSG_TOUCH, touch_payload(events@)),
{
    let payload: Vec<u8> = encode_touch(events);
    let mut out: Vec<u8> = Vec::new();
    write_message(&mut out, MSG_TOUCH, payload.as_slice());
    assert(out@ =~= message(MSG_TOUCH, touch_payload(events@)));
    out
}

/// The touch event whose bytes stand at `at`. Any byte but zero is a finger that is down.
pub open spec fn event_at(payload: Seq<u8>, at: int) -> TouchEvent {
    (
        payload[at],
        payload[at + 1] != 0,
        le32_at(payload, at + 2) as u32,
        le32_at(payload, at + 6) as u32,
    )
}

/// The events of a touch payload; `None` where there are fewer than it announces.
/// Bytes behind them are ignored.
pub open spec fn touch_events(payload: Seq<u8>) -> Option<Seq<TouchEvent>> {
    if payload.len() < 1 || payload.len() < 1 + payload[0] * EVENT_BYTES {
        None
    } else {
        Some(
            Seq::new(
                payload[0] as nat,
                |i: int| event_at(payload, 1 + i * EVENT_BYTES),
            ),
        )
    }
}

/// Reads the payload of a touch message.
pub fn decode_touch(payload: &[u8]) -> (r: Option<Vec<TouchEvent>>)
    ensures
        match r {
            Some(events) => touch_events(payload@) == Some(events@),
            None => touch_events(payload@) is None,
        },
{
    if payload.len() < 1 {
        return None;
    }
    let count: usize = payload[0] as usize;
    if payload.len() < 1 + count * EVENT_BYTES {
        return None;
    }
    let mut out: Vec<TouchEvent> = Vec::new();
    let ghost expected = touch_events(payload@).unwrap();
    let mut i: usize = 0;
    while i < count
        invariant
            i <= count,
            count == payload@[0],
            payload@.len() >= 1 + count * EVENT_BYTES,
            expected == touch_events(payload@).unwrap(),
            out@ =~= expected.take(i as int),
        decreases count - i,
    {
        let base: usize = 1 + i * EVENT_BYTES;
        let x: u32 = get_le32(payload, base + 2);
        let y: u32 = get_le32(payload, base + 6);
        out.push((payload[base], payload[base + 1] != 0, x, y));
        i = i + 1;
    }
    assert(out@ =~= expected);
    Some(out)
}

/// What is written is read back: wherever a message of an acceptable length stands
/// in a stream, reading there gives its type and payload, and the position behind
/// it. (Over the terms in which `read_message` says what it returns.)
pub proof fn lemma_message_read_back(
    before: Seq<u8>,
    msg_type: u8,
    payload: Seq<u8>,
    after: Seq<u8>,
)
    requires
        payload.len() + 1 <= MAX_MESSAGE,
    ensures
        ({
            let stream = before + message(msg_type, payload) + after;
            let at = before.len() as int;
            let length = announced(stream, at);
            &&& acceptable(length)
            &&& at + 4 + length == (before + message(msg_type, payload)).len() <= stream.len()
            &&& stream[at + 4] == msg_type
            &&& stream.subrange(at + 5, at + 4 + length) == payload
        }),
{
    let stream = before + message(msg_type, payload) + after;
    let at = before.len() as int;
    let field = le32((payload.len() + 1) as u32);
    assert(stream.subrange(at, at + 4) =~= field);
    lemma_le32_at(stream, at, (payload.len() + 1) as u32);
    assert(stream.subrange(at + 5, at + 5 + payload.len()) =~= payload);
}

proof fn lemma_events_bytes(events: Seq<TouchEvent>, i: int)
    requires
        0 <= i < events.len(),
    ensures
        events_bytes(events).len() == events.len() * EVENT_BYTES,
        events_bytes(events).subrange(i * EVENT_BYTES, (i + 1) * EVENT_BYTES) == event_bytes(
            events[i],
        ),
    decreases events.len(),
{
    let head = events.drop_last();
    lemma_events_bytes_len(events);
    lemma_events_bytes_len(head);
    if i < head.len() {
        lemma_events_bytes(head, i);
        assert(events_bytes(events).subrange(i * EVENT_BYTES, (i + 1) * EVENT_BYTES)
            =~= events_bytes(head).subrange(i * EVENT_BYTES, (i + 1) * EVENT_BYTES));
    } else {
        assert(events_bytes(events).subrange(i * EVENT_BYTES, (i + 1) * EVENT_BYTES)
            =~= event_bytes(events[i]));
    }
}

proof fn lemma_events_bytes_len(events: Seq<TouchEvent>)
    ensures
        events_bytes(events).len() == events.len() * EVENT_BYTES,
    decreases events.len(),
{
    if events.len() > 0 {
        lemma_events_bytes_len(events.drop_last());
    }
}

/// Touch events survive the wire: up to 255 events are read back as they were
/// written. (Of a longer list, whose number does not fit into its byte, as many of
/// the first events as the byte says.)
pub proof fn lemma_touch_read_back(events: Seq<TouchEvent>)
    ensures
        touch_events(touch_payload(events)) == Some(events.take((events.len() % 0x100) as int)),
        events.len() < 0x100 ==> touch_events(touch_payload(events)) == Some(events),
{
    let payload = touch_payload(events);
    let count = (events.len() % 0x100) as int;
    lemma_events_bytes_len(events);
    assert(payload[0] == count);
    let read = touch_events(payload).unwrap();
    assert forall|i: int| 0 <= i < count implies read[i] == events[i] by {
        let at = 1 + i * EVENT_BYTES;
        lemma_events_bytes(events, i);
        let bytes = event_bytes(events[i]);
        assert(payload.subrange(at, at + 10) =~= bytes);
        assert(payload[at] == payload.subrange(at, at + 10)[0]);
        assert(payload[at + 1] == payload.subrange(at, at + 10)[1]);
        assert(payload.subrange(at + 2, at + 6) =~= bytes.subrange(2, 6));
        assert(bytes.subrange(2, 6) =~= le32(events[i].2));
        lemma_le32_at(payload, at + 2, events[i].2);
        assert(payload.subrange(at + 6, at + 10) =~= bytes.subrange(6, 10));
        assert(bytes.subrange(6, 10) =~= le32(events[i].3));
        lemma_le32_at(payload, at + 6, events[i].3);
    }
    assert(read =~= events.take(count));
    if events.len() < 0x100 {
        assert(events.take(count) =~= events);
    }
}

/// The fields of a video payload can be told apart again.
pub proof fn lemma_video_payload_fields(keyframe: bool, width: u32, height: u32, h264: Seq<u8>)
    ensures
        ({
            let payload = video_payload(keyframe, width, height, h264);
            &&& payload.len() == 9 + h264.len()
            &&& (payload[0] != 0) == keyframe
            &&& le32_at(payload, 1) == width
            &&& le32_at(payload, 5) == height
            &&& payload.skip(9) == h264
        }),
{
    let payload = video_payload(keyframe, width, height, h264);
    assert(payload.subrange(1, 5) =~= le32(width));
    lemma_le32_at(payload, 1, width);
    assert(payload.subrange(5, 9) =~= le32(height));
    lemma_le32_at(payload, 5, height);
    assert(payload.skip(9) =~= h264);
}

/// The fields of the handshake can be told apart again, the port where it stands in
/// the shorter handshake too.
pub proof fn lemma_hello_fields(udp_port: u16, width: u32, height: u32)
    ensures
        ({
            let payload = hello_payload(udp_port, width, height);
            &&& payload.len() == 10
            &&& payload.take(2) == le16(udp_port)
            &&& payload[0] + 0x100 * payload[1] == udp_port
            &&& le32_at(payload, 2) == width
            &&& le32_at(payload, 6) == height
        }),
{
    let payload = hello_payload(udp_port, width, height);
    assert(payload.take(2) =~= le16(udp_port));
    assert(payload.subrange(2, 6) =~= le32(width));
    lemma_le32_at(payload, 2, width);
    assert(payload.subrange(6, 10) =~= le32(height));
    lemma_le32_at(payload, 6, height);
}

/// Byte by byte, a message is its length in four bytes, the lowest first, its type, and
/// its payload. The length counts the type and the payload, and lengths from 1 to 16
/// megabytes are read.
pub proof fn lemma_message_layout(msg_type: u8, payload: Seq<u8>, length: int)
    ensures
        ({
            let bytes = message(msg_type, payload);
            &&& bytes.len() == payload.len() + 5
            &&& payload.len() < 0xFFFF_FFFF ==> bytes[0] + 256 * bytes[1] + 65536 * bytes[2]
                + 16777216 * bytes[3] == payload.len() + 1
            &&& bytes[4] == msg_type
            &&& bytes.skip(5) == payload
            &&& acceptable(length) == (1 <= length <= 16777216)
            &&& bytes.len() > 4 ==> announced(bytes, 0) == bytes[0] + 256 * bytes[1] + 65536
                * bytes[2] + 16777216 * bytes[3]
        }),
{
    let bytes = message(msg_type, payload);
    let field = le32(((payload.len() + 1) % 0x1_0000_0000) as u32);
    assert(bytes.skip(5) =~= payload);
    assert(bytes[0] == field[0] && bytes[1] == field[1] && bytes[2] == field[2] && bytes[3]
        == field[3]);
}

/// Byte by byte, a touch message is the number of its events, and for each of them ten
/// bytes: the finger, 1 where it is down and 0 where it is not, and the two
/// coordinates, the lowest byte first.
pub proof fn lemma_touch_layout(events: Seq<TouchEvent>, i: int)
    requires
        0 <= i < events.len(),
    ensures
        ({
            let bytes = touch_payload(events);
            let at = 1 + 10 * i;
            &&& bytes.len() == 1 + 10 * events.len()
            &&& events.len() < 256 ==> bytes[0] == events.len()
            &&& bytes[at] == events[i].0
            &&& bytes[at + 1] == (if events[i].1 {
                1u8
            } else {
                0u8
            })
            &&& bytes[at + 2] + 256 * bytes[at + 3] + 65536 * bytes[at + 4] + 16777216 * bytes[at
                + 5] == events[i].2
            &&& bytes[at + 6] + 256 * bytes[at + 7] + 65536 * bytes[at + 8] + 16777216 * bytes[at
                + 9] == events[i].3
        }),
{
    let bytes = touch_payload(events);
    let at = 1 + 10 * i;
    lemma_events_bytes(events, i);
    let own = event_bytes(events[i]);
    assert(bytes.subrange(at, at + 10) =~= own);
    assert forall|k: int| 0 <= k < 10 implies bytes[at + k] == #[trigger] own[k] by {
        assert(bytes.subrange(at, at + 10)[k] == bytes[at + k]);
    }
    assert(own[2] == le32(events[i].2)[0] && own[3] == le32(events[i].2)[1] && own[4] == le32(
        events[i].2,
    )[2] && own[5] == le32(events[i].2)[3]);
    assert(own[6] == le32(events[i].3)[0] && own[7] == le32(events[i].3)[1] && own[8] == le32(
        events[i].3,
    )[2] && own[9] == le32(events[i].3)[3]);
    assert(bytes[at] == own[0] && bytes[at + 1] == own[1] && bytes[at + 2] == own[2] && bytes[at + 3]
        == own[3] && bytes[at + 4] == own[4] && bytes[at + 5] == own[5] && bytes[at + 6] == own[6]
        && bytes[at + 7] == own[7] && bytes[at + 8] == own[8] && bytes[at + 9] == own[9]);
}

/// Whatever bytes come, a touch message is read if and only if it holds the ten bytes
/// for each event that its first byte announces, and each event is read from its own
/// ten bytes.
pub proof fn lemma_touch_is_read(bytes: Seq<u8>, i: int)
    ensures
        touch_events(bytes) is Some <==> bytes.len() >= 1 && bytes.len() >= 1 + 10 * bytes[0],
        touch_events(bytes) matches Some(events) ==> {
            let at = 1 + 10 * i;
            &&& events.len() == bytes[0]
            &&& 0 <= i < events.len() ==> {
                &&& events[i].0 == bytes[at]
                &&& events[i].1 == (bytes[at + 1] != 0)
                &&& events[i].2 == bytes[at + 2] + 256 * bytes[at + 3] + 65536 * bytes[at + 4]
                    + 16777216 * bytes[at + 5]
                &&& events[i].3 == bytes[at + 6] + 256 * bytes[at + 7] + 65536 * bytes[at + 8]
                    + 16777216 * bytes[at + 9]
            }
        },
{
}

/// Byte by byte, a video payload is 1 for a keyframe and 0 for another frame, width and
/// height, the lowest byte first, and the access unit.
pub proof fn lemma_video_layout(keyframe: bool, width: u32, height: u32, h264: Seq<u8>)
    ensures
        ({
            let bytes = video_payload(keyframe, width, height, h264);
            &&& bytes.len() == 9 + h264.len()
            &&& bytes[0] == (if keyframe {
                1u8
            } else {
                0u8
            })
            &&& bytes[1] + 256 * bytes[2] + 65536 * bytes[3] + 16777216 * bytes[4] == width
            &&& bytes[5] + 256 * bytes[6] + 65536 * bytes[7] + 16777216 * bytes[8] == height
            &&& bytes.skip(9) == h264
        }),
{
    lemma_video_payload_fields(keyframe, width, height, h264);
}

} // verus!
