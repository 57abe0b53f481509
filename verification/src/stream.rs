//! What a session with one client decides.
//!
//! A session has two sides. One reads messages of the client and injects touches.
//! The other takes captured frames, has them encoded and sends them: by datagrams,
//! and over the reliable connection where the client could not yet have them
//! otherwise.

use vstd::prelude::*;
use crate::capture::{CaptureError, CapturedFrame};
use crate::encoder_mft::EncodedFrame;
use crate::protocol::{
    decode_touch,
    make_monitor_hello,
    make_video_payload,
    write_message,
    TouchEvent,
    MSG_PING,
    MSG_TOUCH,
    MSG_VIDEO,
};
#[allow(unused_imports)]
use crate::protocol::{hello_payload, message, touch_events, video_payload, MSG_HELLO};

verus! {

/// What is done about a message of the client.
#[derive(Debug)]
pub enum ClientAction {
    /// The touches are injected.
    Inject(Vec<TouchEvent>),
    /// The touches cannot be decoded; the message has this many bytes.
    Undecodable(usize),
    /// Nothing.
    Ignore,
    /// Nothing more is read.
    Close,
}

/// Decides what is done about a message of the client.
pub fn on_message(msg_type: u8, payload: &[u8]) -> (r: ClientAction)
    ensures
        match r {
            ClientAction::Inject(events) => msg_type == MSG_TOUCH && touch_events(payload@) == Some(
                events@,
            ),
            ClientAction::Undecodable(size) => msg_type == MSG_TOUCH && touch_events(payload@)
                is None && size == payload@.len(),
            ClientAction::Ignore => msg_type == MSG_PING,
            ClientAction::Close => msg_type != MSG_TOUCH && msg_type != MSG_PING,
        },
{
    if msg_type == MSG_TOUCH {
        match decode_touch(payload) {
            Some(events) => ClientAction::Inject(events),
            None => ClientAction::Undecodable(payload.len()),
        }
    } else if msg_type == MSG_PING {
        ClientAction::Ignore
    } else {
        ClientAction::Close
    }
}

/// How video reaches the client.
#[derive(Clone, Copy, Debug, PartialEq, Eq, Structural)]
pub enum Transport {
    /// By datagrams, with the reliable connection for the start.
    Network,
    /// Over the reliable connection alone.
    Usb,
}

/// Frames up to this number go over the reliable connection to a client that has
/// not registered for datagrams.
pub const FALLBACK_FRAMES: u64 = 2;

/// Frames up to this number are reported.
pub const REPORTED_FRAMES: u64 = 3;

/// Why no more frames are sent.
#[derive(Debug)]
pub enum StopReason {
    /// The client has gone.
    Disconnected,
    /// There are no more frames.
    CaptureClosed(&'static str),
}

/// What is done about an attempt to get a frame.
#[derive(Debug)]
pub enum WriterStep {
    /// The frame is encoded.
    Encode(CapturedFrame),
    /// The next attempt is made.
    Wait,
    /// The session ends.
    Stop(StopReason),
}

/// What is sent for one encoded frame.
#[derive(Debug)]
pub struct Delivery {
    /// The frame's number, if it is reported.
    pub report: Option<u64>,
    /// The number that its datagrams carry, if it goes by datagrams.
    pub frame_id: Option<u32>,
    /// The message that goes over the reliable connection, if one does.
    pub reliable: Option<Vec<u8>>,
}

/// The state of the side that sends.
#[derive(Debug)]
pub struct Writer {
    transport: Transport,
    frame_count: u64,
    sent_reliable_keyframe: bool,
}

/// Tells whether an encoded frame goes over the reliable connection, where `count`
/// frames were captured up to it and `sent` tells whether a keyframe went that way
/// before.
pub open spec fn goes_reliably(
    transport: Transport,
    count: int,
    sent: bool,
    keyframe: bool,
    registered: bool,
) -> bool {
    ||| transport == Transport::Usb
    ||| keyframe && !sent
    ||| count <= FALLBACK_FRAMES && !registered
}

impl Writer {
    /// How video reaches the client.
    pub closed spec fn way(&self) -> Transport {
        self.transport
    }

    /// How many frames have been captured.
    pub closed spec fn count(&self) -> u64 {
        self.frame_count
    }

    /// Tells whether a keyframe went over the reliable connection.
    pub closed spec fn sent(&self) -> bool {
        self.sent_reliable_keyframe
    }

    /// The state is that after some captured frames.
    pub open spec fn follows(&self, frames: Seq<FrameFacts>) -> bool {
        &&& self.count() == frames.len()
        &&& self.sent() == sent_after(self.way(), frames)
    }

    /// The state is that after some captured frames and one more, of which nothing is
    /// known yet.
    pub open spec fn follows_capture(&self, frames: Seq<FrameFacts>) -> bool {
        &&& self.count() == frames.len() + 1
        &&& self.sent() == sent_after(self.way(), frames)
    }

    /// Opens a session that shows a monitor of the given size. Returns the state before
    /// the first frame, and the message that goes over the reliable connection before
    /// anything else: the handshake, with the port of the video datagrams and the size.
    pub fn open(transport: Transport, video_port: u16, width: u32, height: u32) -> (r: (
        Self,
        Vec<u8>,
    ))
        ensures
            r.0.way() == transport,
            r.0.count() == 0,
            !r.0.sent(),
            r.0.follows(Seq::<FrameFacts>::empty()),
            r.1@ == message(MSG_HELLO, hello_payload(video_port, width, height)),
    {
        let writer = Writer { transport, frame_count: 0, sent_reliable_keyframe: false };
        (writer, make_monitor_hello(video_port, width, height))
    }

    /// Takes in what came of an attempt to get a frame.
    pub fn on_capture(
        &mut self,
        connected: bool,
        captured: Result<CapturedFrame, CaptureError>,
    ) -> (r: WriterStep)
        ensures
            r == (if !connected {
                WriterStep::Stop(StopReason::Disconnected)
            } else {
                match captured {
                    Ok(frame) => WriterStep::Encode(frame),
                    Err(CaptureError::Timeout) => WriterStep::Wait,
                    Err(CaptureError::Closed(reason)) => WriterStep::Stop(
                        StopReason::CaptureClosed(reason),
                    ),
                }
            }),
            final(self).count() == (if connected && captured is Ok {
                (old(self).count() + 1) % 0x1_0000_0000_0000_0000
            } else {
                old(self).count() as int
            }),
            final(self).way() == old(self).way(),
            final(self).sent() == old(self).sent(),
            forall|frames: Seq<FrameFacts>| #[trigger]
                old(self).follows(frames) && frames.len() < u64::MAX ==> if r is Encode {
                    final(self).follows_capture(frames)
                } else {
                    final(self).follows(frames)
                },
    {
        if !connected {
            return WriterStep::Stop(StopReason::Disconnected);
        }
        match captured {
            Ok(frame) => {
                self.frame_count = self.frame_count.wrapping_add(1);
                WriterStep::Encode(frame)
            },
            Err(CaptureError::Timeout) => WriterStep::Wait,
            Err(CaptureError::Closed(reason)) => WriterStep::Stop(
                StopReason::CaptureClosed(reason),
            ),
        }
    }

    /// Decides what is sent for the frame that was captured last, of the given size
    /// and encoded; `registered` tells whether the client has registered for
    /// datagrams.
    pub fn on_encoded(
        &mut self,
        encoded: &EncodedFrame,
        width: u32,
        height: u32,
        registered: bool,
    ) -> (r: Delivery)
        ensures
            r.report == (if old(self).count() <= REPORTED_FRAMES {
                Some(old(self).count())
            } else {
                None
            }),
            r.frame_id == (if old(self).way() == Transport::Network {
                Some((old(self).count() % 0x1_0000_0000) as u32)
            } else {
                None
            }),
            ({
                let reliably = goes_reliably(
                    old(self).way(),
                    old(self).count() as int,
                    old(self).sent(),
                    encoded.keyframe,
                    registered,
                );
                &&& match r.reliable {
                    Some(bytes) => reliably && bytes@ == message(
                        MSG_VIDEO,
                        video_payload(encoded.keyframe, width, height, encoded.data@),
                    ),
                    None => !reliably,
                }
                &&& final(self).sent() == (old(self).sent() || (reliably && encoded.keyframe))
            }),
            final(self).way() == old(self).way(),
            final(self).count() == old(self).count(),
            forall|frames: Seq<FrameFacts>| #[trigger]
                old(self).follows_capture(frames) ==> {
                    let all = frames.push(
                        FrameFacts { encoded: true, keyframe: encoded.keyframe, registered },
                    );
                    &&& final(self).follows(all)
                    &&& r.reliable is Some == reliable_at(old(self).way(), all, frames.len() as int)
                },
    {
        proof {
            assert forall|frames: Seq<FrameFacts>| #[trigger]
                old(self).follows_capture(frames) implies ({
                let all = frames.push(
                    FrameFacts { encoded: true, keyframe: encoded.keyframe, registered },
                );
                &&& all.len() == frames.len() + 1
                &&& all.drop_last() == frames
                &&& all.take(frames.len() as int) == frames
            }) by {
                let all = frames.push(
                    FrameFacts { encoded: true, keyframe: encoded.keyframe, registered },
                );
                assert(all.drop_last() =~= frames);
                assert(all.take(frames.len() as int) =~= frames);
            }
        }
        let report: Option<u64> = if self.frame_count <= REPORTED_FRAMES {
            Some(self.frame_count)
        } else {
            None
        };
        let frame_id: Option<u32> = if self.transport == Transport::Network {
            Some((self.frame_count % 0x1_0000_0000) as u32)
        } else {
            None
        };
        let needs_keyframe: bool = encoded.keyframe && !self.sent_reliable_keyframe;
        let needs_fallback: bool = self.frame_count <= FALLBACK_FRAMES && !registered;
        if self.transport == Transport::Usb || needs_keyframe || needs_fallback {
            let bytes: Vec<u8> = video_message(encoded, width, height);
            if encoded.keyframe {
                self.sent_reliable_keyframe = true;
            }
            Delivery { report, frame_id, reliable: Some(bytes) }
        } else {
            Delivery { report, frame_id, reliable: None }
        }
    }
}

/// The message that carries an encoded frame over the reliable connection.
fn video_message(encoded: &EncodedFrame, width: u32, height: u32) -> (r: Vec<u8>)
    ensures
        r@ == message(
            MSG_VIDEO,
            video_payload(encoded.keyframe, width, height, encoded.data@),
        ),
{
    let payload: Vec<u8> = make_video_payload(
        encoded.keyframe,
        width,
        height,
        encoded.data.as_slice(),
    );
    let mut bytes: Vec<u8> = Vec::new();
    write_message(&mut bytes, MSG_VIDEO, payload.as_slice());
    bytes
}

/// What is known of one captured frame: whether the encoder gave output for it,
/// whether that is a keyframe, and whether the client had registered for datagrams.
pub ghost struct FrameFacts {
    pub encoded: bool,
    pub keyframe: bool,
    pub registered: bool,
}

/// Whether a keyframe went over the reliable connection, after some frames.
pub open spec fn sent_after(transport: Transport, frames: Seq<FrameFacts>) -> bool
    decreases frames.len(),
{
    if frames.len() == 0 {
        false
    } else {
        let sent = sent_after(transport, frames.drop_last());
        let last = frames.last();
        sent || (last.encoded && last.keyframe && goes_reliably(
            transport,
            frames.len() as int,
            sent,
            last.keyframe,
            last.registered,
        ))
    }
}

/// Whether one of some frames goes over the reliable connection.
pub open spec fn reliable_at(transport: Transport, frames: Seq<FrameFacts>, i: int) -> bool {
    frames[i].encoded && goes_reliably(
        transport,
        i + 1,
        sent_after(transport, frames.take(i)),
        frames[i].keyframe,
        frames[i].registered,
    )
}

/// Whether one of some frames is an encoded keyframe.
pub open spec fn keyframe_at(frames: Seq<FrameFacts>, i: int) -> bool {
    frames[i].encoded && frames[i].keyframe
}

/// A frame that the encoder gave nothing for counts as captured, and changes nothing
/// else.
pub proof fn lemma_frame_without_output(
    writer: Writer,
    frames: Seq<FrameFacts>,
    keyframe: bool,
    registered: bool,
)
    requires
        writer.follows_capture(frames),
    ensures
        writer.follows(frames.push(FrameFacts { encoded: false, keyframe, registered })),
{
    let all = frames.push(FrameFacts { encoded: false, keyframe, registered });
    assert(all.drop_last() =~= frames);
}

proof fn lemma_sent_after(transport: Transport, frames: Seq<FrameFacts>)
    ensures
        sent_after(transport, frames) == exists|i: int|
            0 <= i < frames.len() && keyframe_at(frames, i),
    decreases frames.len(),
{
    if frames.len() > 0 {
        let head = frames.drop_last();
        lemma_sent_after(transport, head);
        let n = head.len() as int;
        if sent_after(transport, head) {
            let i = choose|i: int| 0 <= i < head.len() && keyframe_at(head, i);
            assert(keyframe_at(frames, i));
        } else if keyframe_at(frames, n) {
            assert(sent_after(transport, frames));
        } else if exists|i: int| 0 <= i < frames.len() && keyframe_at(frames, i) {
            let i = choose|i: int| 0 <= i < frames.len() && keyframe_at(frames, i);
            assert(keyframe_at(head, i));
        }
    }
}

/// Over the network, the frames that go over the reliable connection are the first
/// keyframe, and of the first two those that the client could not have by datagrams.
pub proof fn lemma_network_is_reliable_at_the_start(frames: Seq<FrameFacts>, i: int)
    requires
        0 <= i < frames.len(),
    ensures
        reliable_at(Transport::Network, frames, i) == (frames[i].encoded && ((frames[i].keyframe
            && forall|j: int|
            0 <= j < i ==> !((#[trigger] frames[j]).encoded && frames[j].keyframe)) || (i < 2
            && !frames[i].registered))),
{
    let before = frames.take(i);
    lemma_sent_after(Transport::Network, before);
    let earlier = exists|j: int| 0 <= j < before.len() && keyframe_at(before, j);
    if earlier {
        let j = choose|j: int| 0 <= j < before.len() && keyframe_at(before, j);
        assert(frames[j].encoded && frames[j].keyframe);
    } else {
        assert forall|j: int| 0 <= j < i implies !((#[trigger] frames[j]).encoded
            && frames[j].keyframe) by {
            assert(before[j] == frames[j]);
            assert(!keyframe_at(before, j));
        }
    }
}

/// Over USB, every encoded frame goes over the reliable connection.
pub proof fn lemma_usb_is_reliable(frames: Seq<FrameFacts>, i: int)
    requires
        0 <= i < frames.len(),
    ensures
        reliable_at(Transport::Usb, frames, i) == frames[i].encoded,
{
}

/// A frame never goes over the reliable connection for less than a reason: over the
/// network a client that is registered, and that has had its keyframe, gets nothing
/// there; and one that has had none gets the next keyframe, whatever else holds.
pub proof fn lemma_reasons(count: int, keyframe: bool, registered: bool)
    ensures
        !goes_reliably(Transport::Network, count, true, keyframe, true),
        goes_reliably(Transport::Network, count, false, true, registered),
        !goes_reliably(Transport::Network, count, false, false, true),
        goes_reliably(Transport::Network, count, true, keyframe, false) <==> count <= 2,
        goes_reliably(Transport::Network, count, false, false, false) <==> count <= 2,
{
}

} // verus!
