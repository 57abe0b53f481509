//! H.264 encoding in software, by OpenH264.
//!
//! A frame of BGRA pixels is converted to a planar picture, and the picture is
//! encoded to an Annex-B access unit of the Baseline profile.

#[allow(unused_imports)]
use openh264::encoder::Encoder;
use openh264::encoder::FrameRate;
use openh264::formats::YUVBuffer;
use vstd::prelude::*;
#[allow(unused_imports)]
use vstd::string::StringExecFns;
pub use crate::encoder_mft::EncodedFrame;
pub use crate::openh264_api::FrameKind;
use crate::openh264_api::{encode_picture, make_picture, read_picture, reason, PictureEncoder};
#[allow(unused_imports)]
use crate::openh264_api::{
    encodable,
    picture_height,
    picture_width,
    planar,
    target_bits,
    target_rate,
    target_threads,
    too_large,
};

verus! {

/// The threads that an encoder is given.
pub const THREADS: u16 = 4;

/// Why a frame is not encoded, or an encoder not made.
#[derive(Debug)]
pub enum H264Error {
    Create(String),
    Encode(String),
}

impl H264Error {
    /// The error in words.
    pub open spec fn text(self) -> Seq<char> {
        match self {
            H264Error::Create(reason) => "create encoder: "@ + reason@,
            H264Error::Encode(reason) => "encode: "@ + reason@,
        }
    }

    /// Puts the error into words.
    pub fn describe(&self) -> (r: String)
        ensures
            r@ == self.text(),
    {
        match self {
            H264Error::Create(reason) => {
                let mut text: String = String::from_str("create encoder: ");
                text.append(reason.as_str());
                text
            },
            H264Error::Encode(reason) => {
                let mut text: String = String::from_str("encode: ");
                text.append(reason.as_str());
                text
            },
        }
    }
}

/// Reads what came of encoding one picture: keyframes are the instantaneous
/// refreshes and the other frames that stand for themselves.
pub fn encoded_frame(encoded: Result<(Vec<u8>, FrameKind), String>) -> (r: Result<
    EncodedFrame,
    H264Error,
>)
    ensures
        match encoded {
            Ok(unit) => r == Ok::<EncodedFrame, H264Error>(
                EncodedFrame {
                    data: unit.0,
                    keyframe: unit.1 == FrameKind::Idr || unit.1 == FrameKind::I,
                },
            ),
            Err(reason) => r == Err::<EncodedFrame, H264Error>(H264Error::Encode(reason)),
        },
{
    match encoded {
        Ok((data, kind)) => {
            let keyframe: bool = kind == FrameKind::Idr || kind == FrameKind::I;
            Ok(EncodedFrame { data, keyframe })
        },
        Err(reason) => Err(H264Error::Encode(reason)),
    }
}

/// An encoder for frames of one size.
pub struct H264Encoder {
    encoder: PictureEncoder,
    width: usize,
    height: usize,
    yuv: YUVBuffer,
}

impl H264Encoder {
    /// The picture has the size of the frames.
    pub closed spec fn wf(&self) -> bool {
        &&& encodable(self.width as int, self.height as int)
        &&& picture_width(self.yuv) == self.width
        &&& picture_height(self.yuv) == self.height
    }

    pub closed spec fn frame_width(&self) -> int {
        self.width as int
    }

    pub closed spec fn frame_height(&self) -> int {
        self.height as int
    }

    /// The encoder that the pictures go to.
    pub closed spec fn inner(&self) -> Encoder {
        self.encoder.inner()
    }

    /// The pictures that went to the encoder.
    pub closed spec fn given(&self) -> Seq<Seq<u8>> {
        self.encoder.given()
    }

    /// The access unit that the encoder gave back for the last picture, and its kind;
    /// `None` where it gave an error, or before the first picture.
    pub closed spec fn outcome(&self) -> Option<(Seq<u8>, FrameKind)> {
        self.encoder.outcome()
    }

    /// Makes an encoder.
    pub fn new(width: usize, height: usize, frame_rate: FrameRate, bitrate_kbps: u32) -> (r: Result<
        Self,
        H264Error,
    >)
        requires
            encodable(width as int, height as int),
            bitrate_kbps * 1000 <= u32::MAX,
        ensures
            match r {
                Ok(made) => {
                    &&& made.wf()
                    &&& made.frame_width() == width
                    &&& made.frame_height() == height
                    &&& target_bits(made.inner()) == bitrate_kbps * 1000
                    &&& target_rate(made.inner()) == frame_rate
                    &&& target_threads(made.inner()) == THREADS
                    &&& made.given() == Seq::<Seq<u8>>::empty()
                    &&& made.outcome() is None
                },
                Err(e) => e is Create,
            },
    {
        match PictureEncoder::new(bitrate_kbps * 1000, frame_rate, THREADS) {
            Ok(encoder) => {
                let yuv: YUVBuffer = make_picture(width, height);
                Ok(H264Encoder { encoder, width, height, yuv })
            },
            Err(e) => Err(H264Error::Create(reason(&e))),
        }
    }

    /// Encodes one frame of BGRA pixels: hands its picture to the encoder, and returns
    /// what the encoder gave back for it.
    pub fn encode_frame(&mut self, bgra: &[u8]) -> (r: Result<EncodedFrame, H264Error>)
        requires
            old(self).wf(),
            bgra@.len() == old(self).frame_width() * old(self).frame_height() * 4,
        ensures
            final(self).wf(),
            final(self).frame_width() == old(self).frame_width(),
            final(self).frame_height() == old(self).frame_height(),
            final(self).given() == old(self).given().push(
                planar(bgra@, old(self).frame_width(), old(self).frame_height()),
            ),
            target_bits(final(self).inner()) == target_bits(old(self).inner()),
            target_rate(final(self).inner()) == target_rate(old(self).inner()),
            target_threads(final(self).inner()) == target_threads(old(self).inner()),
            old(self).frame_width() <= i32::MAX && old(self).frame_height() <= i32::MAX
                && too_large(old(self).frame_width(), old(self).frame_height()) ==> r is Err,
            target_bits(old(self).inner()) > i32::MAX ==> r is Err,
            match final(self).outcome() {
                Some(unit) => r matches Ok(frame) && frame.data@ == unit.0 && frame.keyframe == (
                unit.1 == FrameKind::Idr || unit.1 == FrameKind::I),
                None => r matches Err(e) && e is Encode,
            },
    {
        read_picture(&mut self.yuv, bgra, self.width, self.height);
        match encode_picture(&mut self.encoder, &self.yuv) {
            Ok(unit) => encoded_frame(Ok(unit)),
            Err(e) => encoded_frame(Err(reason(&e))),
        }
    }
}

} // verus!
