//! The calls into OpenH264, and what is known of them.

use openh264::encoder::{BitRate, Encoder, EncoderConfig, FrameRate, FrameType};
use openh264::formats::{BgraSliceU8, YUVBuffer};
use openh264::OpenH264API;
use vstd::prelude::*;

verus! {

/// An encoder of OpenH264.
#[verifier::external_type_specification]
#[verifier::external_body]
pub struct ExEncoder(openh264::encoder::Encoder);

/// A frame rate, as OpenH264 takes it.
#[verifier::external_type_specification]
#[verifier::external_body]
pub struct ExFrameRate(openh264::encoder::FrameRate);

/// A planar picture.
#[verifier::external_type_specification]
#[verifier::external_body]
pub struct ExYUVBuffer(openh264::formats::YUVBuffer);

/// An error of OpenH264.
#[verifier::external_type_specification]
#[verifier::external_body]
pub struct ExOpenH264Error(openh264::Error);

/// The bits per second that an encoder was made for.
pub uninterp spec fn target_bits(encoder: Encoder) -> int;

/// The frame rate that an encoder was made for.
pub uninterp spec fn target_rate(encoder: Encoder) -> FrameRate;

/// The number of threads that an encoder was made with.
pub uninterp spec fn target_threads(encoder: Encoder) -> int;

/// The bytes of a picture: luma, and behind it the two planes of chroma.
pub uninterp spec fn picture(buffer: YUVBuffer) -> Seq<u8>;

/// The width that a picture was made with.
pub uninterp spec fn picture_width(buffer: YUVBuffer) -> int;

/// The height that a picture was made with.
pub uninterp spec fn picture_height(buffer: YUVBuffer) -> int;

/// The longest side of a picture that can be encoded.
pub const LONGEST_SIDE: u32 = 3840;

/// The longest other side.
pub const LONGEST_OTHER_SIDE: u32 = 2160;

/// What kind of frame an access unit holds.
#[derive(Clone, Copy, Debug, PartialEq, Eq, Structural)]
pub enum FrameKind {
    Invalid,
    Idr,
    I,
    P,
    Skip,
    Mixed,
}

/// One channel of a pixel of BGRA: 0 is blue, 1 green, 2 red.
pub open spec fn channel(bgra: Seq<u8>, width: int, x: int, y: int, c: int) -> int {
    bgra[(y * width + x) * 4 + c] as int
}

/// One channel, averaged over a square of four pixels and rounded.
pub open spec fn mean(bgra: Seq<u8>, width: int, x: int, y: int, c: int) -> int {
    (channel(bgra, width, x, y, c) + channel(bgra, width, x + 1, y, c) + channel(
        bgra,
        width,
        x,
        y + 1,
        c,
    ) + channel(bgra, width, x + 1, y + 1, c) + 2) / 4
}

/// The luma of a pixel.
pub open spec fn y_at(bgra: Seq<u8>, width: int, x: int, y: int) -> u8 {
    ((66 * channel(bgra, width, x, y, 2) + 129 * channel(bgra, width, x, y, 1) + 25 * channel(
        bgra,
        width,
        x,
        y,
        0,
    )) / 256 + 16) as u8
}

/// The first chroma of a square of four pixels.
pub open spec fn u_at(bgra: Seq<u8>, width: int, x: int, y: int) -> u8 {
    ((112 * mean(bgra, width, x, y, 0) - 38 * mean(bgra, width, x, y, 2) - 74 * mean(
        bgra,
        width,
        x,
        y,
        1,
    )) / 256 + 128) as u8
}

/// The second chroma of a square of four pixels.
pub open spec fn v_at(bgra: Seq<u8>, width: int, x: int, y: int) -> u8 {
    ((112 * mean(bgra, width, x, y, 2) - 18 * mean(bgra, width, x, y, 0) - 94 * mean(
        bgra,
        width,
        x,
        y,
        1,
    )) / 256 + 128) as u8
}

/// The planar picture of a frame of BGRA pixels.
pub open spec fn planar(bgra: Seq<u8>, width: int, height: int) -> Seq<u8> {
    let half = width / 2;
    Seq::new((width * height) as nat, |i: int| y_at(bgra, width, i % width, i / width)) + Seq::new(
        (half * (height / 2)) as nat,
        |i: int| u_at(bgra, width, 2 * (i % half), 2 * (i / half)),
    ) + Seq::new(
        (half * (height / 2)) as nat,
        |i: int| v_at(bgra, width, 2 * (i % half), 2 * (i / half)),
    )
}

/// Tells whether a picture has more pixels on a side than can be encoded.
pub open spec fn too_large(width: int, height: int) -> bool {
    let longer = if width > height {
        width
    } else {
        height
    };
    let shorter = if width > height {
        height
    } else {
        width
    };
    longer > LONGEST_SIDE || shorter > LONGEST_OTHER_SIDE
}

/// The sizes that a picture can be made with.
pub open spec fn encodable(width: int, height: int) -> bool {
    &&& width >= 0
    &&& height >= 0
    &&& width % 2 == 0
    &&& height % 2 == 0
    &&& 4 * width <= usize::MAX
    &&& 3 * (width * height) <= usize::MAX
}

/// Makes an encoder: `openh264::encoder::Encoder::with_api_config`, with the bit
/// rate, the frame rate and the number of threads set in an otherwise default
/// `EncoderConfig`. An encoder that was made holds these three settings. Whether
/// one can be made is left unsaid: that depends on the machine.
#[verifier::external_body]
fn make_encoder(bits: u32, rate: FrameRate, threads: u16) -> (r: Result<Encoder, openh264::Error>)
    ensures
        r matches Ok(encoder) ==> target_bits(encoder) == bits && target_rate(encoder) == rate
            && target_threads(encoder) == threads,
{
    let config = EncoderConfig::new()
        .bitrate(BitRate::from_bps(bits))
        .max_frame_rate(rate)
        .num_threads(threads);
    Encoder::with_api_config(OpenH264API::from_source(), config)
}

/// Makes a picture: `openh264::formats::YUVBuffer::new`, which wants even sizes and
/// fills the picture with zeros.
#[verifier::external_body]
pub(crate) fn make_picture(width: usize, height: usize) -> (r: YUVBuffer)
    requires
        encodable(width as int, height as int),
    ensures
        picture_width(r) == width,
        picture_height(r) == height,
        picture(r) == Seq::new((3 * (width * height) / 2) as nat, |i: int| 0u8),
{
    YUVBuffer::new(width, height)
}

/// Converts a frame into a picture: `openh264::formats::YUVBuffer::read_bgra8`, on
/// the frame as an `openh264::formats::BgraSliceU8`. Both want the sizes to match, and
/// the bytes of a row to be countable.
/// The picture then holds the converted frame and nothing else, and keeps its size.
#[verifier::external_body]
pub(crate) fn read_picture(buffer: &mut YUVBuffer, bgra: &[u8], width: usize, height: usize)
    requires
        encodable(width as int, height as int),
        picture_width(*old(buffer)) == width,
        picture_height(*old(buffer)) == height,
        bgra@.len() == width * height * 4,
    ensures
        picture_width(*final(buffer)) == width,
        picture_height(*final(buffer)) == height,
        picture(*final(buffer)) == planar(bgra@, width as int, height as int),
{
    buffer.read_bgra8(BgraSliceU8::new(bgra, (width, height)));
}

/// An encoder, the pictures that it was given, one after the other, and what it gave
/// back for the last one.
pub struct PictureEncoder {
    encoder: Encoder,
    given: Ghost<Seq<Seq<u8>>>,
    outcome: Ghost<Option<(Seq<u8>, FrameKind)>>,
}

impl PictureEncoder {
    /// The encoder.
    pub closed spec fn inner(&self) -> Encoder {
        self.encoder
    }

    /// The pictures that the encoder was given.
    pub closed spec fn given(&self) -> Seq<Seq<u8>> {
        self.given@
    }

    /// The access unit that the encoder gave back for the last picture, and its kind;
    /// `None` where it gave an error, or before the first picture.
    pub closed spec fn outcome(&self) -> Option<(Seq<u8>, FrameKind)> {
        self.outcome@
    }

    /// Makes an encoder.
    pub fn new(bits: u32, rate: FrameRate, threads: u16) -> (r: Result<Self, openh264::Error>)
        ensures
            r matches Ok(made) ==> {
                &&& target_bits(made.inner()) == bits
                &&& target_rate(made.inner()) == rate
                &&& target_threads(made.inner()) == threads
                &&& made.given() == Seq::<Seq<u8>>::empty()
                &&& made.outcome() is None
            },
    {
        match make_encoder(bits, rate, threads) {
            Ok(encoder) => Ok(
                PictureEncoder { encoder, given: Ghost(Seq::empty()), outcome: Ghost(None) },
            ),
            Err(e) => Err(e),
        }
    }
}

/// Encodes a picture: `openh264::encoder::Encoder::encode`, with
/// `EncodedBitStream::to_vec` and `EncodedBitStream::frame_type` on what it gives.
/// The encoder is given the bytes that the picture holds at the time of the call, and
/// keeps the settings that it was made with. What is returned is its outcome. A picture that is too large gives an
/// error, and so does a bit rate beyond the signed range. What else gives an error,
/// and which bytes come out, is left unsaid: that depends on all that was encoded
/// before.
#[verifier::external_body]
pub(crate) fn encode_picture(encoder: &mut PictureEncoder, buffer: &YUVBuffer) -> (r: Result<
    (Vec<u8>, FrameKind),
    openh264::Error,
>)
    ensures
        final(encoder).given() == old(encoder).given().push(picture(*buffer)),
        final(encoder).outcome() == (match r {
            Ok(unit) => Some((unit.0@, unit.1)),
            Err(_) => None,
        }),
        target_bits(final(encoder).inner()) == target_bits(old(encoder).inner()),
        target_rate(final(encoder).inner()) == target_rate(old(encoder).inner()),
        target_threads(final(encoder).inner()) == target_threads(old(encoder).inner()),
        picture_width(*buffer) <= i32::MAX && picture_height(*buffer) <= i32::MAX && too_large(
            picture_width(*buffer),
            picture_height(*buffer),
        ) ==> r is Err,
        target_bits(old(encoder).inner()) > i32::MAX ==> r is Err,
{
    let stream = encoder.encoder.encode(buffer)?;
    let kind = match stream.frame_type() {
        FrameType::Invalid => FrameKind::Invalid,
        FrameType::IDR => FrameKind::Idr,
        FrameType::I => FrameKind::I,
        FrameType::P => FrameKind::P,
        FrameType::Skip => FrameKind::Skip,
        FrameType::IPMixed => FrameKind::Mixed,
    };
    Ok((stream.to_vec(), kind))
}

/// Puts an error of OpenH264 into words: the `Display` of `openh264::Error`. Which
/// words these are is left unsaid.
#[verifier::external_body]
pub(crate) fn reason(error: &openh264::Error) -> (r: String) {
    format!("{error}")
}

/// A picture has one and a half bytes for each pixel.
pub proof fn lemma_planar_size(bgra: Seq<u8>, width: int, height: int)
    requires
        encodable(width, height),
    ensures
        2 * planar(bgra, width, height).len() == 3 * (width * height),
{
    assert(width * height >= 0 && 4 * ((width / 2) * (height / 2)) == width * height && (width / 2)
        * (height / 2) >= 0) by (nonlinear_arith)
        requires
            width >= 0,
            height >= 0,
            width % 2 == 0,
            height % 2 == 0,
    ;
}

/// A gray square has no chroma, and luma in the range of video.
pub proof fn lemma_gray_has_no_chroma(bgra: Seq<u8>, width: int, x: int, y: int, level: u8)
    requires
        forall|i: int, j: int, c: int|
            x <= i <= x + 1 && y <= j <= y + 1 && 0 <= c < 3 ==> #[trigger] channel(
                bgra,
                width,
                i,
                j,
                c,
            ) == level,
    ensures
        u_at(bgra, width, x, y) == 128,
        v_at(bgra, width, x, y) == 128,
        16 <= y_at(bgra, width, x, y) <= 235,
{
}

} // verus!
