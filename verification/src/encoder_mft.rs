//! H.264 encoding through the operating system's media transforms.
//!
//! A hardware transform works asynchronously: it asks for input and announces
//! output through events. This module prepares what the transform is given, says
//! what each event comes to and reads what the transform gives back.

use vstd::prelude::*;
#[allow(unused_imports)]
use vstd::string::StringExecFns;
use crate::annex_b::to_annex_b;
#[allow(unused_imports)]
use crate::annex_b::annex_b;
use crate::color::bgra_to_nv12;
#[allow(unused_imports)]
use crate::color::{chroma_plane, luma_plane};
use crate::text::{put_decimal, put_signed};
#[allow(unused_imports)]
use crate::text::{decimal, signed_decimal};

verus! {

/// The event by which a transform asks for input.
pub const NEED_INPUT: i32 = 601;

/// The event by which a transform announces output.
pub const HAVE_OUTPUT: i32 = 602;

/// Units of sample times in one second.
pub const TICKS_PER_SECOND: i64 = 10_000_000;

/// One encoded access unit.
#[derive(Clone, Debug)]
pub struct EncodedFrame {
    pub data: Vec<u8>,
    pub keyframe: bool,
}

/// Why a frame is not encoded, or an encoder not set up.
#[derive(Clone, Debug)]
pub enum EncoderError {
    /// Width or height is odd or below two, or there are no frames per second.
    BadParameters,
    /// The media runtime did not start.
    RuntimeUnavailable,
    /// The software encoders could not be enumerated.
    Enumeration(String),
    /// There is no encoder.
    NoEncoder,
    /// A frame has another size than the encoder was set up for.
    FrameSize { actual: u64, expected: u64 },
    /// An event could not be received.
    Event(String),
    /// The expected event did not come in time.
    TimedOut(i32),
    /// The transform gave no sample.
    NoSample,
    /// The transform gave an empty sample.
    NoOutput,
}

impl EncoderError {
    /// The error in words.
    pub open spec fn text(self) -> Seq<char> {
        match self {
            EncoderError::BadParameters => "MFT encoder requires positive even dimensions and non-zero FPS"@,
            EncoderError::RuntimeUnavailable => "Media Foundation runtime init failed"@,
            EncoderError::Enumeration(reason) => "enumerate SW encoders: "@ + reason@,
            EncoderError::NoEncoder => "no H.264 encoder MFT found"@,
            EncoderError::FrameSize { actual, expected } => "BGRA frame has "@ + decimal(
                actual as nat,
            ) + " bytes, expected "@ + decimal(expected as nat),
            EncoderError::Event(reason) => reason@,
            EncoderError::TimedOut(expected) => "timed out waiting for MFT event "@
                + signed_decimal(expected as int),
            EncoderError::NoSample => "encoder returned no output sample"@,
            EncoderError::NoOutput => "no output from encoder"@,
        }
    }

    /// Puts the error into words.
    pub fn describe(&self) -> (r: String)
        ensures
            r@ == self.text(),
    {
        match self {
            EncoderError::BadParameters => String::from_str(
                "MFT encoder requires positive even dimensions and non-zero FPS",
            ),
            EncoderError::RuntimeUnavailable => String::from_str(
                "Media Foundation runtime init failed",
            ),
            EncoderError::Enumeration(reason) => {
                let mut text: String = String::from_str("enumerate SW encoders: ");
                text.append(reason.as_str());
                text
            },
            EncoderError::NoEncoder => String::from_str("no H.264 encoder MFT found"),
            EncoderError::FrameSize { actual, expected } => {
                let mut text: String = String::from_str("BGRA frame has ");
                put_decimal(&mut text, *actual);
                text.append(" bytes, expected ");
                put_decimal(&mut text, *expected);
                text
            },
            EncoderError::Event(reason) => String::from_str(reason.as_str()),
            EncoderError::TimedOut(expected) => {
                let mut text: String = String::from_str("timed out waiting for MFT event ");
                put_signed(&mut text, *expected as i64);
                text
            },
            EncoderError::NoSample => String::from_str("encoder returned no output sample"),
            EncoderError::NoOutput => String::from_str("no output from encoder"),
        }
    }
}

/// Packs two numbers into one, as media types hold sizes and ratios.
pub fn pack_u32_pair(a: u32, b: u32) -> (r: u64)
    ensures
        r == a * 0x1_0000_0000 + b,
{
    (a as u64) * 0x1_0000_0000 + b as u64
}

/// One attribute of a media type.
#[derive(Clone, Copy, Debug, PartialEq, Eq, Structural)]
pub enum MediaAttribute {
    MajorTypeVideo,
    SubtypeH264,
    SubtypeNv12,
    AverageBitrate(u32),
    FrameSize(u64),
    FrameRate(u64),
    PixelAspectRatio(u64),
    InterlaceProgressive,
    ProfileBaseline,
    MaxKeyframeSpacing(u32),
    DefaultStride(u32),
}

/// Where the encoder is looked for next.
#[derive(Clone, Copy, Debug, PartialEq, Eq, Structural)]
pub enum EncoderSearch {
    /// The first of the hardware encoders is taken.
    UseHardware,
    /// The software encoders are looked at.
    TrySoftware,
}

/// Where the encoder is looked for, once it is known whether the runtime has started
/// and how many hardware encoders there are; `None` where they could not be
/// enumerated.
pub fn after_hardware(runtime_ready: bool, found: Option<usize>) -> (r: Result<
    EncoderSearch,
    EncoderError,
>)
    ensures
        r == (if !runtime_ready {
            Err(EncoderError::RuntimeUnavailable)
        } else if found matches Some(n) && n > 0 {
            Ok::<EncoderSearch, EncoderError>(EncoderSearch::UseHardware)
        } else {
            Ok(EncoderSearch::TrySoftware)
        }),
{
    if !runtime_ready {
        return Err(EncoderError::RuntimeUnavailable);
    }
    match found {
        Some(n) if n > 0 => Ok(EncoderSearch::UseHardware),
        _ => Ok(EncoderSearch::TrySoftware),
    }
}

/// What the number of software encoders comes to: the first of them is taken, if
/// there is one.
pub fn after_software(found: Result<usize, String>) -> (r: Result<(), EncoderError>)
    ensures
        match found {
            Ok(n) => if n > 0 {
                r is Ok
            } else {
                r == Err::<(), EncoderError>(EncoderError::NoEncoder)
            },
            Err(reason) => r == Err::<(), EncoderError>(EncoderError::Enumeration(reason)),
        },
{
    match found {
        Ok(n) => if n > 0 {
            Ok(())
        } else {
            Err(EncoderError::NoEncoder)
        },
        Err(reason) => Err(EncoderError::Enumeration(reason)),
    }
}

/// Tells whether there is a hardware encoder: the runtime has started and one was
/// enumerated.
pub fn is_hw_encoder_available(runtime_ready: bool, hardware: Option<usize>) -> (r: bool)
    ensures
        r == (runtime_ready && (hardware matches Some(n) && n > 0)),
{
    runtime_ready && match hardware {
        Some(n) => n > 0,
        None => false,
    }
}

/// How a transform is driven.
#[derive(Clone, Copy, Debug, PartialEq, Eq, Structural)]
pub enum ProcessingModel {
    /// By events: one input for each request, one output for each announcement.
    Asynchronous,
    /// By calls alone.
    Synchronous,
}

/// How a transform with the given mark of an asynchronous one is driven.
pub fn processing_model(asynchronous: Option<u32>) -> (r: ProcessingModel)
    ensures
        r == (if asynchronous matches Some(mark) && mark != 0 {
            ProcessingModel::Asynchronous
        } else {
            ProcessingModel::Synchronous
        }),
{
    match asynchronous {
        Some(mark) if mark != 0 => ProcessingModel::Asynchronous,
        _ => ProcessingModel::Synchronous,
    }
}

/// How far the encoding of one frame has come.
#[derive(Clone, Copy, Debug, PartialEq, Eq, Structural)]
pub enum Stage {
    /// The frame has not been handed over.
    Input,
    /// The output has not been fetched.
    Output,
}

/// What is to be done next for a frame.
#[derive(Clone, Copy, Debug, PartialEq, Eq, Structural)]
pub enum Action {
    /// An event is waited for, this one or others.
    Wait(i32),
    /// The frame is handed to the transform.
    Submit,
    /// The output is fetched from the transform.
    Collect,
}

/// What drives the encoding: the stage, the events that came and were not yet made
/// use of, and the number of frames that samples were built for.
pub ghost struct Progress {
    pub model: ProcessingModel,
    pub stage: Stage,
    pub requests: int,
    pub announcements: int,
    pub frames: int,
}

impl Progress {
    /// Before the first frame, and before any event.
    pub open spec fn start(model: ProcessingModel) -> Progress {
        Progress { model, stage: Stage::Input, requests: 0, announcements: 0, frames: 0 }
    }

    /// After a frame was begun, whatever has become of the one before.
    pub open spec fn begun(self) -> Progress {
        Progress { stage: Stage::Input, ..self }
    }

    /// After the sample for a frame was built.
    pub open spec fn built(self) -> Progress {
        Progress { frames: self.frames + 1, ..self }
    }

    /// After an event has come.
    pub open spec fn arrived(self, event: i32) -> Progress {
        if event == NEED_INPUT && self.requests < u64::MAX {
            Progress { requests: self.requests + 1, ..self }
        } else if event == HAVE_OUTPUT && self.announcements < u64::MAX {
            Progress { announcements: self.announcements + 1, ..self }
        } else {
            self
        }
    }

    /// What is to be done next.
    pub open spec fn action(self) -> Action {
        let free = self.model == ProcessingModel::Synchronous;
        match self.stage {
            Stage::Input => if free || self.requests > 0 {
                Action::Submit
            } else {
                Action::Wait(NEED_INPUT)
            },
            Stage::Output => if free || self.announcements > 0 {
                Action::Collect
            } else {
                Action::Wait(HAVE_OUTPUT)
            },
        }
    }

    /// After that is done: an input uses up a request, an output an announcement.
    pub open spec fn acted(self) -> Progress {
        let used: int = if self.model == ProcessingModel::Synchronous {
            0
        } else {
            1
        };
        match self.action() {
            Action::Wait(_) => self,
            Action::Submit => Progress {
                stage: Stage::Output,
                requests: self.requests - used,
                ..self
            },
            Action::Collect => Progress {
                stage: Stage::Input,
                announcements: self.announcements - used,
                ..self
            },
        }
    }
}

/// Something that happens while frames are encoded: a frame is begun, an event comes,
/// the next action is chosen, or the sample that is handed over has been built.
pub ghost enum Signal {
    Begin,
    Event(i32),
    Act,
    Built,
}

/// How far the encoding is after some signals.
pub open spec fn progress_after(model: ProcessingModel, signals: Seq<Signal>) -> Progress
    decreases signals.len(),
{
    if signals.len() == 0 {
        Progress::start(model)
    } else {
        let before = progress_after(model, signals.drop_last());
        match signals.last() {
            Signal::Begin => before.begun(),
            Signal::Event(event) => before.arrived(event),
            Signal::Act => before.acted(),
            Signal::Built => before.built(),
        }
    }
}

proof fn lemma_progress_after_push(model: ProcessingModel, signals: Seq<Signal>, signal: Signal)
    ensures
        progress_after(model, signals.push(signal)) == (match signal {
            Signal::Begin => progress_after(model, signals).begun(),
            Signal::Event(event) => progress_after(model, signals).arrived(event),
            Signal::Act => progress_after(model, signals).acted(),
            Signal::Built => progress_after(model, signals).built(),
        }),
{
    assert(signals.push(signal).drop_last() =~= signals);
}

/// How often an event came.
pub open spec fn times(signals: Seq<Signal>, event: i32) -> int
    decreases signals.len(),
{
    if signals.len() == 0 {
        0
    } else {
        let before = times(signals.drop_last(), event);
        if signals.last() == Signal::Event(event) {
            before + 1
        } else {
            before
        }
    }
}

/// How many samples were built.
pub open spec fn samples(signals: Seq<Signal>) -> int
    decreases signals.len(),
{
    if signals.len() == 0 {
        0
    } else {
        let before = samples(signals.drop_last());
        if signals.last() == Signal::Built {
            before + 1
        } else {
            before
        }
    }
}

/// How often an action was done.
pub open spec fn done(model: ProcessingModel, signals: Seq<Signal>, action: Action) -> int
    decreases signals.len(),
{
    if signals.len() == 0 {
        0
    } else {
        let head = signals.drop_last();
        let before = done(model, head, action);
        if signals.last() == Signal::Act && progress_after(model, head).action() == action {
            before + 1
        } else {
            before
        }
    }
}

/// Frames are counted by the samples that were built for them, and by nothing else.
pub proof fn lemma_frames_are_samples(model: ProcessingModel, signals: Seq<Signal>)
    ensures
        progress_after(model, signals).frames == samples(signals),
    decreases signals.len(),
{
    if signals.len() > 0 {
        lemma_frames_are_samples(model, signals.drop_last());
    }
}

/// Each request of an asynchronous transform is paired with one input, and each
/// announcement with one output: what was not used yet is kept and none is used twice.
/// There is no more than one output for each input.
pub proof fn lemma_calls_are_paired(signals: Seq<Signal>)
    requires
        signals.len() <= u64::MAX,
    ensures
        ({
            let model = ProcessingModel::Asynchronous;
            let p = progress_after(model, signals);
            let inputs = done(model, signals, Action::Submit);
            let outputs = done(model, signals, Action::Collect);
            &&& p.model == model
            &&& inputs + p.requests == times(signals, NEED_INPUT)
            &&& outputs + p.announcements == times(signals, HAVE_OUTPUT)
            &&& 0 <= p.requests <= signals.len()
            &&& 0 <= p.announcements <= signals.len()
            &&& outputs + (if p.stage == Stage::Output {
                1int
            } else {
                0
            }) <= inputs
        }),
    decreases signals.len(),
{
    if signals.len() > 0 {
        lemma_calls_are_paired(signals.drop_last());
    }
}

/// A synchronous transform is never waited for.
pub proof fn lemma_synchronous_never_waits(signals: Seq<Signal>)
    ensures
        !(progress_after(ProcessingModel::Synchronous, signals).action() is Wait),
{
    lemma_model_stays(ProcessingModel::Synchronous, signals);
}

proof fn lemma_model_stays(model: ProcessingModel, signals: Seq<Signal>)
    ensures
        progress_after(model, signals).model == model,
    decreases signals.len(),
{
    if signals.len() > 0 {
        lemma_model_stays(model, signals.drop_last());
    }
}

/// The parameters that an encoder can be set up with.
pub open spec fn acceptable(width: u32, height: u32, fps: u32) -> bool {
    width >= 2 && height >= 2 && width % 2 == 0 && height % 2 == 0 && fps > 0
}

/// Tells whether an encoder can be set up with these parameters.
pub fn accepts(width: u32, height: u32, fps: u32) -> (r: bool)
    ensures
        r == acceptable(width, height, fps),
{
    width >= 2 && height >= 2 && width % 2 == 0 && height % 2 == 0 && fps > 0
}

/// A frame ready to be handed to the transform.
#[derive(Debug)]
pub struct InputSample {
    /// The luma plane and behind it the chroma plane.
    pub nv12: Vec<u8>,
    /// When the frame begins, and how long it lasts.
    pub time: i64,
    pub duration: i64,
}

/// What is known of an encoder outside the operating system.
pub struct MftEncoder {
    width: u32,
    height: u32,
    fps: u32,
    bitrate: u32,
    keyframe_spacing: u32,
    output_buf_size: u32,
    model: ProcessingModel,
    stage: Stage,
    requests: u64,
    announcements: u64,
    frame_index: i64,
}

/// When the frame with the given number begins.
pub open spec fn frame_time(index: int, fps: int) -> int {
    index * TICKS_PER_SECOND / fps
}

impl MftEncoder {
    /// The encoder's parameters are acceptable.
    pub closed spec fn wf(&self) -> bool {
        &&& acceptable(self.width, self.height, self.fps)
        &&& self.output_buf_size == self.width * self.height * 2
        &&& self.frame_index >= 0
    }

    pub closed spec fn frame_width(&self) -> u32 {
        self.width
    }

    pub closed spec fn frame_height(&self) -> u32 {
        self.height
    }

    pub closed spec fn frame_rate(&self) -> u32 {
        self.fps
    }

    /// Bits per second.
    pub closed spec fn bit_rate(&self) -> u32 {
        self.bitrate
    }

    /// The most frames from one keyframe to the next.
    pub closed spec fn spacing(&self) -> u32 {
        self.keyframe_spacing
    }

    /// How far the encoding is.
    pub closed spec fn progress(&self) -> Progress {
        Progress {
            model: self.model,
            stage: self.stage,
            requests: self.requests as int,
            announcements: self.announcements as int,
            frames: self.frame_index as int,
        }
    }

    /// The encoder is as far as it is after some signals.
    pub open spec fn follows(&self, signals: Seq<Signal>) -> bool {
        self.progress() == progress_after(self.progress().model, signals)
    }

    /// The parameters that the encoder was set up with.
    pub open spec fn same_parameters(&self, other: &Self) -> bool {
        &&& self.frame_width() == other.frame_width()
        &&& self.frame_height() == other.frame_height()
        &&& self.frame_rate() == other.frame_rate()
        &&& self.bit_rate() == other.bit_rate()
        &&& self.spacing() == other.spacing()
    }

    /// Sets an encoder up, for an asynchronous transform.
    pub fn new(
        width: u32,
        height: u32,
        fps: u32,
        bitrate_kbps: u32,
        keyframe_interval: u32,
    ) -> (r: Result<Self, EncoderError>)
        requires
            acceptable(width, height, fps) ==> bitrate_kbps * 1000 <= u32::MAX && width * height * 2
                <= u32::MAX,
        ensures
            match r {
                Ok(encoder) => {
                    &&& acceptable(width, height, fps)
                    &&& encoder.wf()
                    &&& encoder.frame_width() == width
                    &&& encoder.frame_height() == height
                    &&& encoder.frame_rate() == fps
                    &&& encoder.bit_rate() == bitrate_kbps * 1000
                    &&& encoder.spacing() == (if keyframe_interval == 0 {
                        1
                    } else {
                        keyframe_interval
                    })
                    &&& encoder.progress() == Progress::start(ProcessingModel::Asynchronous)
                    &&& encoder.follows(Seq::<Signal>::empty())
                },
                Err(e) => e == EncoderError::BadParameters && !acceptable(width, height, fps),
            },
    {
        if !accepts(width, height, fps) {
            return Err(EncoderError::BadParameters);
        }
        let keyframe_spacing: u32 = if keyframe_interval == 0 { 1 } else { keyframe_interval };
        assert(width * height <= u32::MAX);
        Ok(
            MftEncoder {
                width,
                height,
                fps,
                bitrate: bitrate_kbps * 1000,
                keyframe_spacing,
                output_buf_size: width * height * 2,
                model: ProcessingModel::Asynchronous,
                stage: Stage::Input,
                requests: 0,
                announcements: 0,
                frame_index: 0,
            },
        )
    }

    /// The attributes of the media type that comes out of the transform.
    pub fn output_type(&self) -> (r: Vec<MediaAttribute>)
        requires
            self.wf(),
        ensures
            r@ == seq![
                MediaAttribute::MajorTypeVideo,
                MediaAttribute::SubtypeH264,
                MediaAttribute::AverageBitrate(self.bit_rate()),
                MediaAttribute::FrameSize(
                    (self.frame_width() * 0x1_0000_0000 + self.frame_height()) as u64,
                ),
                MediaAttribute::FrameRate((self.frame_rate() * 0x1_0000_0000 + 1) as u64),
                MediaAttribute::PixelAspectRatio(0x1_0000_0001),
                MediaAttribute::InterlaceProgressive,
                MediaAttribute::ProfileBaseline,
                MediaAttribute::MaxKeyframeSpacing(self.spacing()),
            ],
    {
        let mut out: Vec<MediaAttribute> = Vec::new();
        out.push(MediaAttribute::MajorTypeVideo);
        out.push(MediaAttribute::SubtypeH264);
        out.push(MediaAttribute::AverageBitrate(self.bitrate));
        out.push(MediaAttribute::FrameSize(pack_u32_pair(self.width, self.height)));
        out.push(MediaAttribute::FrameRate(pack_u32_pair(self.fps, 1)));
        out.push(MediaAttribute::PixelAspectRatio(pack_u32_pair(1, 1)));
        out.push(MediaAttribute::InterlaceProgressive);
        out.push(MediaAttribute::ProfileBaseline);
        out.push(MediaAttribute::MaxKeyframeSpacing(self.keyframe_spacing));
        out
    }

    /// The attributes of the media type that goes into the transform.
    pub fn input_type(&self) -> (r: Vec<MediaAttribute>)
        requires
            self.wf(),
        ensures
            r@ == seq![
                MediaAttribute::MajorTypeVideo,
                MediaAttribute::SubtypeNv12,
                MediaAttribute::FrameSize(
                    (self.frame_width() * 0x1_0000_0000 + self.frame_height()) as u64,
                ),
                MediaAttribute::FrameRate((self.frame_rate() * 0x1_0000_0000 + 1) as u64),
                MediaAttribute::PixelAspectRatio(0x1_0000_0001),
                MediaAttribute::InterlaceProgressive,
                MediaAttribute::DefaultStride(self.frame_width()),
            ],
    {
        let mut out: Vec<MediaAttribute> = Vec::new();
        out.push(MediaAttribute::MajorTypeVideo);
        out.push(MediaAttribute::SubtypeNv12);
        out.push(MediaAttribute::FrameSize(pack_u32_pair(self.width, self.height)));
        out.push(MediaAttribute::FrameRate(pack_u32_pair(self.fps, 1)));
        out.push(MediaAttribute::PixelAspectRatio(pack_u32_pair(1, 1)));
        out.push(MediaAttribute::InterlaceProgressive);
        out.push(MediaAttribute::DefaultStride(self.width));
        out
    }

    /// Bytes to set aside for the output of one frame.
    pub fn output_buffer_size(&self) -> (r: u32)
        requires
            self.wf(),
        ensures
            r == self.frame_width() * self.frame_height() * 2,
    {
        self.output_buf_size
    }

    /// Takes note of how the transform is driven.
    pub fn set_model(&mut self, model: ProcessingModel)
        requires
            old(self).wf(),
        ensures
            final(self).wf(),
            final(self).same_parameters(old(self)),
            final(self).progress() == (Progress { model, ..old(self).progress() }),
            old(self).follows(Seq::<Signal>::empty()) ==> final(self).follows(
                Seq::<Signal>::empty(),
            ),
    {
        self.model = model;
    }

    /// Tells whether the time of the next frame can no longer be written down.
    pub fn exhausted(&self) -> (r: bool)
        requires
            self.wf(),
        ensures
            r == (self.progress().frames * TICKS_PER_SECOND > i64::MAX),
    {
        self.frame_index > i64::MAX / TICKS_PER_SECOND
    }

    /// Begins with a frame of BGRA pixels, and prepares it for the transform.
    pub fn begin_frame(&mut self, bgra: &[u8]) -> (r: Result<InputSample, EncoderError>)
        requires
            old(self).wf(),
            old(self).progress().frames * TICKS_PER_SECOND <= i64::MAX,
        ensures
            final(self).wf(),
            final(self).same_parameters(old(self)),
            ({
                let w = old(self).frame_width() as int;
                let h = old(self).frame_height() as int;
                let fps = old(self).frame_rate() as int;
                match r {
                    Ok(sample) => {
                        &&& bgra@.len() == w * h * 4
                        &&& sample.nv12@ == luma_plane(bgra@, w, h) + chroma_plane(bgra@, w, h)
                        &&& sample.time == frame_time(old(self).progress().frames, fps)
                        &&& sample.duration == TICKS_PER_SECOND as int / fps
                        &&& fps * sample.duration <= 10_000_000 < fps * sample.duration + fps
                        &&& 2 * sample.nv12@.len() == 3 * (w * h)
                        &&& final(self).progress() == old(self).progress().begun()
                    },
                    Err(e) => {
                        &&& bgra@.len() != w * h * 4
                        &&& e == (EncoderError::FrameSize {
                            actual: bgra@.len() as u64,
                            expected: (w * h * 4) as u64,
                        })
                        &&& final(self).progress() == old(self).progress()
                    },
                }
            }),
            forall|signals: Seq<Signal>| #[trigger]
                old(self).follows(signals) ==> match r {
                    Ok(sample) => {
                        &&& final(self).follows(signals.push(Signal::Begin))
                        &&& sample.time == frame_time(
                            samples(signals),
                            old(self).frame_rate() as int,
                        )
                    },
                    Err(_) => final(self).follows(signals),
                },
    {
        proof {
            assert forall|signals: Seq<Signal>| #[trigger] old(self).follows(signals) implies {
                &&& progress_after(old(self).progress().model, signals.push(Signal::Begin)) == old(
                    self
                ).progress().begun()
                &&& samples(signals) == old(self).progress().frames
            } by {
                lemma_progress_after_push(old(self).progress().model, signals, Signal::Begin);
                lemma_frames_are_samples(old(self).progress().model, signals);
            }
        }
        let expected: u64 = self.output_buf_size as u64 * 2;
        let actual: u64 = bgra.len() as u64;
        assert(expected == self.width * self.height * 4) by (nonlinear_arith)
            requires
                expected == self.output_buf_size * 2,
                self.output_buf_size == self.width * self.height * 2,
        ;
        if actual != expected {
            return Err(EncoderError::FrameSize { actual, expected });
        }
        let (y_plane, uv_plane): (Vec<u8>, Vec<u8>) = bgra_to_nv12(
            bgra,
            self.width as usize,
            self.height as usize,
        );
        let mut nv12: Vec<u8> = y_plane;
        let mut tail: Vec<u8> = uv_plane;
        nv12.append(&mut tail);
        assert(self.frame_index * TICKS_PER_SECOND >= 0);
        let time: i64 = self.frame_index * TICKS_PER_SECOND / (self.fps as i64);
        let duration: i64 = TICKS_PER_SECOND / (self.fps as i64);
        proof {
            lemma_nv12_size(bgra@, self.width as int, self.height as int);
            let f = self.fps as int;
            vstd::arithmetic::div_mod::lemma_fundamental_div_mod(10_000_000, f);
            vstd::arithmetic::div_mod::lemma_mod_bound(10_000_000, f);
        }
        self.stage = Stage::Input;
        Ok(InputSample { nv12, time, duration })
    }

    /// Takes in what came while an event was waited for: an event, the reason why
    /// none could be received, or nothing in time. Either of the last two ends the
    /// frame.
    pub fn on_event(&mut self, awaited: i32, event: Option<Result<i32, String>>) -> (r: Result<
        (),
        EncoderError,
    >)
        requires
            old(self).wf(),
        ensures
            final(self).wf(),
            final(self).same_parameters(old(self)),
            final(self).progress() == (match event {
                Some(Ok(actual)) => old(self).progress().arrived(actual),
                _ => old(self).progress(),
            }),
            r == (match event {
                Some(Ok(_)) => Ok::<(), EncoderError>(()),
                Some(Err(reason)) => Err(EncoderError::Event(reason)),
                None => Err(EncoderError::TimedOut(awaited)),
            }),
            forall|signals: Seq<Signal>| #[trigger]
                old(self).follows(signals) ==> match event {
                    Some(Ok(actual)) => final(self).follows(signals.push(Signal::Event(actual))),
                    _ => final(self).follows(signals),
                },
    {
        proof {
            if let Some(Ok(actual)) = event {
                assert forall|signals: Seq<Signal>| #[trigger] old(self).follows(signals) implies
                    progress_after(
                    old(self).progress().model,
                    signals.push(Signal::Event(actual)),
                ) == old(self).progress().arrived(actual) by {
                    lemma_progress_after_push(
                        old(self).progress().model,
                        signals,
                        Signal::Event(actual),
                    );
                }
            }
        }
        match event {
            Some(Ok(actual)) => {
                if actual == NEED_INPUT {
                    if self.requests < u64::MAX {
                        self.requests = self.requests + 1;
                    }
                } else if actual == HAVE_OUTPUT {
                    if self.announcements < u64::MAX {
                        self.announcements = self.announcements + 1;
                    }
                }
                Ok(())
            },
            Some(Err(reason)) => Err(EncoderError::Event(reason)),
            None => Err(EncoderError::TimedOut(awaited)),
        }
    }

    /// Says what is to be done next for the frame; an input uses up a request, an
    /// output an announcement.
    pub fn next_action(&mut self) -> (r: Action)
        requires
            old(self).wf(),
        ensures
            final(self).wf(),
            final(self).same_parameters(old(self)),
            r == old(self).progress().action(),
            final(self).progress() == old(self).progress().acted(),
            forall|signals: Seq<Signal>| #[trigger]
                old(self).follows(signals) ==> final(self).follows(signals.push(Signal::Act)),
    {
        proof {
            assert forall|signals: Seq<Signal>| #[trigger] old(self).follows(signals) implies
                progress_after(old(self).progress().model, signals.push(Signal::Act)) == old(
                self
            ).progress().acted() by {
                lemma_progress_after_push(old(self).progress().model, signals, Signal::Act);
            }
        }
        let free: bool = self.model == ProcessingModel::Synchronous;
        match self.stage {
            Stage::Input => {
                if !free && self.requests == 0 {
                    return Action::Wait(NEED_INPUT);
                }
                if !free {
                    self.requests = self.requests - 1;
                }
                self.stage = Stage::Output;
                Action::Submit
            },
            Stage::Output => {
                if !free && self.announcements == 0 {
                    return Action::Wait(HAVE_OUTPUT);
                }
                if !free {
                    self.announcements = self.announcements - 1;
                }
                self.stage = Stage::Input;
                Action::Collect
            },
        }
    }

    /// Counts a frame, once the sample to hand over has been built. A frame that no
    /// sample could be built for leaves its time to the next one.
    pub fn sample_built(&mut self)
        requires
            old(self).wf(),
            old(self).progress().frames < i64::MAX,
        ensures
            final(self).wf(),
            final(self).same_parameters(old(self)),
            final(self).progress() == old(self).progress().built(),
            forall|signals: Seq<Signal>| #[trigger]
                old(self).follows(signals) ==> final(self).follows(signals.push(Signal::Built)),
    {
        proof {
            assert forall|signals: Seq<Signal>| #[trigger] old(self).follows(signals) implies
                progress_after(old(self).progress().model, signals.push(Signal::Built)) == old(
                self
            ).progress().built() by {
                lemma_progress_after_push(old(self).progress().model, signals, Signal::Built);
            }
        }
        self.frame_index = self.frame_index + 1;
    }

    /// Tells whether a frame is merely held back, where the transform says that it
    /// needs more input before there is output. After an announcement it is an
    /// error.
    pub fn holds_back(&self, needs_more_input: bool) -> (r: bool)
        requires
            self.wf(),
        ensures
            r == (needs_more_input && self.progress().model == ProcessingModel::Synchronous),
    {
        needs_more_input && self.model == ProcessingModel::Synchronous
    }
}

/// Reads the output of a transform for one frame: `sample` is the sample's bytes,
/// where there is a sample, and `clean_point` the mark of a keyframe on it, where
/// it has one.
pub fn encoded_frame(sample: Option<&[u8]>, clean_point: Option<u32>) -> (r: Result<
    EncodedFrame,
    EncoderError,
>)
    ensures
        match sample {
            None => r == Err::<EncodedFrame, EncoderError>(EncoderError::NoSample),
            Some(raw) => if annex_b(raw@).len() == 0 {
                r == Err::<EncodedFrame, EncoderError>(EncoderError::NoOutput)
            } else {
                r matches Ok(frame) && frame.data@ == annex_b(raw@) && frame.keyframe == (
                clean_point == Some(1u32))
            },
        },
{
    match sample {
        None => Err(EncoderError::NoSample),
        Some(raw) => {
            let data: Vec<u8> = to_annex_b(raw);
            if data.len() == 0 {
                return Err(EncoderError::NoOutput);
            }
            let keyframe: bool = match clean_point {
                Some(mark) => mark == 1,
                None => false,
            };
            Ok(EncodedFrame { data, keyframe })
        },
    }
}

/// Sample times begin at 0, never go back, and do not drift: each is the exact time
/// without its fraction of a tick, however many frames came before, and as many
/// frames later as there are in a second it is exactly one second later.
pub proof fn lemma_frame_times(earlier: int, later: int, fps: int)
    requires
        0 <= earlier <= later,
        fps > 0,
    ensures
        frame_time(0, fps) == 0,
        frame_time(earlier, fps) <= frame_time(later, fps),
        fps * frame_time(later, fps) <= later * TICKS_PER_SECOND < fps * frame_time(later, fps)
            + fps,
        fps * frame_time(later, fps) <= later * 10_000_000 < fps * frame_time(later, fps) + fps,
        frame_time(later + fps, fps) == frame_time(later, fps) + 10_000_000,
{
    let t = TICKS_PER_SECOND as int;
    assert(0 * t == 0 && 0int / fps == 0) by (nonlinear_arith)
        requires
            fps > 0,
    ;
    assert((later + fps) * t == later * t + fps * t && t * fps == fps * t && earlier * t <= later
        * t) by (nonlinear_arith)
        requires
            t >= 0,
            earlier <= later,
    ;
    vstd::arithmetic::div_mod::lemma_hoist_over_denominator(later * t, t, fps as nat);
    vstd::arithmetic::div_mod::lemma_div_is_ordered(earlier * t, later * t, fps);
    vstd::arithmetic::div_mod::lemma_fundamental_div_mod(later * t, fps);
    vstd::arithmetic::div_mod::lemma_mod_bound(later * t, fps);
}

/// A prepared frame has one and a half bytes for each pixel.
pub proof fn lemma_nv12_size(bgra: Seq<u8>, width: int, height: int)
    requires
        width >= 0,
        height >= 0,
        height % 2 == 0,
    ensures
        2 * (luma_plane(bgra, width, height) + chroma_plane(bgra, width, height)).len() == 3 * (width
            * height),
{
    assert(width * height >= 0 && width * (height / 2) >= 0 && 2 * (width * (height / 2)) == width
        * height) by (nonlinear_arith)
        requires
            width >= 0,
            height >= 0,
            height % 2 == 0,
    ;
}

/// The action is one for a frame that has not been handed over.
pub open spec fn before_input(action: Action) -> bool {
    action == Action::Submit || action == Action::Wait(601)
}

/// The action is one for a frame whose output has not been fetched.
pub open spec fn before_output(action: Action) -> bool {
    action == Action::Collect || action == Action::Wait(602)
}

/// An asynchronous transform is never waited for in vain: a frame is handed over if more
/// requests came than frames were handed over, and output is fetched if more
/// announcements came than outputs were fetched, however many samples were built. The
/// next event is waited for only where all of its kind have been made use of.
pub proof fn lemma_waits_only_where_it_must(signals: Seq<Signal>)
    requires
        signals.len() <= u64::MAX,
    ensures
        ({
            let model = ProcessingModel::Asynchronous;
            let action = progress_after(model, signals).action();
            let inputs = done(model, signals, Action::Submit);
            let outputs = done(model, signals, Action::Collect);
            &&& before_input(action) || before_output(action)
            &&& before_input(action) ==> (action == Action::Submit <==> times(signals, 601)
                > inputs)
            &&& before_input(action) ==> (action == Action::Wait(601) <==> times(signals, 601)
                == inputs)
            &&& before_output(action) ==> (action == Action::Collect <==> times(signals, 602)
                > outputs)
            &&& before_output(action) ==> (action == Action::Wait(602) <==> times(signals, 602)
                == outputs)
        }),
{
    lemma_calls_are_paired(signals);
}

/// Input and output take turns, for either model: a frame that is begun is to be handed
/// over first, one that was handed over is to be fetched, and behind that it is the
/// next one's turn. Events, samples and waiting leave the turn as it is, and a sample
/// that was built leaves the action as it is.
pub proof fn lemma_turns(model: ProcessingModel, signals: Seq<Signal>, event: i32)
    ensures
        ({
            let action = progress_after(model, signals).action();
            let begun = progress_after(model, signals.push(Signal::Begin)).action();
            let acted = progress_after(model, signals.push(Signal::Act)).action();
            let heard = progress_after(model, signals.push(Signal::Event(event))).action();
            let built = progress_after(model, signals.push(Signal::Built)).action();
            &&& before_input(action) != before_output(action)
            &&& signals.len() == 0 ==> before_input(action)
            &&& before_input(begun)
            &&& action == Action::Submit ==> before_output(acted)
            &&& action == Action::Collect ==> before_input(acted)
            &&& action is Wait ==> acted == action
            &&& before_input(heard) == before_input(action)
            &&& built == action
            &&& model == ProcessingModel::Synchronous ==> action == Action::Submit || action
                == Action::Collect
        }),
{
    lemma_model_stays(model, signals);
    lemma_progress_after_push(model, signals, Signal::Begin);
    lemma_progress_after_push(model, signals, Signal::Act);
    lemma_progress_after_push(model, signals, Signal::Event(event));
    lemma_progress_after_push(model, signals, Signal::Built);
}

/// What is counted grows by one with what it counts, and with nothing else.
pub proof fn lemma_counts(model: ProcessingModel, signals: Seq<Signal>, signal: Signal, event: i32)
    ensures
        samples(Seq::<Signal>::empty()) == 0,
        times(Seq::<Signal>::empty(), event) == 0,
        samples(signals.push(signal)) - samples(signals) == (if signal is Built {
            1int
        } else {
            0
        }),
        times(signals.push(signal), event) - times(signals, event) == (if signal == Signal::Event(
            event,
        ) {
            1int
        } else {
            0
        }),
        done(model, signals.push(signal), Action::Submit) - done(model, signals, Action::Submit)
            == (if signal is Act && progress_after(model, signals).action() == Action::Submit {
            1int
        } else {
            0
        }),
        done(model, signals.push(signal), Action::Collect) - done(model, signals, Action::Collect)
            == (if signal is Act && progress_after(model, signals).action() == Action::Collect {
            1int
        } else {
            0
        }),
{
    assert(signals.push(signal).drop_last() =~= signals);
}

/// An encoder can be set up for frames that are made of whole squares of two by two
/// pixels, at least one, and for at least one of them a second; and for no others.
pub proof fn lemma_acceptable_sizes(width: u32, height: u32, fps: u32, columns: int, rows: int)
    ensures
        columns >= 1 && rows >= 1 && fps >= 1 && width == 2 * columns && height == 2 * rows
            ==> acceptable(width, height, fps),
        acceptable(width, height, fps) ==> fps >= 1 && exists|c: int, r: int|
            c >= 1 && r >= 1 && width == #[trigger] (2 * c) && height == #[trigger] (2 * r),
{
    if acceptable(width, height, fps) {
        let c = width as int / 2;
        let r = height as int / 2;
        assert(width == 2 * c && height == 2 * r);
    }
}

/// Encoders with the same parameters have all of them in common.
pub proof fn lemma_same_parameters(one: MftEncoder, other: MftEncoder)
    ensures
        one.same_parameters(&other) <==> {
            &&& one.frame_width() == other.frame_width()
            &&& one.frame_height() == other.frame_height()
            &&& one.frame_rate() == other.frame_rate()
            &&& one.bit_rate() == other.bit_rate()
            &&& one.spacing() == other.spacing()
        },
{
}

} // verus!
