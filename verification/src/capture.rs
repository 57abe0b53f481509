//! Monitors and captured frames.

use vstd::prelude::*;
use vstd::slice::slice_subrange;
#[allow(unused_imports)]
use vstd::string::StringExecFns;
use crate::bytes::put_bytes;
use crate::text::put_decimal;
#[allow(unused_imports)]
use crate::text::decimal;
use crate::touch::Rect;

verus! {

/// One captured frame: rows of BGRA pixels, top to bottom, without gaps.
#[derive(Clone, Debug)]
pub struct CapturedFrame {
    pub bgra: Vec<u8>,
    pub width: u32,
    pub height: u32,
}

/// Place and size of a monitor in pixels of the virtual screen, and the handle
/// under which the operating system knows it.
#[derive(Clone, Copy, Debug, PartialEq, Eq, Structural)]
pub struct MonitorBounds {
    pub left: i32,
    pub top: i32,
    pub width: u32,
    pub height: u32,
    pub hmonitor: usize,
    pub is_primary: bool,
}

/// How a monitor is captured.
#[derive(Clone, Copy, Debug, PartialEq, Eq, Structural)]
pub struct MonitorCaptureConfig {
    /// Frames that may wait to be encoded.
    pub buffers: i32,
    /// Whether the mouse cursor is captured too.
    pub include_cursor: bool,
}

impl Default for MonitorCaptureConfig {
    fn default() -> (r: Self)
        ensures
            r == (MonitorCaptureConfig { buffers: 2, include_cursor: true }),
    {
        MonitorCaptureConfig { buffers: 2, include_cursor: true }
    }
}

/// Why there is no frame.
#[derive(Clone, Copy, Debug)]
pub enum CaptureError {
    /// None came in time.
    Timeout,
    /// None will come any more.
    Closed(&'static str),
}

impl CaptureError {
    /// The error in words.
    pub fn describe(&self) -> (r: String)
        ensures
            r@ == (match self {
                CaptureError::Timeout => "capture timeout"@,
                CaptureError::Closed(reason) => "capture closed: "@ + reason@,
            }),
    {
        match self {
            CaptureError::Timeout => String::from_str("capture timeout"),
            CaptureError::Closed(reason) => {
                let mut text: String = String::from_str("capture closed: ");
                text.append(reason);
                text
            },
        }
    }
}

/// What waiting for a frame came to.
#[derive(Debug)]
pub enum Received {
    Frame(CapturedFrame),
    TimedOut,
    Disconnected,
}

/// The frame, or why there is none.
pub fn next_frame(received: Received) -> (r: Result<CapturedFrame, CaptureError>)
    ensures
        match received {
            Received::Frame(frame) => r == Ok::<CapturedFrame, CaptureError>(frame),
            Received::TimedOut => r matches Err(CaptureError::Timeout),
            Received::Disconnected => r matches Err(CaptureError::Closed(reason)) && reason@
                == "frame channel closed"@,
        },
{
    match received {
        Received::Frame(frame) => Ok(frame),
        Received::TimedOut => Err(CaptureError::Timeout),
        Received::Disconnected => Err(CaptureError::Closed("frame channel closed")),
    }
}

/// Whether a monitor is the primary one: by the lowest of its flags, where they
/// could be read.
pub fn is_primary(flags_read: bool, flags: u32) -> (r: bool)
    ensures
        r == (flags_read && flags % 2 == 1),
{
    flags_read && flags % 2 == 1
}

/// The distance from one edge to another, in 32 bits.
pub open spec fn extent(from: i32, to: i32) -> u32 {
    ((to - from) % 0x1_0000_0000) as u32
}

fn distance(from: i32, to: i32) -> (r: u32)
    ensures
        r == extent(from, to),
{
    let d: i64 = to as i64 - from as i64;
    if d < 0 {
        (d + 0x1_0000_0000) as u32
    } else {
        d as u32
    }
}

/// The bounds of a monitor by its handle, its rectangle and whether it is the
/// primary one.
pub open spec fn bounds_of(monitor: (usize, Rect, bool)) -> MonitorBounds {
    MonitorBounds {
        left: monitor.1.left,
        top: monitor.1.top,
        width: extent(monitor.1.left, monitor.1.right),
        height: extent(monitor.1.top, monitor.1.bottom),
        hmonitor: monitor.0,
        is_primary: monitor.2,
    }
}

/// The bounds of the monitors that the operating system has enumerated.
pub fn list_monitors(monitors: &[(usize, Rect, bool)]) -> (r: Vec<MonitorBounds>)
    ensures
        r@ == Seq::new(monitors@.len(), |i: int| bounds_of(monitors@[i])),
        forall|i: int|
            0 <= i < monitors@.len() ==> {
                let bounds = #[trigger] r@[i];
                let place = monitors@[i].1;
                &&& place.left <= place.right ==> bounds.left + bounds.width == place.right
                &&& place.top <= place.bottom ==> bounds.top + bounds.height == place.bottom
                &&& bounds.left == place.left && bounds.top == place.top
                &&& bounds.hmonitor == monitors@[i].0 && bounds.is_primary == monitors@[i].2
            },
{
    let mut out: Vec<MonitorBounds> = Vec::new();
    let mut i: usize = 0;
    while i < monitors.len()
        invariant
            i <= monitors.len(),
            out@ =~= Seq::new(i as nat, |j: int| bounds_of(monitors@[j])),
        decreases monitors.len() - i,
    {
        let monitor: (usize, Rect, bool) = monitors[i];
        out.push(
            MonitorBounds {
                left: monitor.1.left,
                top: monitor.1.top,
                width: distance(monitor.1.left, monitor.1.right),
                height: distance(monitor.1.top, monitor.1.bottom),
                hmonitor: monitor.0,
                is_primary: monitor.2,
            },
        );
        i = i + 1;
    }
    out
}

/// The monitor with the given number, or a complaint.
pub fn select_monitor(monitors: &[MonitorBounds], index: usize) -> (r: Result<
    MonitorBounds,
    String,
>)
    ensures
        match r {
            Ok(bounds) => index < monitors@.len() && bounds == monitors@[index as int],
            Err(text) => {
                &&& index >= monitors@.len()
                &&& text@ == "monitor index "@ + decimal(index as nat) + " out of range ("@
                    + decimal(monitors@.len()) + " total)"@
            },
        },
{
    if index < monitors.len() {
        return Ok(monitors[index]);
    }
    let mut text: String = String::from_str("monitor index ");
    put_decimal(&mut text, index as u64);
    text.append(" out of range (");
    put_decimal(&mut text, monitors.len() as u64);
    text.append(" total)");
    Err(text)
}

/// Why a captured texture gives no frame.
#[derive(Clone, Copy, Debug, PartialEq, Eq, Structural)]
pub enum FrameError {
    /// There is nothing in it.
    EmptyContent,
}

impl FrameError {
    /// The error in words.
    pub fn describe(&self) -> (r: String)
        ensures
            r@ == "captured content size is zero"@,
    {
        String::from_str("captured content size is zero")
    }
}

/// How much of `size` pixels is content: what was asked for, but no more than there is.
pub open spec fn cropped(size: u32, content: i32) -> u32 {
    if content < 0 {
        0
    } else if content > size {
        size
    } else {
        content as u32
    }
}

fn crop(size: u32, content: i32) -> (r: u32)
    ensures
        r == cropped(size, content),
{
    if content < 0 {
        0
    } else if content as u32 > size {
        size
    } else {
        content as u32
    }
}

/// The size of the frame in a texture of `width` by `height` pixels.
pub fn content_size(width: u32, height: u32, content_width: i32, content_height: i32) -> (r: Result<
    (u32, u32),
    FrameError,
>)
    ensures
        ({
            let w = cropped(width, content_width);
            let h = cropped(height, content_height);
            r == (if w == 0 || h == 0 {
                Err::<(u32, u32), FrameError>(FrameError::EmptyContent)
            } else {
                Ok((w, h))
            })
        }),
{
    let w: u32 = crop(width, content_width);
    let h: u32 = crop(height, content_height);
    if w == 0 || h == 0 {
        Err(FrameError::EmptyContent)
    } else {
        Ok((w, h))
    }
}

/// The first `row_bytes` bytes of each of `rows` rows that begin `row_pitch` bytes apart.
pub open spec fn packed_rows(mapped: Seq<u8>, row_pitch: int, row_bytes: int, rows: int) -> Seq<u8> {
    Seq::new(
        (rows * row_bytes) as nat,
        |i: int| mapped[i / row_bytes * row_pitch + i % row_bytes],
    )
}

/// The bytes of the mapped texture that a frame is read from.
pub open spec fn bytes_needed(row_pitch: u32, width: u32, height: u32) -> int {
    (height - 1) * row_pitch + 4 * width
}

/// Copies the content of a mapped texture, whose rows begin `row_pitch` bytes
/// apart, into a frame.
pub fn extract_frame(
    mapped: &[u8],
    row_pitch: u32,
    width: u32,
    height: u32,
    content_width: i32,
    content_height: i32,
) -> (r: Result<CapturedFrame, FrameError>)
    requires
        ({
            let w = cropped(width, content_width);
            let h = cropped(height, content_height);
            w > 0 && h > 0 ==> mapped@.len() >= bytes_needed(row_pitch, w, h)
        }),
    ensures
        ({
            let w = cropped(width, content_width);
            let h = cropped(height, content_height);
            match r {
                Ok(frame) => {
                    &&& w > 0 && h > 0
                    &&& frame.width == w && frame.height == h
                    &&& frame.bgra@ == packed_rows(mapped@, row_pitch as int, 4 * w, h as int)
                    &&& frame.bgra@.len() == w * h * 4
                    &&& forall|x: int, y: int, c: int|
                        0 <= x < w && 0 <= y < h && 0 <= c < 4 ==> #[trigger] frame.bgra@[(y * w + x)
                            * 4 + c] == mapped@[y * row_pitch + 4 * x + c]
                },
                Err(e) => e == FrameError::EmptyContent && (w == 0 || h == 0),
            }
        }),
{
    let (w, h): (u32, u32) = match content_size(width, height, content_width, content_height) {
        Ok(size) => size,
        Err(e) => return Err(e),
    };
    let n: usize = mapped.len();
    let pitch: usize = row_pitch as usize;
    proof {
        assert((h - 1) * row_pitch >= 0) by (nonlinear_arith)
            requires
                h >= 1,
                row_pitch >= 0,
        ;
    }
    let row_bytes: usize = w as usize * 4;
    let mut bgra: Vec<u8> = Vec::new();
    let ghost expected = packed_rows(mapped@, row_pitch as int, 4 * w, h as int);
    let mut y: u32 = 0;
    let mut start: usize = 0;
    proof {
        assert(0 * row_bytes == 0 && 0 * pitch == 0);
        assert(expected.take(0) =~= seq![]);
    }
    while y < h
        invariant
            n == mapped@.len(),
            y <= h,
            row_bytes == 4 * w,
            row_bytes > 0,
            pitch == row_pitch,
            n >= (h - 1) * pitch + row_bytes,
            expected == packed_rows(mapped@, pitch as int, row_bytes as int, h as int),
            y < h ==> start == y * pitch,
            bgra@ =~= expected.take(y * row_bytes),
        decreases h - y,
    {
        proof {
            assert(y * pitch + row_bytes <= n && (y + 1) * row_bytes <= h * row_bytes && (y + 1)
                * row_bytes == y * row_bytes + row_bytes && (y + 1) * pitch == y * pitch + pitch && (y
                + 1 < h ==> (y + 1) * pitch <= n) && 0 <= y * row_bytes) by (nonlinear_arith)
                requires
                    y < h,
                    pitch >= 0,
                    row_bytes > 0,
                    n >= (h - 1) * pitch + row_bytes,
            ;
        }
        let row: &[u8] = slice_subrange(mapped, start, start + row_bytes);
        let ghost before = bgra@;
        put_bytes(&mut bgra, row);
        proof {
            assert forall|k: int| 0 <= k < row_bytes implies expected[y * row_bytes + k] == #[trigger] row@[k] by {
                crate::color::lemma_row_and_column(y as int, row_bytes as int, k);
            }
            assert(bgra@ =~= expected.take((y + 1) * row_bytes));
        }
        y = y + 1;
        if y < h {
            start = start + pitch;
        }
    }
    assert(bgra@ =~= expected);
    proof {
        lemma_frame_size(mapped@, row_pitch as int, w as int, h as int);
        assert forall|x: int, y: int, c: int| 0 <= x < w && 0 <= y < h && 0 <= c < 4 implies
            #[trigger] bgra@[(y * w + x) * 4 + c] == mapped@[y * row_pitch + 4 * x + c] by {
            lemma_frame_pixel(mapped@, row_pitch as int, w as int, h as int, x, y, c);
        }
    }
    Ok(CapturedFrame { bgra, width: w, height: h })
}

/// A frame has four bytes for each of its pixels.
pub proof fn lemma_frame_size(mapped: Seq<u8>, row_pitch: int, width: int, height: int)
    requires
        width >= 0,
        height >= 0,
    ensures
        packed_rows(mapped, row_pitch, 4 * width, height).len() == width * height * 4,
{
    assert(height * (4 * width) == width * height * 4 && height * (4 * width) >= 0)
        by (nonlinear_arith)
        requires
            width >= 0,
            height >= 0,
    ;
}

/// Pixel by pixel, a frame is what the mapped texture holds, whatever bytes stand
/// behind the content of each row.
pub proof fn lemma_frame_pixel(
    mapped: Seq<u8>,
    row_pitch: int,
    width: int,
    height: int,
    x: int,
    y: int,
    c: int,
)
    requires
        0 <= x < width,
        0 <= y < height,
        0 <= c < 4,
    ensures
        packed_rows(mapped, row_pitch, 4 * width, height)[(y * width + x) * 4 + c] == mapped[y
            * row_pitch + 4 * x + c],
{
    let k = 4 * x + c;
    crate::color::lemma_row_and_column(y, 4 * width, k);
    assert((y * width + x) * 4 + c == y * (4 * width) + k && 0 <= y * (4 * width) && y * (4 * width)
        + k < height * (4 * width)) by (nonlinear_arith)
        requires
            k == 4 * x + c,
            0 <= x < width,
            0 <= y < height,
            0 <= c < 4,
    ;
}

/// A monitor reaches from its left to its right edge and from its top to its bottom
/// edge, wherever on the virtual screen it lies; edges in the wrong order count round
/// in 32 bits. Where it lies makes no difference to its size.
pub proof fn lemma_bounds_reach_the_edges(
    monitor: (usize, Rect, bool),
    moved: (usize, Rect, bool),
    dx: int,
    dy: int,
)
    requires
        moved.1.left == monitor.1.left + dx,
        moved.1.right == monitor.1.right + dx,
        moved.1.top == monitor.1.top + dy,
        moved.1.bottom == monitor.1.bottom + dy,
    ensures
        ({
            let place = monitor.1;
            let bounds = bounds_of(monitor);
            &&& bounds.left == place.left && bounds.top == place.top
            &&& place.left <= place.right ==> bounds.left + bounds.width == place.right
            &&& place.left > place.right ==> bounds.left + bounds.width == place.right
                + 0x1_0000_0000
            &&& place.top <= place.bottom ==> bounds.top + bounds.height == place.bottom
            &&& place.top > place.bottom ==> bounds.top + bounds.height == place.bottom
                + 0x1_0000_0000
            &&& bounds.hmonitor == monitor.0 && bounds.is_primary == monitor.2
            &&& bounds_of(moved).width == bounds.width && bounds_of(moved).height == bounds.height
        }),
{
}

/// The content of a frame is as much as was asked for and as there is, on each axis:
/// no more than either, and all of one of them.
pub proof fn lemma_crop_is_the_smaller(size: u32, content: i32)
    ensures
        cropped(size, content) <= size,
        content >= 0 ==> cropped(size, content) <= content,
        cropped(size, content) == size || cropped(size, content) == content || (content < 0
            && cropped(size, content) == 0),
        cropped(size, content) == 0 <==> size == 0 || content <= 0,
{
}

} // verus!
