//! Server side of a remote touch monitor: one monitor of the desktop is
//! captured, encoded as H.264 and streamed to a tablet, and the tablet's touches
//! come back and are injected into that monitor.
//!
//! This library holds everything that can be decided on plain values: the wire
//! formats, the pixel conversions, the touch bookkeeping and the rules by which
//! frames are routed. The program around it talks to the operating system.

pub mod annex_b;
pub mod bytes;
pub mod capture;
pub mod color;
pub mod encoder;
pub mod encoder_mft;
pub mod openh264_api;
pub mod options;
pub mod protocol;
pub mod rounding;
pub mod service;
pub mod stream;
pub mod text;
pub mod touch;
pub mod udp;
pub mod usb;
