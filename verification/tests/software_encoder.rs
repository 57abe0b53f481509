use openh264::decoder::Decoder;
use openh264::encoder::FrameRate;
use openh264::formats::YUVSource;
use touchmonitor_server::encoder::{encoded_frame, FrameKind, H264Encoder, H264Error};

fn encoder(width: usize, height: usize) -> H264Encoder {
    match H264Encoder::new(width, height, FrameRate::from_hz(30.0), 2000) {
        Ok(encoder) => encoder,
        Err(e) => panic!("{}", e.describe()),
    }
}

/// Bytes of a frame in one color.
fn plain(width: usize, height: usize, b: u8, g: u8, r: u8) -> Vec<u8> {
    [b, g, r, 255].repeat(width * height)
}

#[test]
fn first_frame_is_an_annex_b_keyframe() {
    let mut encoder = encoder(64, 48);
    match encoder.encode_frame(&plain(64, 48, 200, 100, 50)) {
        Ok(frame) => {
            assert!(frame.keyframe);
            assert_eq!(&frame.data[..4], &[0, 0, 0, 1]);
        }
        Err(e) => panic!("{}", e.describe()),
    }
}

#[test]
fn encoded_picture_is_the_converted_frame() {
    let (b, g, r) = (200i32, 100i32, 50i32);
    let mut encoder = encoder(64, 48);
    let frame = match encoder.encode_frame(&plain(64, 48, b as u8, g as u8, r as u8)) {
        Ok(frame) => frame,
        Err(e) => panic!("{}", e.describe()),
    };
    let mut decoder = match Decoder::new() {
        Ok(decoder) => decoder,
        Err(e) => panic!("{e}"),
    };
    let picture = match decoder.decode(&frame.data) {
        Ok(Some(picture)) => picture,
        Ok(None) => panic!("no picture"),
        Err(e) => panic!("{e}"),
    };
    assert_eq!(picture.dimensions(), (64, 48));
    let y = (66 * r + 129 * g + 25 * b) / 256 + 16;
    let u = (112 * b - 38 * r - 74 * g).div_euclid(256) + 128;
    let v = (112 * r - 18 * b - 94 * g).div_euclid(256) + 128;
    // Encoding loses a little.
    assert!((picture.y()[0] as i32 - y).abs() <= 3);
    assert!((picture.u()[0] as i32 - u).abs() <= 3);
    assert!((picture.v()[0] as i32 - v).abs() <= 3);
}

#[test]
fn gray_has_no_chroma() {
    for level in [0u8, 128, 255] {
        let mut encoder = encoder(64, 48);
        let frame = match encoder.encode_frame(&plain(64, 48, level, level, level)) {
            Ok(frame) => frame,
            Err(e) => panic!("{}", e.describe()),
        };
        let mut decoder = match Decoder::new() {
            Ok(decoder) => decoder,
            Err(e) => panic!("{e}"),
        };
        match decoder.decode(&frame.data) {
            Ok(Some(picture)) => {
                assert!((picture.u()[0] as i32 - 128).abs() <= 1);
                assert!((picture.v()[0] as i32 - 128).abs() <= 1);
            }
            Ok(None) => panic!("no picture"),
            Err(e) => panic!("{e}"),
        }
    }
}

#[test]
fn later_frames_are_not_keyframes() {
    let mut encoder = encoder(64, 48);
    assert!(encoder.encode_frame(&plain(64, 48, 1, 2, 3)).is_ok());
    match encoder.encode_frame(&plain(64, 48, 1, 2, 3)) {
        Ok(frame) => assert!(!frame.keyframe),
        Err(e) => panic!("{}", e.describe()),
    }
}

#[test]
fn large_frames_are_refused() {
    let mut encoder = encoder(3842, 2);
    match encoder.encode_frame(&plain(3842, 2, 0, 0, 0)) {
        Err(H264Error::Encode(reason)) => {
            assert!(H264Error::Encode(reason).describe().starts_with("encode: "))
        }
        other => panic!("{other:?}"),
    }
}

#[test]
fn large_bit_rates_are_refused() {
    let mut encoder = match H264Encoder::new(64, 48, FrameRate::from_hz(30.0), 3_000_000) {
        Ok(encoder) => encoder,
        Err(e) => panic!("{}", e.describe()),
    };
    assert!(encoder.encode_frame(&plain(64, 48, 0, 0, 0)).is_err());
}

#[test]
fn keyframes_stand_for_themselves() {
    for (kind, keyframe) in [
        (FrameKind::Invalid, false),
        (FrameKind::Idr, true),
        (FrameKind::I, true),
        (FrameKind::P, false),
        (FrameKind::Skip, false),
        (FrameKind::Mixed, false),
    ] {
        match encoded_frame(Ok((vec![1, 2], kind))) {
            Ok(frame) => {
                assert_eq!(frame.data, vec![1, 2]);
                assert_eq!(frame.keyframe, keyframe);
            }
            Err(e) => panic!("{}", e.describe()),
        }
    }
    match encoded_frame(Err("lost".to_string())) {
        Err(e) => assert_eq!(e.describe(), "encode: lost"),
        Ok(_) => panic!("lost"),
    }
    assert_eq!(H264Error::Create("none".to_string()).describe(), "create encoder: none");
}
