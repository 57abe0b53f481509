use touchmonitor_server::annex_b::to_annex_b;
use touchmonitor_server::color::{bgra_to_nv12, chroma_u, chroma_v, luma};
use touchmonitor_server::encoder_mft::{
    after_hardware, after_software, encoded_frame, is_hw_encoder_available, pack_u32_pair,
    processing_model, Action, EncoderError, EncoderSearch, MediaAttribute, MftEncoder,
    ProcessingModel, HAVE_OUTPUT, NEED_INPUT,
};

#[test]
fn converts_avc_length_prefixes_to_annex_b() {
    let avc = [0, 0, 0, 3, 0x65, 1, 2, 0, 0, 0, 2, 0x06, 7];
    assert_eq!(to_annex_b(&avc), vec![0,0,0,1,0x65,1,2,0,0,0,1,0x06,7]);
}

#[test]
fn keeps_annex_b_unchanged() {
    let annex_b = [0, 0, 0, 1, 0x67, 1, 2];
    assert_eq!(to_annex_b(&annex_b), annex_b);
}

#[test]
fn bgra_nv12_has_expected_layout_and_neutral_chroma() {
    let (y, uv) = bgra_to_nv12(&[0, 0, 0, 0, 255, 255, 255, 0, 0, 0, 0, 0, 255, 255, 255, 0], 2, 2);
    assert_eq!(y.len(), 4);
    assert_eq!(uv.len(), 2);
    assert!((uv[0] as i32 - 128).abs() <= 1);
    assert!((uv[1] as i32 - 128).abs() <= 1);
}

#[test]
fn short_start_codes_are_kept() {
    let data = [9, 0, 0, 1, 5];
    assert_eq!(to_annex_b(&data), data);
    let first = [0, 0, 1, 0x67, 1, 2, 0, 0, 1, 0x65];
    assert_eq!(to_annex_b(&first), first);
}

#[test]
fn malformed_lengths_are_left_alone() {
    // A length of zero, one beyond the end, a tail too short for a length, and nothing.
    let zero = [0, 0, 0, 0, 7, 7];
    assert_eq!(to_annex_b(&zero), zero);
    let beyond = [0, 0, 0, 9, 7, 7];
    assert_eq!(to_annex_b(&beyond), beyond);
    let tail = [0, 0, 0, 2, 7, 7, 0, 0];
    assert_eq!(to_annex_b(&tail), tail);
    assert_eq!(to_annex_b(&[]), Vec::<u8>::new());
}

#[test]
fn long_units_are_converted() {
    // A length of 256 to 511 has the bytes of a short start code in it.
    let data = [&[0u8, 0, 1, 0][..], &[0x65u8; 256][..]].concat();
    assert_eq!(to_annex_b(&data), [&[0u8, 0, 0, 1][..], &[0x65u8; 256][..]].concat());
    let second = [&[0u8, 0, 0, 2, 9, 9, 0, 0, 1, 4][..], &[0x41u8; 260][..]].concat();
    assert_eq!(
        to_annex_b(&second),
        [&[0u8, 0, 0, 1, 9, 9, 0, 0, 0, 1][..], &[0x41u8; 260][..]].concat()
    );
    // So has a unit of one byte, behind another one.
    assert_eq!(
        to_annex_b(&[0, 0, 0, 2, 9, 9, 0, 0, 0, 1, 7]),
        vec![0, 0, 0, 1, 9, 9, 0, 0, 0, 1, 7]
    );
}

#[test]
fn length_prefix_that_looks_like_a_start_code_is_kept() {
    let one_byte_unit = [0, 0, 0, 1, 0x65];
    assert_eq!(to_annex_b(&one_byte_unit), one_byte_unit);
}

#[test]
fn conversion_is_idempotent_and_keeps_length() {
    let avc = [0, 0, 0, 3, 0x65, 1, 2, 0, 0, 0, 2, 0x06, 7];
    let once = to_annex_b(&avc);
    assert_eq!(once.len(), avc.len());
    assert_eq!(to_annex_b(&once), once);
}

fn luma_in_doubles(r: u8, g: u8, b: u8) -> u8 {
    (0.257 * r as f64 + 0.504 * g as f64 + 0.098 * b as f64 + 16.0).clamp(0.0, 255.0) as u8
}

fn chroma_u_in_doubles(r: u8, g: u8, b: u8) -> u8 {
    (-0.148 * r as f64 - 0.291 * g as f64 + 0.439 * b as f64 + 128.0).clamp(0.0, 255.0) as u8
}

fn chroma_v_in_doubles(r: u8, g: u8, b: u8) -> u8 {
    (0.439 * r as f64 - 0.368 * g as f64 - 0.071 * b as f64 + 128.0).clamp(0.0, 255.0) as u8
}

#[test]
fn color_values_are_exact() {
    assert_eq!(luma(0, 0, 0), 16);
    assert_eq!(luma(255, 255, 255), 235);
    assert_eq!(luma(255, 0, 0), 81);
    assert_eq!(chroma_u(0, 0, 255), 239);
    assert_eq!(chroma_v(255, 0, 0), 239);
    // Sums that are whole numbers fall just below them in double precision.
    assert_eq!(luma(2, 156, 19), 96);
    assert_eq!(chroma_u(2, 236, 148), 123);
    assert_eq!(chroma_v(1, 184, 137), 50);
}

#[test]
fn color_values_are_those_of_double_precision() {
    for r in 0..=255u8 {
        for g in (0..=255u8).step_by(3) {
            for b in (0..=255u8).step_by(5) {
                assert_eq!(luma(r, g, b), luma_in_doubles(r, g, b));
                assert_eq!(chroma_u(r, g, b), chroma_u_in_doubles(r, g, b));
                assert_eq!(chroma_v(r, g, b), chroma_v_in_doubles(r, g, b));
            }
        }
    }
}

#[test]
fn color_values_are_close_to_the_weighted_sums() {
    for (r, g, b) in [(0, 0, 0), (2, 156, 19), (10, 200, 30), (255, 255, 255), (77, 3, 190)] {
        let exact = 257 * r as i32 + 504 * g as i32 + 98 * b as i32 + 16000;
        let y = luma(r, g, b) as i32;
        assert!(y * 1000 <= exact && exact <= y * 1000 + 1000);
    }
}

#[test]
fn chroma_is_taken_from_the_top_left_of_each_square() {
    // Two squares side by side: blue and red on top, black below.
    let bgra = [
        255, 0, 0, 0, 1, 2, 3, 0, 0, 0, 255, 0, 1, 2, 3, 0, //
        9, 9, 9, 0, 9, 9, 9, 0, 9, 9, 9, 0, 9, 9, 9, 0,
    ];
    let (y, uv) = bgra_to_nv12(&bgra, 4, 2);
    assert_eq!(
        y,
        vec![
            luma(0, 0, 255), luma(3, 2, 1), luma(255, 0, 0), luma(3, 2, 1),
            luma(9, 9, 9), luma(9, 9, 9), luma(9, 9, 9), luma(9, 9, 9),
        ]
    );
    assert_eq!(
        uv,
        vec![chroma_u(0, 0, 255), chroma_v(0, 0, 255), chroma_u(255, 0, 0), chroma_v(255, 0, 0)]
    );
}

#[test]
fn frame_without_pixels_converts_to_nothing() {
    let (y, uv) = bgra_to_nv12(&[], 0, 7);
    assert!(y.is_empty() && uv.is_empty());
}

fn encoder(width: u32, height: u32, fps: u32) -> MftEncoder {
    match MftEncoder::new(width, height, fps, 8000, 60) {
        Ok(encoder) => encoder,
        Err(e) => panic!("{}", e.describe()),
    }
}

#[test]
fn pairs_are_packed_high_and_low() {
    assert_eq!(pack_u32_pair(1920, 1080), 0x0000_0780_0000_0438);
    assert_eq!(pack_u32_pair(u32::MAX, u32::MAX), u64::MAX);
}

#[test]
fn encoder_wants_even_sizes_and_a_frame_rate() {
    for (width, height, fps) in [(0, 2, 1), (2, 0, 1), (3, 2, 1), (2, 3, 1), (2, 2, 0)] {
        match MftEncoder::new(width, height, fps, 8000, 60) {
            Ok(_) => panic!("{width}x{height} at {fps}"),
            Err(e) => assert_eq!(
                e.describe(),
                "MFT encoder requires positive even dimensions and non-zero FPS"
            ),
        }
    }
    assert!(MftEncoder::new(2, 2, 1, 8000, 60).is_ok());
}

#[test]
fn media_types_carry_the_parameters() {
    let encoder = encoder(1920, 1080, 60);
    assert_eq!(
        encoder.output_type(),
        vec![
            MediaAttribute::MajorTypeVideo,
            MediaAttribute::SubtypeH264,
            MediaAttribute::AverageBitrate(8_000_000),
            MediaAttribute::FrameSize(0x0000_0780_0000_0438),
            MediaAttribute::FrameRate(0x0000_003C_0000_0001),
            MediaAttribute::PixelAspectRatio(0x0000_0001_0000_0001),
            MediaAttribute::InterlaceProgressive,
            MediaAttribute::ProfileBaseline,
            MediaAttribute::MaxKeyframeSpacing(60),
        ]
    );
    assert_eq!(
        encoder.input_type(),
        vec![
            MediaAttribute::MajorTypeVideo,
            MediaAttribute::SubtypeNv12,
            MediaAttribute::FrameSize(0x0000_0780_0000_0438),
            MediaAttribute::FrameRate(0x0000_003C_0000_0001),
            MediaAttribute::PixelAspectRatio(0x0000_0001_0000_0001),
            MediaAttribute::InterlaceProgressive,
            MediaAttribute::DefaultStride(1920),
        ]
    );
    assert_eq!(encoder.output_buffer_size(), 1920 * 1080 * 2);
}

#[test]
fn keyframes_are_at_least_one_frame_apart() {
    let encoder = match MftEncoder::new(2, 2, 30, 100, 0) {
        Ok(encoder) => encoder,
        Err(e) => panic!("{}", e.describe()),
    };
    assert_eq!(encoder.output_type().last(), Some(&MediaAttribute::MaxKeyframeSpacing(1)));
}

#[test]
fn encoders_are_looked_for_in_hardware_first() {
    assert!(matches!(after_hardware(true, Some(2)), Ok(EncoderSearch::UseHardware)));
    assert!(matches!(after_hardware(true, Some(0)), Ok(EncoderSearch::TrySoftware)));
    assert!(matches!(after_hardware(true, None), Ok(EncoderSearch::TrySoftware)));
    match after_hardware(false, Some(2)) {
        Ok(_) => panic!("no runtime"),
        Err(e) => assert_eq!(e.describe(), "Media Foundation runtime init failed"),
    }
    assert!(after_software(Ok(1)).is_ok());
    match after_software(Ok(0)) {
        Ok(_) => panic!("no encoder"),
        Err(e) => assert_eq!(e.describe(), "no H.264 encoder MFT found"),
    }
    match after_software(Err("denied".to_string())) {
        Ok(_) => panic!("not enumerated"),
        Err(e) => assert_eq!(e.describe(), "enumerate SW encoders: denied"),
    }
    assert!(is_hw_encoder_available(true, Some(1)));
    assert!(!is_hw_encoder_available(true, Some(0)));
    assert!(!is_hw_encoder_available(true, None));
    assert!(!is_hw_encoder_available(false, Some(1)));
}

#[test]
fn frames_of_another_size_are_refused() {
    let mut encoder = encoder(2, 2, 30);
    match encoder.begin_frame(&[0; 12]) {
        Ok(_) => panic!("accepted"),
        Err(e) => assert_eq!(e.describe(), "BGRA frame has 12 bytes, expected 16"),
    }
}

#[test]
fn frames_are_prepared_as_one_block_with_its_time() {
    let mut encoder = encoder(2, 2, 30);
    let bgra = [0, 0, 0, 0, 255, 255, 255, 0, 0, 0, 0, 0, 255, 255, 255, 0];
    let (y, uv) = bgra_to_nv12(&bgra, 2, 2);
    let mut times = Vec::new();
    for _ in 0..31 {
        let sample = match encoder.begin_frame(&bgra) {
            Ok(sample) => sample,
            Err(e) => panic!("{}", e.describe()),
        };
        assert_eq!(sample.nv12, [y.clone(), uv.clone()].concat());
        assert_eq!(sample.nv12.len(), 6);
        assert_eq!(sample.duration, 333_333);
        times.push(sample.time);
        assert!(encoder.on_event(NEED_INPUT, Some(Ok(NEED_INPUT))).is_ok());
        assert_eq!(encoder.next_action(), Action::Submit);
        encoder.sample_built();
    }
    assert_eq!(times[0], 0);
    assert_eq!(times[1], 333_333);
    assert_eq!(times[2], 666_666);
    // A second later to the tick, however the durations are rounded.
    assert_eq!(times[30], 10_000_000);
}

#[test]
fn sample_times_do_not_add_up_durations() {
    let mut encoder = encoder(2, 2, 60);
    encoder.set_model(ProcessingModel::Synchronous);
    let mut times = Vec::new();
    for _ in 0..4 {
        match encoder.begin_frame(&[0; 16]) {
            Ok(sample) => {
                assert_eq!(sample.duration, 166_666);
                times.push(sample.time);
            }
            Err(e) => panic!("{}", e.describe()),
        }
        assert_eq!(encoder.next_action(), Action::Submit);
        encoder.sample_built();
        assert_eq!(encoder.next_action(), Action::Collect);
    }
    assert_eq!(times, vec![0, 166_666, 333_333, 500_000]);
}

#[test]
fn frames_without_a_sample_leave_their_time() {
    let mut encoder = encoder(2, 2, 30);
    encoder.set_model(ProcessingModel::Synchronous);
    let mut times = Vec::new();
    for built in [true, false, true, false] {
        match encoder.begin_frame(&[0; 16]) {
            Ok(sample) => times.push(sample.time),
            Err(e) => panic!("{}", e.describe()),
        }
        assert_eq!(encoder.next_action(), Action::Submit);
        if built {
            encoder.sample_built();
        }
    }
    assert_eq!(times, vec![0, 333_333, 333_333, 666_666]);
}

#[test]
fn events_are_paired_with_calls() {
    let mut encoder = encoder(2, 2, 30);
    assert!(encoder.begin_frame(&[0; 16]).is_ok());
    assert_eq!(encoder.next_action(), Action::Wait(NEED_INPUT));
    // An event that was not waited for is passed over.
    assert!(encoder.on_event(NEED_INPUT, Some(Ok(1))).is_ok());
    assert_eq!(encoder.next_action(), Action::Wait(NEED_INPUT));
    // Two requests at once: the second is kept for the next frame.
    assert!(encoder.on_event(NEED_INPUT, Some(Ok(NEED_INPUT))).is_ok());
    assert!(encoder.on_event(NEED_INPUT, Some(Ok(NEED_INPUT))).is_ok());
    assert_eq!(encoder.next_action(), Action::Submit);
    assert_eq!(encoder.next_action(), Action::Wait(HAVE_OUTPUT));
    assert!(encoder.on_event(HAVE_OUTPUT, Some(Ok(HAVE_OUTPUT))).is_ok());
    assert_eq!(encoder.next_action(), Action::Collect);
    assert!(encoder.begin_frame(&[0; 16]).is_ok());
    assert_eq!(encoder.next_action(), Action::Submit);
    assert_eq!(encoder.next_action(), Action::Wait(HAVE_OUTPUT));
}

#[test]
fn waits_can_fail() {
    let mut encoder = encoder(2, 2, 30);
    match encoder.on_event(NEED_INPUT, None) {
        Ok(()) => panic!("no event"),
        Err(e) => assert_eq!(e.describe(), "timed out waiting for MFT event 601"),
    }
    match encoder.on_event(HAVE_OUTPUT, Some(Err("device removed".to_string()))) {
        Ok(()) => panic!("no event"),
        Err(e) => assert_eq!(e.describe(), "device removed"),
    }
}

#[test]
fn synchronous_transforms_are_not_waited_for() {
    assert_eq!(processing_model(Some(1)), ProcessingModel::Asynchronous);
    assert_eq!(processing_model(Some(0)), ProcessingModel::Synchronous);
    assert_eq!(processing_model(None), ProcessingModel::Synchronous);
    let mut encoder = encoder(2, 2, 30);
    assert!(!encoder.holds_back(true));
    encoder.set_model(ProcessingModel::Synchronous);
    for _ in 0..3 {
        assert!(encoder.begin_frame(&[0; 16]).is_ok());
        assert_eq!(encoder.next_action(), Action::Submit);
        assert_eq!(encoder.next_action(), Action::Collect);
    }
    assert!(encoder.holds_back(true));
    assert!(!encoder.holds_back(false));
    assert!(!encoder.exhausted());
}

#[test]
fn output_is_normalised_and_marked() {
    let avc = [0, 0, 0, 3, 0x65, 1, 2];
    match encoded_frame(Some(&avc), Some(1)) {
        Ok(frame) => {
            assert_eq!(frame.data, vec![0, 0, 0, 1, 0x65, 1, 2]);
            assert!(frame.keyframe);
        }
        Err(e) => panic!("{}", e.describe()),
    }
    for mark in [None, Some(0), Some(2)] {
        match encoded_frame(Some(&avc), mark) {
            Ok(frame) => assert!(!frame.keyframe),
            Err(e) => panic!("{}", e.describe()),
        }
    }
    match encoded_frame(None, Some(1)) {
        Err(EncoderError::NoSample) => (),
        other => panic!("{other:?}"),
    }
    match encoded_frame(Some(&[]), Some(1)) {
        Err(e) => assert_eq!(e.describe(), "no output from encoder"),
        Ok(_) => panic!("no output"),
    }
    assert_eq!(EncoderError::NoSample.describe(), "encoder returned no output sample");
}
