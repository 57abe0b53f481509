use touchmonitor_server::capture::{
    content_size, extract_frame, is_primary, list_monitors, next_frame, select_monitor,
    CaptureError, CapturedFrame, FrameError, MonitorCaptureConfig, Received,
};
use touchmonitor_server::encoder_mft::EncodedFrame;
use touchmonitor_server::options::{parse_args, Command, Settings};
use touchmonitor_server::protocol::{encode_touch, MSG_HELLO, MSG_PING, MSG_TOUCH, MSG_VIDEO};
use touchmonitor_server::service::{registered, registration_arguments, ServiceError};
use touchmonitor_server::stream::{
    on_message, ClientAction, StopReason, Transport, Writer, WriterStep,
};
use touchmonitor_server::text::{parse_number, put_decimal, put_signed, same};
use touchmonitor_server::touch::Rect;
use touchmonitor_server::usb::{after_attempt, port_mapping, Attempt, UsbError, PROXY_PORT};

fn frame() -> CapturedFrame {
    CapturedFrame { bgra: vec![0; 16], width: 2, height: 2 }
}

fn writer(transport: Transport) -> Writer {
    Writer::open(transport, 5666, 1920, 1080).0
}

fn encoded(keyframe: bool) -> EncodedFrame {
    EncodedFrame { data: vec![9, 8], keyframe }
}

/// Lets one frame through, and tells its datagram number and whether it goes reliably.
fn send(writer: &mut Writer, keyframe: bool, registered: bool) -> (Option<u32>, bool) {
    assert!(matches!(writer.on_capture(true, Ok(frame())), WriterStep::Encode(_)));
    let delivery = writer.on_encoded(&encoded(keyframe), 2, 2, registered);
    (delivery.frame_id, delivery.reliable.is_some())
}

#[test]
fn touch_messages_are_injected() {
    let events = vec![(1, true, 5, 6)];
    match on_message(MSG_TOUCH, &encode_touch(&events)) {
        ClientAction::Inject(decoded) => assert_eq!(decoded, events),
        other => panic!("{other:?}"),
    }
    assert!(matches!(on_message(MSG_TOUCH, &[1, 2]), ClientAction::Undecodable(2)));
    assert!(matches!(on_message(MSG_PING, &[1, 2]), ClientAction::Ignore));
    assert!(matches!(on_message(MSG_HELLO, &[]), ClientAction::Close));
    assert!(matches!(on_message(99, &[]), ClientAction::Close));
}

#[test]
fn session_opens_with_the_port_and_the_size() {
    for transport in [Transport::Network, Transport::Usb] {
        let (_, hello) = Writer::open(transport, 5666, 1920, 1080);
        assert_eq!(
            hello,
            vec![11, 0, 0, 0, MSG_HELLO, 0x22, 0x16, 0x80, 7, 0, 0, 0x38, 4, 0, 0]
        );
    }
}

#[test]
fn first_keyframe_is_sent_reliably() {
    let mut writer = writer(Transport::Network);
    assert_eq!(send(&mut writer, false, true), (Some(1), false));
    assert_eq!(send(&mut writer, false, true), (Some(2), false));
    assert_eq!(send(&mut writer, false, false), (Some(3), false));
    assert_eq!(send(&mut writer, true, true), (Some(4), true));
    assert_eq!(send(&mut writer, true, true), (Some(5), false));
    assert_eq!(send(&mut writer, true, false), (Some(6), false));
}

#[test]
fn first_frames_fall_back_to_the_reliable_connection() {
    let mut writer = writer(Transport::Network);
    assert_eq!(send(&mut writer, false, false), (Some(1), true));
    assert_eq!(send(&mut writer, true, false), (Some(2), true));
    assert_eq!(send(&mut writer, true, false), (Some(3), false));
}

#[test]
fn usb_sends_every_frame_reliably() {
    let mut writer = writer(Transport::Usb);
    for keyframe in [true, false, false, true, false] {
        assert_eq!(send(&mut writer, keyframe, false), (None, true));
    }
}

#[test]
fn reliable_frames_are_video_messages() {
    let mut writer = writer(Transport::Network);
    assert!(matches!(writer.on_capture(true, Ok(frame())), WriterStep::Encode(_)));
    let delivery = writer.on_encoded(&encoded(true), 1920, 1080, true);
    assert_eq!(delivery.report, Some(1));
    assert_eq!(
        delivery.reliable,
        Some(vec![12, 0, 0, 0, MSG_VIDEO, 1, 0x80, 7, 0, 0, 0x38, 4, 0, 0, 9, 8])
    );
}

#[test]
fn three_frames_are_reported() {
    let mut writer = writer(Transport::Network);
    for expected in [Some(1), Some(2), Some(3), None] {
        assert!(matches!(writer.on_capture(true, Ok(frame())), WriterStep::Encode(_)));
        assert_eq!(writer.on_encoded(&encoded(false), 2, 2, true).report, expected);
    }
}

#[test]
fn frames_without_output_are_counted() {
    let mut writer = writer(Transport::Network);
    assert!(matches!(writer.on_capture(true, Ok(frame())), WriterStep::Encode(_)));
    assert!(matches!(writer.on_capture(true, Ok(frame())), WriterStep::Encode(_)));
    assert_eq!(send(&mut writer, false, false), (Some(3), false));
}

#[test]
fn session_waits_and_stops() {
    let mut writer = writer(Transport::Network);
    assert!(matches!(writer.on_capture(true, Err(CaptureError::Timeout)), WriterStep::Wait));
    match writer.on_capture(true, Err(CaptureError::Closed("gone"))) {
        WriterStep::Stop(StopReason::CaptureClosed(reason)) => assert_eq!(reason, "gone"),
        other => panic!("{other:?}"),
    }
    assert!(matches!(
        writer.on_capture(false, Ok(frame())),
        WriterStep::Stop(StopReason::Disconnected)
    ));
    assert_eq!(send(&mut writer, false, true).0, Some(1));
}

#[test]
fn frames_come_or_do_not() {
    match next_frame(Received::Frame(frame())) {
        Ok(got) => assert_eq!(got.bgra, vec![0; 16]),
        Err(e) => panic!("{}", e.describe()),
    }
    match next_frame(Received::TimedOut) {
        Err(e) => assert_eq!(e.describe(), "capture timeout"),
        Ok(_) => panic!("no frame"),
    }
    match next_frame(Received::Disconnected) {
        Err(e) => assert_eq!(e.describe(), "capture closed: frame channel closed"),
        Ok(_) => panic!("no frame"),
    }
    let config = MonitorCaptureConfig::default();
    assert_eq!(config, MonitorCaptureConfig { buffers: 2, include_cursor: true });
}

#[test]
fn monitors_are_listed_and_selected() {
    let monitors = list_monitors(&[
        (11, Rect { left: 0, top: 0, right: 1920, bottom: 1080 }, is_primary(true, 1)),
        (12, Rect { left: -1280, top: -100, right: 0, bottom: 924 }, is_primary(false, 1)),
    ]);
    assert_eq!(monitors.len(), 2);
    assert_eq!((monitors[1].left, monitors[1].top), (-1280, -100));
    assert_eq!((monitors[1].width, monitors[1].height), (1280, 1024));
    assert_eq!((monitors[0].is_primary, monitors[1].is_primary), (true, false));
    assert_eq!(select_monitor(&monitors, 1), Ok(monitors[1]));
    assert_eq!(
        select_monitor(&monitors, 2),
        Err("monitor index 2 out of range (2 total)".to_string())
    );
    assert!(!is_primary(true, 6));
    assert!(is_primary(true, 7));
}

#[test]
fn frames_are_cropped_and_packed() {
    // Three rows of twelve bytes, of which two rows of two pixels are content.
    let mapped: Vec<u8> = (0..36).collect();
    match extract_frame(&mapped, 12, 3, 3, 2, 2) {
        Ok(got) => {
            assert_eq!((got.width, got.height), (2, 2));
            assert_eq!(got.bgra, vec![0, 1, 2, 3, 4, 5, 6, 7, 12, 13, 14, 15, 16, 17, 18, 19]);
            assert_eq!(got.bgra.len(), 2 * 2 * 4);
        }
        Err(e) => panic!("{}", e.describe()),
    }
    assert_eq!(content_size(3, 3, 9, 2), Ok((3, 2)));
    assert_eq!(content_size(3, 3, -1, 2), Err(FrameError::EmptyContent));
    match extract_frame(&mapped, 12, 3, 3, 2, 0) {
        Err(e) => assert_eq!(e.describe(), "captured content size is zero"),
        Ok(_) => panic!("empty"),
    }
}

fn command(args: &[&str]) -> Command {
    parse_args(&args.iter().map(|arg| arg.to_string()).collect())
}

fn settings(args: &[&str]) -> Settings {
    match command(args) {
        Command::Serve(settings) => settings,
        other => panic!("{other:?}"),
    }
}

#[test]
fn settings_have_defaults() {
    let defaults = settings(&[]);
    assert_eq!(defaults, Settings::default());
    assert_eq!((defaults.port, defaults.monitor_index), (5666, 0));
    assert_eq!((defaults.bitrate_kbps, defaults.fps, defaults.keyframe_interval), (8000, 60, 60));
    assert!(!defaults.usb && !defaults.show_monitors);
}

#[test]
fn settings_are_read() {
    let read = settings(&[
        "--bind", "1.2.3.4", "-p", "7000", "--monitor", "1", "-b", "500", "--fps", "30",
        "--keyframe-interval", "+15", "--usb",
    ]);
    assert_eq!((read.port, read.monitor_index), (7000, 1));
    assert_eq!((read.bitrate_kbps, read.fps, read.keyframe_interval), (500, 30, 15));
    assert!(read.usb);
    assert_eq!(settings(&["--fps", "30"]).keyframe_interval, 60);
}

#[test]
fn values_that_are_no_numbers_are_passed_over() {
    assert_eq!(settings(&["--port", "65536"]).port, 5666);
    assert_eq!(settings(&["--port", "x"]).port, 5666);
    assert_eq!(settings(&["--port"]).port, 5666);
    assert_eq!(settings(&["-p", "7000", "-p", "x"]).port, 7000);
}

#[test]
fn other_commands_are_recognised() {
    assert!(matches!(command(&["--help"]), Command::Help));
    assert!(matches!(command(&["-p", "1", "-h", "--what"]), Command::Help));
    assert!(matches!(command(&["--list-monitors"]), Command::ListMonitors));
    match command(&["--list-monitors", "--what"]) {
        Command::Unknown(arg) => assert_eq!(arg, "--what"),
        other => panic!("{other:?}"),
    }
}

#[test]
fn numbers_are_read_and_written() {
    for text in ["0", "007", "+5", "255", "256", "", "+", "-1", "1 ", "9999999999999999999999"] {
        assert_eq!(parse_number(text, 255), text.parse::<u8>().ok().map(|n| n as u64), "{text}");
    }
    assert_eq!(parse_number("18446744073709551615", u64::MAX), Some(u64::MAX));
    assert_eq!(parse_number("18446744073709551616", u64::MAX), None);
    let mut text = String::new();
    for n in [0, 7, 10, 1920, u64::MAX] {
        text.clear();
        put_decimal(&mut text, n);
        assert_eq!(text, n.to_string());
    }
    for n in [0, -7, i64::MIN, i64::MAX] {
        text.clear();
        put_signed(&mut text, n);
        assert_eq!(text, n.to_string());
    }
    assert!(same("abc", "abc") && !same("abc", "abd") && !same("abc", "ab"));
}

#[test]
fn service_is_registered_under_its_name() {
    assert_eq!(
        registration_arguments(5666),
        vec!["-R", "TouchMonitor", "_touchmonitor._tcp", "local", "5666"]
    );
    assert!(registered(Ok(None)).is_ok());
    match registered(Ok(Some("exit code: 1".to_string()))) {
        Err(e) => assert_eq!(
            e.describe(),
            "Bonjour dns-sd.exe exited during registration: exit code: 1"
        ),
        Ok(()) => panic!("exited"),
    }
    match registered(Err("not found".to_string())) {
        Err(ServiceError::NotStarted(reason)) => assert_eq!(
            ServiceError::NotStarted(reason).describe(),
            "could not start Bonjour dns-sd.exe: not found; install Apple Bonjour Service"
        ),
        other => panic!("{other:?}"),
    }
}

#[test]
fn usb_connection_is_polled() {
    assert_eq!(port_mapping(PROXY_PORT, 5666), "5667:5666");
    assert!(matches!(after_attempt(None, true), Attempt::Serve));
    assert!(matches!(after_attempt(None, false), Attempt::RetryAfter(250)));
    match after_attempt(Some("exit code: 2".to_string()), true) {
        Attempt::GiveUp(e) => assert_eq!(
            e.describe(),
            "iproxy exited before the iOS connection arrived: exit code: 2"
        ),
        other => panic!("{other:?}"),
    }
    assert_eq!(
        UsbError::NotStarted("not found".to_string()).describe(),
        "could not start iproxy.exe: not found; install libusbmuxd/iproxy and ensure it is on PATH"
    );
}
