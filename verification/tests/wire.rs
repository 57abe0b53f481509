use touchmonitor_server::bytes::{get_be32, get_le32};
use touchmonitor_server::protocol::{
    decode_touch, encode_touch, make_hello, make_monitor_hello, make_touch_message,
    make_video_payload, message_length, read_message, split_body, write_message, ReadError, TouchEvent, MSG_HELLO,
    MSG_INFO, MSG_PING, MSG_TOUCH, MSG_VIDEO,
};
use touchmonitor_server::udp::{packetize, registers, FrameInfo, VideoUdp, HEADER, PAYLOAD};

#[test]
fn hello_carries_the_port() {
    assert_eq!(make_hello(0x1622), vec![3, 0, 0, 0, MSG_HELLO, 0x22, 0x16]);
}

#[test]
fn monitor_hello_carries_port_and_size() {
    let hello = make_monitor_hello(0x1622, 1920, 1080);
    let mut pos = 0;
    match read_message(&hello, &mut pos) {
        Ok((kind, payload)) => {
            assert_eq!(kind, MSG_HELLO);
            assert_eq!(payload.len(), 10);
            assert_eq!(&payload[..2], &make_hello(0x1622)[5..]);
            assert_eq!((get_le32(&payload, 2), get_le32(&payload, 6)), (1920, 1080));
        }
        Err(e) => panic!("{e:?}"),
    }
}

#[test]
fn message_types_are_fixed() {
    assert_eq!((MSG_HELLO, MSG_VIDEO, MSG_INFO, MSG_TOUCH, MSG_PING), (0, 1, 2, 3, 4));
}

#[test]
fn messages_are_read_back() {
    let mut stream = Vec::new();
    write_message(&mut stream, MSG_PING, &[]);
    write_message(&mut stream, MSG_TOUCH, &[7, 8]);
    assert_eq!(stream, vec![1, 0, 0, 0, MSG_PING, 3, 0, 0, 0, MSG_TOUCH, 7, 8]);
    let mut pos = 0;
    assert_eq!(read_message(&stream, &mut pos), Ok((MSG_PING, vec![])));
    assert_eq!(read_message(&stream, &mut pos), Ok((MSG_TOUCH, vec![7, 8])));
    assert_eq!(pos, stream.len());
    assert_eq!(read_message(&stream, &mut pos), Err(ReadError::UnexpectedEof));
}

#[test]
fn bad_lengths_are_refused() {
    let mut pos = 0;
    assert_eq!(read_message(&[0, 0, 0, 0, 9], &mut pos), Err(ReadError::BadLength));
    assert_eq!(message_length(&[0, 0, 0, 0]), Err(ReadError::BadLength));
    assert_eq!(message_length(&[0, 0, 0, 1]), Ok(16 * 1024 * 1024));
    assert_eq!(message_length(&[1, 0, 0, 1]), Err(ReadError::BadLength));
    assert_eq!(message_length(&[1, 0, 0, 0]), Ok(1));
    let mut cut = 0;
    assert_eq!(read_message(&[3, 0, 0, 0, 1, 2], &mut cut), Err(ReadError::UnexpectedEof));
}

#[test]
fn bodies_are_split_behind_the_type() {
    assert_eq!(split_body(&[MSG_TOUCH, 1, 2]), (MSG_TOUCH, vec![1, 2]));
    assert_eq!(split_body(&[MSG_PING]), (MSG_PING, vec![]));
}

#[test]
fn video_payload_has_its_fields() {
    let payload = make_video_payload(true, 1920, 1080, &[5, 6]);
    assert_eq!(payload, vec![1, 0x80, 7, 0, 0, 0x38, 4, 0, 0, 5, 6]);
    assert_eq!(get_le32(&payload, 1), 1920);
    assert_eq!(get_le32(&payload, 5), 1080);
    assert_eq!(make_video_payload(false, 0, 0, &[])[0], 0);
    assert_eq!(get_be32(&[0x12, 0x34, 0x56, 0x78], 0), 0x1234_5678);
}

#[test]
fn touches_are_read_back() {
    let events: Vec<TouchEvent> = vec![
        (3, true, 0.25f32.to_bits(), 0.75f32.to_bits()),
        (200, false, f32::NAN.to_bits(), (-1.5f32).to_bits()),
    ];
    let payload = encode_touch(&events);
    assert_eq!(payload.len(), 21);
    assert_eq!(&payload[..11], &[2, 3, 1, 0, 0, 0x80, 0x3E, 0, 0, 0x40, 0x3F]);
    assert_eq!(decode_touch(&payload), Some(events.clone()));
    let message = make_touch_message(&events);
    let mut pos = 0;
    assert_eq!(read_message(&message, &mut pos), Ok((MSG_TOUCH, payload)));
}

#[test]
fn short_touch_messages_are_refused() {
    assert_eq!(decode_touch(&[]), None);
    assert_eq!(decode_touch(&[1, 2, 3]), None);
    assert_eq!(decode_touch(&[0]), Some(vec![]));
    // Bytes behind the last event are passed over, and any other flag than zero counts.
    assert_eq!(
        decode_touch(&[1, 9, 2, 1, 0, 0, 0, 2, 0, 0, 0, 99]),
        Some(vec![(9, true, 1, 2)])
    );
}

#[test]
fn frames_are_cut_into_labelled_datagrams() {
    let data: Vec<u8> = (0..3000u32).map(|i| i as u8).collect();
    let info = FrameInfo { frame_id: 0x0102_0304, keyframe: true, width: 1920, height: 1080 };
    let packets = packetize(info, &data);
    assert_eq!(packets.len(), 3);
    let mut whole = Vec::new();
    for (i, packet) in packets.iter().enumerate() {
        assert_eq!(
            &packet[..HEADER],
            &[
                b'T', b'M', b'V', b'1', 4, 3, 2, 1, i as u8, 0, 3, 0, 1, //
                0x80, 7, 0, 0, 0x38, 4, 0, 0,
            ]
        );
        assert!(packet.len() <= HEADER + PAYLOAD);
        whole.extend_from_slice(&packet[HEADER..]);
    }
    assert_eq!(whole, data);
    assert_eq!(packets[2].len(), HEADER + 600);
}

#[test]
fn frames_fill_whole_datagrams() {
    let info = FrameInfo { frame_id: 1, keyframe: false, width: 2, height: 2 };
    assert_eq!(packetize(info, &[]).len(), 0);
    assert_eq!(packetize(info, &[0; 1200]).len(), 1);
    assert_eq!(packetize(info, &[0; 1201]).len(), 2);
}

#[test]
fn datagrams_are_numbered_with_sixteen_bits() {
    let info = FrameInfo { frame_id: 1, keyframe: false, width: 2, height: 2 };
    let data = vec![0u8; 65_536 * PAYLOAD];
    let packets = packetize(info, &data);
    assert_eq!(packets.len(), 65_535);
    assert_eq!(&packets[65_534][8..12], &[0xFE, 0xFF, 0xFF, 0xFF]);
}

#[test]
fn clients_register_by_a_tag() {
    assert!(registers(b"TMREG1"));
    assert!(registers(b"TMREG and more"));
    assert!(!registers(b"TMREG"));
    assert!(!registers(b"TMREX1"));
    assert!(!registers(b""));
}

#[test]
fn frames_go_to_registered_clients_only() {
    let mut video = VideoUdp::new();
    let peer = 0x0A00_0001;
    assert!(!video.has_client(peer));
    assert!(video.send_frame(peer, 1, true, 2, 2, &[1, 2]).is_none());
    assert!(!video.receive(peer, 4000, b"hello!"));
    assert!(!video.has_client(peer));
    assert!(video.receive(peer, 4000, b"TMREG1"));
    assert!(video.receive(peer, 4001, b"TMREG1"));
    assert!(video.has_client(peer));
    assert!(!video.has_client(peer + 1));
    match video.send_frame(peer, 1, true, 2, 2, &[1, 2]) {
        Some((port, packets)) => {
            assert_eq!(port, 4001);
            assert_eq!(packets.len(), 1);
            assert_eq!(&packets[0][HEADER..], &[1, 2]);
        }
        None => panic!("registered"),
    }
    video.unregister(peer);
    assert!(!video.has_client(peer));
}
