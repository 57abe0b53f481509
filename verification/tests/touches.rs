use touchmonitor_server::protocol::TouchEvent;
use touchmonitor_server::rounding::{power_of_two, round_significant};
use touchmonitor_server::touch::{
    contacts_fit, pixel, sanitize, Point, PointerTouch, Rect, ScreenMapping, TouchError,
    TouchInjector, CONTACT_DOWN, CONTACT_UP, CONTACT_UPDATE, PT_TOUCH, TOUCH_FLAG_NONE,
    TOUCH_MASK_CONTACTAREA,
};

const MAPPING: ScreenMapping = ScreenMapping { width: 1920, height: 1080, hmonitor: 7 };

fn event(id: u8, active: bool, x: f32, y: f32) -> TouchEvent {
    (id, active, x.to_bits(), y.to_bits())
}

fn apply(injector: &mut TouchInjector, events: &[TouchEvent]) -> Vec<PointerTouch> {
    assert!(contacts_fit(events, &MAPPING));
    match injector.apply(events, &MAPPING) {
        Ok(batch) => batch,
        Err(e) => panic!("{e:?}"),
    }
}

fn flags(batch: &[PointerTouch]) -> Vec<(u32, u32)> {
    batch.iter().map(|t| (t.pointer_id, t.pointer_flags)).collect()
}

/// The product is exact in double precision.
fn target(x: f32, extent: u32) -> i32 {
    let n = if x.is_finite() { x.clamp(0.0, 1.0) } else { 0.0 };
    let last = extent.saturating_sub(1) as f64;
    (n as f64 * extent as f64).floor().min(last) as i32
}

#[test]
fn integers_are_rounded_to_even() {
    assert_eq!(round_significant(0xFF_FFFF, 24), 0xFF_FFFF);
    assert_eq!(round_significant(0x100_0001, 24), 0x100_0000);
    assert_eq!(round_significant(0x100_0003, 24), 0x100_0004);
    assert_eq!(round_significant(u64::MAX, 53), 1u128 << 64);
    assert_eq!(round_significant(0, 24), 0);
    assert_eq!(power_of_two(0), 1);
    assert_eq!(power_of_two(70), 1u128 << 70);
    for v in [1u64, 12345678901, 0x1FF_FFFF, 0x7FFF_FFFF_FFFF] {
        assert_eq!(round_significant(v, 24), v as f32 as u128);
        assert_eq!(round_significant(v, 53), v as f64 as u128);
    }
}

#[test]
fn coordinates_are_clamped() {
    assert_eq!(sanitize(0.5f32.to_bits()), 0.5f32.to_bits());
    assert_eq!(sanitize(1.5f32.to_bits()), 1.0f32.to_bits());
    assert_eq!(sanitize((-0.5f32).to_bits()), 0);
    assert_eq!(sanitize(f32::NAN.to_bits()), 0);
    assert_eq!(sanitize(f32::INFINITY.to_bits()), 0);
    assert_eq!(sanitize(f32::NEG_INFINITY.to_bits()), 0);
}

#[test]
fn corners_and_center_are_hit() {
    assert_eq!(pixel(0.0f32.to_bits(), 1920), 0);
    assert_eq!(pixel(1.0f32.to_bits(), 1920), 1919);
    assert_eq!(pixel(0.5f32.to_bits(), 1920), 960);
    assert_eq!(pixel(0.75f32.to_bits(), 1920), 1440);
    assert_eq!(pixel(0.5f32.to_bits(), 1080), 540);
    assert_eq!(pixel((-3.0f32).to_bits(), 1920), 0);
    assert_eq!(pixel(7.0f32.to_bits(), 1920), 1919);
    assert_eq!(pixel(1.0f32.to_bits(), 0), 0);
    assert_eq!(pixel(1.0f32.to_bits(), 1), 0);
    assert_eq!(pixel(1.0f32.to_bits(), u32::MAX), i32::MAX);
}

#[test]
fn pixels_contain_the_scaled_coordinate() {
    let extents = [0, 1, 2, 3, 640, 1080, 1920, 3840, 65_537, 0xFF_FFFF, 0x100_0002, u32::MAX];
    let mut bits: u32 = 0;
    for _ in 0..20_000 {
        bits = bits.wrapping_mul(1_664_525).wrapping_add(1_013_904_223);
        let unit = (bits >> 8) as f32 / 16_777_216.0;
        for extent in extents {
            for x in [unit, f32::from_bits(bits)] {
                assert_eq!(pixel(x.to_bits(), extent), target(x, extent), "{x} of {extent}");
            }
        }
    }
}

#[test]
fn pixels_are_within_one_of_the_target() {
    for extent in [640u32, 1080, 1920, 3840] {
        for i in 0..=1000 {
            let x = i as f32 / 1000.0;
            let target = (x as f64 * extent as f64).min(extent as f64 - 1.0);
            assert!((pixel(x.to_bits(), extent) as f64 - target).abs() < 1.0);
        }
    }
}

#[test]
fn pixels_grow_with_the_coordinate() {
    let mut last = 0;
    for i in -100..=1100 {
        let here = pixel((i as f32 / 1000.0).to_bits(), 1920);
        assert!(last <= here && here < 1920);
        last = here;
    }
    assert_eq!(last, 1919);
}

#[test]
fn fingers_come_down_move_and_lift() {
    let mut injector = TouchInjector::new(true, 5);
    let down = apply(&mut injector, &[event(3, true, 0.0, 1.0)]);
    assert_eq!(
        down,
        vec![PointerTouch {
            pointer_type: PT_TOUCH,
            pointer_id: 3,
            pointer_flags: CONTACT_DOWN,
            pixel_location: Point { x: 0, y: 1079 },
            touch_flags: TOUCH_FLAG_NONE,
            touch_mask: TOUCH_MASK_CONTACTAREA,
            contact: Rect { left: -8, top: 1071, right: 8, bottom: 1087 },
        }]
    );
    assert_eq!(apply(&mut injector, &[event(3, true, 0.0, 1.0)]), vec![]);
    assert_eq!(flags(&apply(&mut injector, &[event(3, true, 0.5, 1.0)])), vec![(3, CONTACT_UPDATE)]);
    assert_eq!(flags(&apply(&mut injector, &[event(3, false, 0.5, 1.0)])), vec![(3, CONTACT_UP)]);
    assert_eq!(apply(&mut injector, &[event(3, false, 0.5, 1.0)]), vec![]);
    assert_eq!(flags(&apply(&mut injector, &[event(3, true, 0.5, 1.0)])), vec![(3, CONTACT_DOWN)]);
    assert_eq!((CONTACT_DOWN, CONTACT_UPDATE, CONTACT_UP), (0x1_0006, 0x2_0006, 0x4_0000));
}

#[test]
fn zero_with_a_sign_is_no_movement() {
    let mut injector = TouchInjector::new(true, 5);
    apply(&mut injector, &[event(1, true, 0.0, 0.0)]);
    assert_eq!(apply(&mut injector, &[event(1, true, -0.0, 0.0)]), vec![]);
    assert_eq!(apply(&mut injector, &[event(1, true, f32::NAN, -3.0)]), vec![]);
}

#[test]
fn fingers_do_not_disturb_each_other() {
    let mut injector = TouchInjector::new(true, 5);
    let batch = apply(
        &mut injector,
        &[event(1, true, 0.1, 0.1), event(2, true, 0.2, 0.2), event(1, false, 0.1, 0.1)],
    );
    assert_eq!(flags(&batch), vec![(1, CONTACT_DOWN), (2, CONTACT_DOWN), (1, CONTACT_UP)]);
    let batch = apply(&mut injector, &[event(1, true, 0.1, 0.1), event(2, true, 0.3, 0.2)]);
    assert_eq!(flags(&batch), vec![(1, CONTACT_DOWN), (2, CONTACT_UPDATE)]);
}

#[test]
fn repeated_batches_are_silent() {
    let mut injector = TouchInjector::new(true, 5);
    let events = [event(1, true, 0.1, 0.1), event(2, true, 0.2, 0.2), event(3, false, 0.3, 0.3)];
    assert_eq!(flags(&apply(&mut injector, &events)), vec![(1, CONTACT_DOWN), (2, CONTACT_DOWN)]);
    assert_eq!(apply(&mut injector, &events), vec![]);
}

#[test]
fn each_finger_gets_what_its_own_events_come_to() {
    let events = [
        event(1, true, 0.1, 0.1), event(2, true, 0.2, 0.2), event(1, true, 0.3, 0.1),
        event(2, false, 0.2, 0.2), event(1, false, 0.3, 0.1), event(2, true, 0.9, 0.9),
    ];
    let mut together = TouchInjector::new(true, 5);
    let all = apply(&mut together, &events);
    for id in [1u8, 2] {
        let own: Vec<TouchEvent> = events.iter().copied().filter(|e| e.0 == id).collect();
        let mut alone = TouchInjector::new(true, 5);
        let expected = apply(&mut alone, &own);
        let got: Vec<PointerTouch> =
            all.iter().copied().filter(|t| t.pointer_id == id as u32).collect();
        assert_eq!(got, expected);
    }
}

#[test]
fn transitions_are_in_turn_over_many_messages() {
    let mut injector = TouchInjector::new(true, 5);
    let mut down = [false; 3];
    let mut seed: u32 = 7;
    for _ in 0..2000 {
        let mut events = Vec::new();
        for _ in 0..4 {
            seed = seed.wrapping_mul(1_664_525).wrapping_add(1_013_904_223);
            let place = ((seed >> 12) % 3) as f32 / 2.0;
            events.push(event(((seed >> 20) % 3) as u8, (seed >> 28) % 2 == 0, place, 0.5));
        }
        for touch in apply(&mut injector, &events) {
            let finger = &mut down[touch.pointer_id as usize];
            assert_eq!(*finger, touch.pointer_flags != CONTACT_DOWN);
            *finger = touch.pointer_flags != CONTACT_UP;
        }
    }
}

#[test]
fn refused_contacts_count_as_down() {
    let mut injector = TouchInjector::new(true, 5);
    let down = [event(4, true, 0.5, 0.5)];
    assert_eq!(injector.apply_and_send(&down, &MAPPING, |_, _| 0), Err(TouchError::SendFailed));
    assert_eq!(injector.apply_and_send(&down, &MAPPING, |_, _| panic!("silent")), Ok(()));
    assert_eq!(flags(&apply(&mut injector, &[event(4, false, 0.5, 0.5)])), vec![(4, CONTACT_UP)]);
}

#[test]
fn after_shutdown_nothing_is_supported() {
    let mut injector = TouchInjector::new(true, 5);
    assert_eq!(injector.shutdown(), Some(5));
    let huge = ScreenMapping { width: u32::MAX, height: u32::MAX, hmonitor: 0 };
    let r = injector.apply_and_send(&[event(1, true, 1.0, 1.0)], &huge, |_, _| panic!("none"));
    assert_eq!(r, Err(TouchError::Unsupported));
}

#[test]
fn batches_can_be_split() {
    let events =
        [event(1, true, 0.1, 0.1), event(1, true, 0.4, 0.1), event(2, true, 0.2, 0.9), event(1, false, 0.4, 0.1)];
    let mut whole = TouchInjector::new(true, 5);
    let mut split = TouchInjector::new(true, 5);
    let expected = apply(&mut whole, &events);
    let mut got = apply(&mut split, &events[..2]);
    got.extend(apply(&mut split, &events[2..]));
    assert_eq!(got, expected);
}

#[test]
fn touches_are_sent_to_the_device() {
    let mut injector = TouchInjector::new(true, 5);
    assert!(!injector.unsupported());
    assert_eq!(injector.device(), Some(5));
    let sent = injector.apply_and_send(&[event(1, true, 0.1, 0.1)], &MAPPING, |device, batch| {
        assert_eq!(device, 5);
        assert_eq!(batch.len(), 1);
        1
    });
    assert_eq!(sent, Ok(()));
    let refused = injector.apply_and_send(&[event(1, false, 0.1, 0.1)], &MAPPING, |_, _| 0);
    assert_eq!(refused, Err(TouchError::SendFailed));
    let nothing = injector.apply_and_send(&[event(1, false, 0.1, 0.1)], &MAPPING, |_, _| {
        panic!("nothing to send")
    });
    assert_eq!(nothing, Ok(()));
    assert_eq!(injector.apply_and_send(&[], &MAPPING, |_, _| 0), Ok(()));
}

#[test]
fn without_a_device_nothing_is_sent() {
    for (loaded, handle) in [(false, 0), (false, 5), (true, 0)] {
        let mut injector = TouchInjector::new(loaded, handle);
        assert!(injector.unsupported());
        let r = injector.apply_and_send(&[event(1, true, 0.1, 0.1)], &MAPPING, |_, _| 1);
        assert_eq!(r, Err(TouchError::Unsupported));
        assert_eq!(injector.shutdown(), None);
    }
    let mut injector = TouchInjector::new(true, 5);
    assert_eq!(injector.shutdown(), Some(5));
    assert_eq!(injector.shutdown(), None);
    assert!(injector.unsupported());
}

#[test]
fn contacts_stay_in_range() {
    let huge = ScreenMapping { width: u32::MAX, height: 1, hmonitor: 0 };
    assert!(!contacts_fit(&[event(1, true, 1.0, 0.0)], &huge));
    assert!(contacts_fit(&[event(1, true, 0.25, 0.0)], &huge));
    assert!(contacts_fit(&[event(1, true, 1.0, 1.0)], &MAPPING));
}
