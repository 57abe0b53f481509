//! Touch bookkeeping: turns the touch messages of the tablet into the pointer
//! transitions that the operating system's synthetic pointer device expects.
//!
//! Coordinates arrive as normalized numbers between 0 and 1 in the IEEE 754
//! single-precision format. They are handled here as their bit patterns: for the
//! numbers between 0 and 1 the patterns are ordered as the numbers are, and each
//! stands for a fraction of two integers.

use vstd::prelude::*;
use vstd::arithmetic::power2::pow2;
#[allow(unused_imports)]
use vstd::arithmetic::power2::{lemma_pow2_adds, lemma_pow2_pos, lemma_pow2_strictly_increases, lemma2_to64, lemma2_to64_rest};
#[allow(unused_imports)]
use vstd::arithmetic::div_mod::{lemma_fundamental_div_mod, lemma_mod_bound};
use crate::protocol::TouchEvent;
use crate::rounding::power_of_two;

verus! {

/// The bit pattern of the number one.
pub const ONE: u32 = 0x3F80_0000;

/// The first bit pattern that is not a non-negative finite number.
pub const INFINITE: u32 = 0x7F80_0000;

/// A touch coordinate made safe: clamped to the range from 0 to 1, with 0 for
/// everything that is not a finite number. (Negative zero becomes zero, which
/// compares equal to it.)
pub open spec fn unit_bits(bits: u32) -> u32 {
    if bits >= INFINITE {
        0
    } else if bits > ONE {
        ONE
    } else {
        bits
    }
}

/// The number with the pattern `bits` is `unit_mantissa(bits) / 2^unit_scale(bits)`,
/// for the patterns that `unit_bits` gives.
pub open spec fn unit_mantissa(bits: u32) -> nat {
    if bits < 0x80_0000 {
        bits as nat
    } else {
        (0x80_0000 + bits % 0x80_0000) as nat
    }
}

/// See `unit_mantissa`.
pub open spec fn unit_scale(bits: u32) -> nat {
    if bits < 0x80_0000 {
        149
    } else {
        (150 - bits / 0x80_0000) as nat
    }
}

/// The pixel, along an axis of `extent` pixels, that the coordinate `bits` falls
/// on: the one that contains the coordinate times the extent, or the last one where
/// that is beyond it, brought into the range of the result type.
pub open spec fn pixel_of(bits: u32, extent: u32) -> int {
    let unit = unit_bits(bits);
    let scaled = (unit_mantissa(unit) * extent) as int / pow2(unit_scale(unit)) as int;
    let pixel = if extent == 0 {
        0
    } else if scaled > extent - 1 {
        extent - 1
    } else {
        scaled
    };
    if pixel > i32::MAX { i32::MAX as int } else { pixel }
}

/// Clamps a touch coordinate.
pub fn sanitize(bits: u32) -> (r: u32)
    ensures
        r == unit_bits(bits),
        r <= ONE,
{
    if bits >= INFINITE {
        0
    } else if bits > ONE {
        ONE
    } else {
        bits
    }
}

/// Computes the pixel that a touch coordinate falls on.
pub fn pixel(bits: u32, extent: u32) -> (r: i32)
    ensures
        r == pixel_of(bits, extent),
        r >= 0,
{
    let unit: u32 = sanitize(bits);
    let mantissa: u64 = if unit < 0x80_0000 { unit as u64 } else { 0x80_0000 + (unit % 0x80_0000) as u64 };
    let scale: u32 = if unit < 0x80_0000 { 149 } else { 150 - unit / 0x80_0000 };
    if extent == 0 {
        return 0;
    }
    assert(mantissa * extent < 0x100_0000 * 0x1_0000_0000) by (nonlinear_arith)
        requires
            mantissa < 0x100_0000,
            extent < 0x1_0000_0000,
    ;
    let product: u64 = mantissa * (extent as u64);
    proof {
        lemma_pow2_pos(scale as nat);
        lemma2_to64();
        lemma2_to64_rest();
    }
    if scale >= 64 {
        proof {
            if scale > 64 {
                lemma_pow2_strictly_increases(64, scale as nat);
            }
            let one = pow2(scale as nat) as int;
            assert(product as int / one == 0) by (nonlinear_arith)
                requires
                    0 <= product < one,
            ;
        }
        return 0;
    }
    let one: u128 = power_of_two(scale);
    proof {
        assert(product as int / one as int >= 0) by (nonlinear_arith)
            requires
                one > 0,
                product >= 0,
        ;
    }
    let scaled: u128 = product as u128 / one;
    let last: u128 = (extent - 1) as u128;
    let whole: u128 = if scaled > last { last } else { scaled };
    if whole > 0x7FFF_FFFF {
        0x7FFF_FFFF
    } else {
        whole as i32
    }
}

proof fn lemma_scaled(bits: u32, extent: u32)
    ensures
        ({
            let unit = unit_bits(bits);
            let one = pow2(unit_scale(unit)) as int;
            let product = (unit_mantissa(unit) * extent) as int;
            &&& one > 0
            &&& product / one >= 0
            &&& one * (product / one) <= product < one * (product / one) + one
        }),
{
    let unit = unit_bits(bits);
    let one = pow2(unit_scale(unit)) as int;
    let product = (unit_mantissa(unit) * extent) as int;
    lemma_pow2_pos(unit_scale(unit));
    lemma_fundamental_div_mod(product, one);
    lemma_mod_bound(product, one);
    assert(product / one >= 0) by (nonlinear_arith)
        requires
            product >= 0,
            one > 0,
    ;
}

/// No touch leaves the monitor: every coordinate, whatever its bits, falls on one
/// of the axis's pixels.
pub proof fn lemma_pixel_in_bounds(bits: u32, extent: u32)
    requires
        1 <= extent,
    ensures
        0 <= pixel_of(bits, extent) < extent,
{
    lemma_scaled(bits, extent);
}

/// The finite numbers are ordered as this is: magnitude, with the sign.
pub open spec fn finite_order(bits: u32) -> int {
    if bits < 0x8000_0000 {
        bits as int
    } else {
        0x8000_0000 - bits
    }
}

/// The bits of a finite number.
pub open spec fn finite(bits: u32) -> bool {
    bits % 0x8000_0000 < INFINITE
}

/// The corners of the screen are reached: a coordinate of 0 or below is the first
/// pixel of an axis and one of 1 or above the last one, on every axis whose pixels
/// can be numbered in the result type.
pub proof fn lemma_pixel_corners(bits: u32, extent: u32)
    requires
        finite(bits),
        1 <= extent <= 0x8000_0000,
    ensures
        finite_order(bits) <= 0 ==> pixel_of(bits, extent) == 0,
        finite_order(bits) >= ONE ==> pixel_of(bits, extent) == extent - 1,
{
    lemma_scaled(bits, extent);
    lemma2_to64();
    if finite_order(bits) <= 0 {
        let one = pow2(149) as int;
        assert(0 * extent == 0);
        assert(0int / one == 0) by (nonlinear_arith)
            requires
                one > 0,
        ;
    }
    if finite_order(bits) >= ONE {
        assert(unit_bits(bits) == ONE);
        assert(unit_mantissa(ONE) == 0x80_0000 && unit_scale(ONE) == 23);
        assert(pow2(23) == 0x80_0000);
        let one = pow2(23) as int;
        let scaled = (unit_mantissa(ONE) * extent) as int / one;
        assert(scaled == extent) by (nonlinear_arith)
            requires
                one * scaled <= 0x80_0000 * extent < one * scaled + one,
                one == 0x80_0000,
        ;
    }
}

/// A touch lands within one pixel of its target, the coordinate times the extent
/// (the last pixel where that is beyond it), on every axis whose pixels can be
/// numbered in the result type.
pub proof fn lemma_pixel_within_one(bits: u32, extent: u32)
    requires
        1 <= extent <= 0x8000_0000,
    ensures
        ({
            let unit = unit_bits(bits);
            let one = pow2(unit_scale(unit)) as int;
            let product = (unit_mantissa(unit) * extent) as int;
            let target = if product > (extent - 1) * one { (extent - 1) * one } else { product };
            pixel_of(bits, extent) * one <= target < (pixel_of(bits, extent) + 1) * one
        }),
{
    lemma_scaled(bits, extent);
    let unit = unit_bits(bits);
    let one = pow2(unit_scale(unit)) as int;
    let product = (unit_mantissa(unit) * extent) as int;
    let scaled = product / one;
    let pixel = pixel_of(bits, extent);
    if scaled > extent - 1 {
        assert(product > (extent - 1) * one) by (nonlinear_arith)
            requires
                one * scaled <= product,
                scaled > extent - 1,
                one > 0,
        ;
    } else {
        assert(product > (extent - 1) * one ==> scaled == extent - 1) by (nonlinear_arith)
            requires
                product < one * scaled + one,
                scaled <= extent - 1,
                one > 0,
        ;
    }
    assert(one * scaled == scaled * one && (pixel + 1) * one == pixel * one + one)
        by (nonlinear_arith);
}

proof fn lemma_fraction_grows(a: u32, b: u32)
    requires
        a <= b <= ONE,
    ensures
        unit_mantissa(a) * pow2(unit_scale(b)) <= unit_mantissa(b) * pow2(unit_scale(a)),
{
    let ka = unit_scale(a);
    let kb = unit_scale(b);
    let ma = unit_mantissa(a);
    let mb = unit_mantissa(b);
    lemma_pow2_pos(kb);
    if ka == kb {
        assert(ma <= mb);
        assert(ma * pow2(kb) <= mb * pow2(ka)) by (nonlinear_arith)
            requires
                ma <= mb,
                ka == kb,
                pow2(ka) == pow2(kb),
        ;
    } else {
        let d = (ka - kb) as nat;
        assert(a / 0x80_0000 < b / 0x80_0000 && b >= 0x80_0000);
        assert(kb < ka);
        lemma_pow2_adds(kb, d);
        lemma2_to64();
        if d > 1 {
            lemma_pow2_strictly_increases(1, d);
        }
        assert(ma < 0x100_0000 && mb >= 0x80_0000 && pow2(d) >= 2);
        assert(ma * pow2(kb) <= mb * pow2(ka)) by (nonlinear_arith)
            requires
                ma < 0x100_0000,
                mb >= 0x80_0000,
                pow2(d) >= 2,
                pow2(ka) == pow2(kb) * pow2(d),
        ;
    }
}

/// Further along is never further back: the pixel does not decrease as a finite
/// coordinate grows.
pub proof fn lemma_pixel_grows(a: u32, b: u32, extent: u32)
    requires
        finite(a),
        finite(b),
        finite_order(a) <= finite_order(b),
    ensures
        pixel_of(a, extent) <= pixel_of(b, extent),
{
    let ua = unit_bits(a);
    let ub = unit_bits(b);
    assert(ua <= ub <= ONE);
    lemma_fraction_grows(ua, ub);
    lemma_scaled(a, extent);
    lemma_scaled(b, extent);
    let ma = unit_mantissa(ua) as int;
    let mb = unit_mantissa(ub) as int;
    let oa = pow2(unit_scale(ua)) as int;
    let ob = pow2(unit_scale(ub)) as int;
    let e = extent as int;
    let qa = (ma * e) / oa;
    let qb = (mb * e) / ob;
    assert(qa <= qb) by {
        assert((qa * ob) * oa <= (mb * e) * oa) by (nonlinear_arith)
            requires
                oa * qa <= ma * e,
                ma * ob <= mb * oa,
                ob > 0,
                e >= 0,
        ;
        assert(qa * ob <= mb * e) by (nonlinear_arith)
            requires
                (qa * ob) * oa <= (mb * e) * oa,
                oa > 0,
        ;
        assert(qa < qb + 1) by (nonlinear_arith)
            requires
                qa * ob <= mb * e,
                mb * e < ob * qb + ob,
                ob > 0,
        ;
    }
}

/// The pointer is within the range of the device.
pub const POINTER_FLAG_INRANGE: u32 = 0x0000_0002;

/// The pointer touches the surface.
pub const POINTER_FLAG_INCONTACT: u32 = 0x0000_0004;

/// The pointer has just come down.
pub const POINTER_FLAG_DOWN: u32 = 0x0001_0000;

/// The pointer has moved while down.
pub const POINTER_FLAG_UPDATE: u32 = 0x0002_0000;

/// The pointer has just been lifted.
pub const POINTER_FLAG_UP: u32 = 0x0004_0000;

/// Flags of a finger that comes down.
pub const CONTACT_DOWN: u32 = POINTER_FLAG_DOWN | POINTER_FLAG_INRANGE | POINTER_FLAG_INCONTACT;

/// Flags of a finger that moves while down.
pub const CONTACT_UPDATE: u32 = POINTER_FLAG_UPDATE | POINTER_FLAG_INRANGE | POINTER_FLAG_INCONTACT;

/// Flags of a finger that is lifted.
pub const CONTACT_UP: u32 = POINTER_FLAG_UP;

/// The pointer type of a finger.
pub const PT_TOUCH: u32 = 0x0000_0002;

/// No visual feedback for injected contacts.
pub const POINTER_FEEDBACK_NONE: u32 = 0x2;

/// No options for the synthetic device.
pub const SDCO_NONE: u32 = 0x0;

/// The contact rectangle of a finger is given.
pub const TOUCH_MASK_CONTACTAREA: u32 = 0x0000_0001;

/// No touch flags.
pub const TOUCH_FLAG_NONE: u32 = 0x0000_0000;

/// How many fingers the synthetic device tracks at once.
pub const MAX_CONTACTS: u32 = 10;

/// Contact radius of an injected finger, in pixels.
pub const FINGER_RADIUS: i32 = 8;

/// The monitor that touches are mapped to: its size in pixels, with (0, 0) at its
/// top left, and the handle under which the operating system knows it.
#[derive(Clone, Copy, Debug)]
pub struct ScreenMapping {
    pub width: u32,
    pub height: u32,
    pub hmonitor: usize,
}

/// Why a touch message was not injected.
#[derive(Clone, Copy, Debug, PartialEq, Eq, Structural)]
pub enum TouchError {
    /// There is no synthetic pointer device.
    Unsupported,
    /// The operating system refused the contacts.
    SendFailed,
}

/// A position in pixels, relative to the top left of the monitor.
#[derive(Clone, Copy, Debug, PartialEq, Eq, Structural)]
pub struct Point {
    pub x: i32,
    pub y: i32,
}

/// A rectangle in pixels.
#[derive(Clone, Copy, Debug, PartialEq, Eq, Structural)]
pub struct Rect {
    pub left: i32,
    pub top: i32,
    pub right: i32,
    pub bottom: i32,
}

/// One pointer transition to inject. Whatever else the operating system's record
/// of a pointer holds is zero.
#[derive(Clone, Copy, Debug, PartialEq, Eq, Structural)]
pub struct PointerTouch {
    pub pointer_type: u32,
    pub pointer_id: u32,
    pub pointer_flags: u32,
    pub pixel_location: Point,
    pub touch_flags: u32,
    pub touch_mask: u32,
    pub contact: Rect,
}

/// What is remembered of a finger: where it was last seen to come down, move or
/// lift (clamped coordinates), and whether it is down.
#[derive(Clone, Copy, Debug, PartialEq, Eq, Structural)]
pub struct Contact {
    pub id: u32,
    pub x: u32,
    pub y: u32,
    pub active: bool,
}

/// What has been seen of the fingers so far, by their numbers.
pub type Contacts = Map<u32, Contact>;

/// Whether the finger `id` is down.
pub open spec fn is_down(contacts: Contacts, id: u32) -> bool {
    contacts.dom().contains(id) && contacts[id].active
}

/// The flags to inject for an event, or `None` where it changes nothing: a finger
/// that was not down comes down, one that was down at another place moves, one
/// that was down is lifted.
pub open spec fn transition(contacts: Contacts, event: TouchEvent) -> Option<u32> {
    let id = event.0 as u32;
    let down = is_down(contacts, id);
    let moved = contacts[id].x != unit_bits(event.2) || contacts[id].y != unit_bits(event.3);
    if event.1 && !down {
        Some(CONTACT_DOWN)
    } else if event.1 && moved {
        Some(CONTACT_UPDATE)
    } else if !event.1 && down {
        Some(CONTACT_UP)
    } else {
        None
    }
}

/// The pointer transition with the given flags at the place of an event: a square
/// contact of the finger's radius round the pixel.
pub open spec fn contact_at(event: TouchEvent, mapping: ScreenMapping, flags: u32) -> PointerTouch {
    let x = pixel_of(event.2, mapping.width);
    let y = pixel_of(event.3, mapping.height);
    PointerTouch {
        pointer_type: PT_TOUCH,
        pointer_id: event.0 as u32,
        pointer_flags: flags,
        pixel_location: Point { x: x as i32, y: y as i32 },
        touch_flags: TOUCH_FLAG_NONE,
        touch_mask: TOUCH_MASK_CONTACTAREA,
        contact: Rect {
            left: (x - FINGER_RADIUS) as i32,
            top: (y - FINGER_RADIUS) as i32,
            right: (x + FINGER_RADIUS) as i32,
            bottom: (y + FINGER_RADIUS) as i32,
        },
    }
}

/// The contact rectangle of an event can be written down in 32 bits.
pub open spec fn contact_fits(event: TouchEvent, mapping: ScreenMapping) -> bool {
    &&& pixel_of(event.2, mapping.width) + FINGER_RADIUS <= i32::MAX
    &&& pixel_of(event.3, mapping.height) + FINGER_RADIUS <= i32::MAX
}

/// What is remembered after one event: the event, where it changed anything.
pub open spec fn contacts_after(contacts: Contacts, event: TouchEvent) -> Contacts {
    match transition(contacts, event) {
        Some(_) => contacts.insert(
            event.0 as u32,
            Contact {
                id: event.0 as u32,
                x: unit_bits(event.2),
                y: unit_bits(event.3),
                active: event.1,
            },
        ),
        None => contacts,
    }
}

/// What is injected for one event.
pub open spec fn injected_for(contacts: Contacts, event: TouchEvent, mapping: ScreenMapping) -> Seq<
    PointerTouch,
> {
    match transition(contacts, event) {
        Some(flags) => seq![contact_at(event, mapping, flags)],
        None => seq![],
    }
}

/// What is remembered after a list of events.
pub open spec fn contacts_after_all(contacts: Contacts, events: Seq<TouchEvent>) -> Contacts
    decreases events.len(),
{
    if events.len() == 0 {
        contacts
    } else {
        contacts_after(contacts_after_all(contacts, events.drop_last()), events.last())
    }
}

/// What is injected for a list of events, in their order.
pub open spec fn injected(
    contacts: Contacts,
    events: Seq<TouchEvent>,
    mapping: ScreenMapping,
) -> Seq<PointerTouch>
    decreases events.len(),
{
    if events.len() == 0 {
        seq![]
    } else {
        injected(contacts, events.drop_last(), mapping) + injected_for(
            contacts_after_all(contacts, events.drop_last()),
            events.last(),
            mapping,
        )
    }
}

/// One touch message: its events, and the monitor that they are mapped to.
pub ghost struct Call {
    pub events: Seq<TouchEvent>,
    pub mapping: ScreenMapping,
}

/// What is remembered after some messages.
pub open spec fn contacts_after_calls(contacts: Contacts, calls: Seq<Call>) -> Contacts
    decreases calls.len(),
{
    if calls.len() == 0 {
        contacts
    } else {
        contacts_after_all(
            contacts_after_calls(contacts, calls.drop_last()),
            calls.last().events,
        )
    }
}

/// What is injected for some messages, one after the other.
pub open spec fn injected_by_calls(contacts: Contacts, calls: Seq<Call>) -> Seq<PointerTouch>
    decreases calls.len(),
{
    if calls.len() == 0 {
        seq![]
    } else {
        injected_by_calls(contacts, calls.drop_last()) + injected(
            contacts_after_calls(contacts, calls.drop_last()),
            calls.last().events,
            calls.last().mapping,
        )
    }
}

/// The contact rectangles of what is injected for a list of events can be written
/// down in 32 bits.
pub open spec fn injectable(
    contacts: Contacts,
    events: Seq<TouchEvent>,
    mapping: ScreenMapping,
) -> bool {
    forall|i: int|
        0 <= i < events.len() && transition(
            contacts_after_all(contacts, events.take(i)),
            #[trigger] events[i],
        ) is Some ==> contact_fits(events[i], mapping)
}

/// The fingers of a tablet, and the synthetic pointer device that stands for them.
pub struct TouchInjector {
    api_loaded: bool,
    device: Option<usize>,
    state: Vec<Contact>,
}

/// The record of finger `id` in a list without duplicates.
spec fn recorded(state: Seq<Contact>, id: u32, i: int) -> bool {
    0 <= i < state.len() && state[i].id == id
}

spec fn contacts_of(state: Seq<Contact>) -> Contacts {
    Map::new(
        |id: u32| exists|i: int| recorded(state, id, i),
        |id: u32| state[choose|i: int| recorded(state, id, i)],
    )
}

spec fn distinct(state: Seq<Contact>) -> bool {
    forall|i: int, j: int| 0 <= i < j < state.len() ==> state[i].id != state[j].id
}

proof fn lemma_recorded(state: Seq<Contact>, i: int)
    requires
        distinct(state),
        0 <= i < state.len(),
    ensures
        contacts_of(state).dom().contains(state[i].id),
        contacts_of(state)[state[i].id] == state[i],
{
    assert(recorded(state, state[i].id, i));
    let j = choose|j: int| recorded(state, state[i].id, j);
    assert(i == j);
}

proof fn lemma_recorded_update(state: Seq<Contact>, i: int, c: Contact)
    requires
        distinct(state),
        0 <= i < state.len(),
        state[i].id == c.id,
    ensures
        distinct(state.update(i, c)),
        contacts_of(state.update(i, c)) == contacts_of(state).insert(c.id, c),
{
    let next = state.update(i, c);
    assert forall|id: u32| contacts_of(next).dom().contains(id) <==> contacts_of(state).insert(
        c.id,
        c,
    ).dom().contains(id) by {
        if contacts_of(next).dom().contains(id) {
            let j = choose|j: int| recorded(next, id, j);
            assert(recorded(state, id, j));
        }
        if contacts_of(state).dom().contains(id) {
            let j = choose|j: int| recorded(state, id, j);
            assert(recorded(next, id, j));
        }
        if id == c.id {
            assert(recorded(next, id, i));
        }
    }
    assert forall|id: u32| contacts_of(next).dom().contains(id) implies contacts_of(next)[id]
        == contacts_of(state).insert(c.id, c)[id] by {
        let j = choose|j: int| recorded(next, id, j);
        lemma_recorded(next, j);
        lemma_recorded(state, j);
    }
    assert(contacts_of(next) =~= contacts_of(state).insert(c.id, c));
}

proof fn lemma_recorded_push(state: Seq<Contact>, c: Contact)
    requires
        distinct(state),
        !contacts_of(state).dom().contains(c.id),
    ensures
        distinct(state.push(c)),
        contacts_of(state.push(c)) == contacts_of(state).insert(c.id, c),
{
    let next = state.push(c);
    assert forall|i: int| 0 <= i < state.len() implies state[i].id != c.id by {
        assert(recorded(state, state[i].id, i));
    }
    assert forall|id: u32| contacts_of(next).dom().contains(id) <==> contacts_of(state).insert(
        c.id,
        c,
    ).dom().contains(id) by {
        if contacts_of(next).dom().contains(id) {
            let j = choose|j: int| recorded(next, id, j);
            if j < state.len() {
                assert(recorded(state, id, j));
            }
        }
        if contacts_of(state).dom().contains(id) {
            let j = choose|j: int| recorded(state, id, j);
            assert(recorded(next, id, j));
        }
        if id == c.id {
            assert(recorded(next, id, state.len() as int));
        }
    }
    assert forall|id: u32| contacts_of(next).dom().contains(id) implies contacts_of(next)[id]
        == contacts_of(state).insert(c.id, c)[id] by {
        let j = choose|j: int| recorded(next, id, j);
        lemma_recorded(next, j);
        if j < state.len() {
            lemma_recorded(state, j);
        }
    }
    assert(contacts_of(next) =~= contacts_of(state).insert(c.id, c));
}

/// Looks a finger up.
fn find(state: &Vec<Contact>, id: u32) -> (r: Option<usize>)
    requires
        distinct(state@),
    ensures
        match r {
            Some(i) => i < state.len() && state[i as int].id == id,
            None => !contacts_of(state@).dom().contains(id),
        },
{
    let mut i: usize = 0;
    while i < state.len()
        invariant
            i <= state.len(),
            forall|j: int| 0 <= j < i ==> state[j].id != id,
        decreases state.len() - i,
    {
        if state[i].id == id {
            return Some(i);
        }
        i = i + 1;
    }
    proof {
        if contacts_of(state@).dom().contains(id) {
            let j = choose|j: int| recorded(state@, id, j);
        }
    }
    None
}

/// Tells whether every event's contact rectangle can be written down in 32 bits.
/// It always can on monitors of at most 2^31 - 8 pixels in each direction. Where it
/// can, the events are injectable.
pub fn contacts_fit(events: &[TouchEvent], mapping: &ScreenMapping) -> (r: bool)
    ensures
        r == (forall|i: int| 0 <= i < events@.len() ==> #[trigger] contact_fits(events@[i], *mapping)),
        r ==> forall|contacts: Contacts| #[trigger] injectable(contacts, events@, *mapping),
{
    let mut i: usize = 0;
    while i < events.len()
        invariant
            i <= events.len(),
            forall|j: int| 0 <= j < i ==> #[trigger] contact_fits(events@[j], *mapping),
        decreases events.len() - i,
    {
        let event: TouchEvent = events[i];
        let x: i32 = pixel(event.2, mapping.width);
        let y: i32 = pixel(event.3, mapping.height);
        if x > i32::MAX - FINGER_RADIUS || y > i32::MAX - FINGER_RADIUS {
            assert(!contact_fits(events@[i as int], *mapping));
            return false;
        }
        i = i + 1;
    }
    true
}

impl TouchInjector {
    /// Each finger is remembered once.
    pub closed spec fn wf(&self) -> bool {
        distinct(self.state@)
    }

    /// What is remembered of the fingers.
    pub closed spec fn contacts(&self) -> Contacts {
        contacts_of(self.state@)
    }

    /// What is remembered is what some messages, since there was nothing, come to.
    pub open spec fn follows(&self, calls: Seq<Call>) -> bool {
        self.contacts() == contacts_after_calls(Map::empty(), calls)
    }

    /// The device's handle, where there is one.
    pub closed spec fn device_handle(&self) -> Option<usize> {
        self.device
    }

    /// Whether the operating system's injection functions were found.
    pub closed spec fn has_api(&self) -> bool {
        self.api_loaded
    }

    /// Sets up the bookkeeping for a device. `api_loaded` tells whether the
    /// injection functions were found, `handle` is what creating the device gave
    /// (0 for a failure; ignored where there are no functions to create one).
    pub fn new(api_loaded: bool, handle: usize) -> (r: Self)
        ensures
            r.wf(),
            r.has_api() == api_loaded,
            r.device_handle() == (if api_loaded && handle != 0 { Some(handle) } else { None }),
            r.contacts() == Map::<u32, Contact>::empty(),
            r.follows(Seq::<Call>::empty()),
    {
        let device: Option<usize> = if api_loaded && handle != 0 { Some(handle) } else { None };
        let state: Vec<Contact> = Vec::new();
        proof {
            assert forall|id: u32| !contacts_of(state@).dom().contains(id) by {
                assert(forall|i: int| !recorded(state@, id, i));
            }
            assert(contacts_of(state@) =~= Map::<u32, Contact>::empty());
        }
        TouchInjector { api_loaded, device, state }
    }

    /// Tells whether touches cannot be injected.
    pub fn unsupported(&self) -> (r: bool)
        ensures
            r == (!self.has_api() || self.device_handle() is None),
    {
        !self.api_loaded || self.device.is_none()
    }

    /// The handle to inject into.
    pub fn device(&self) -> (r: Option<usize>)
        ensures
            r == self.device_handle(),
    {
        self.device
    }

    /// Gives the device up. Returns the handle to destroy, where there is one.
    pub fn shutdown(&mut self) -> (r: Option<usize>)
        requires
            old(self).wf(),
        ensures
            r == (if old(self).has_api() { old(self).device_handle() } else { None }),
            final(self).wf(),
            final(self).device_handle() is None,
            final(self).has_api() == old(self).has_api(),
            final(self).contacts() == old(self).contacts(),
    {
        let device: Option<usize> = self.device;
        self.device = None;
        if self.api_loaded {
            device
        } else {
            None
        }
    }

    /// Takes in a touch message: returns the pointer transitions to inject, and
    /// remembers where the fingers are now.
    pub fn apply(&mut self, events: &[TouchEvent], mapping: &ScreenMapping) -> (r: Result<
        Vec<PointerTouch>,
        TouchError,
    >)
        requires
            old(self).wf(),
            old(self).has_api() && old(self).device_handle() is Some ==> injectable(
                old(self).contacts(),
                events@,
                *mapping,
            ),
        ensures
            final(self).wf(),
            final(self).has_api() == old(self).has_api(),
            final(self).device_handle() == old(self).device_handle(),
            match r {
                Ok(batch) => {
                    &&& old(self).has_api() && old(self).device_handle() is Some
                    &&& batch@ == injected(old(self).contacts(), events@, *mapping)
                    &&& final(self).contacts() == contacts_after_all(old(self).contacts(), events@)
                },
                Err(e) => {
                    &&& e == TouchError::Unsupported
                    &&& !old(self).has_api() || old(self).device_handle() is None
                    &&& final(self).contacts() == old(self).contacts()
                },
            },
            old(self).has_api() && old(self).device_handle() is Some ==> forall|calls: Seq<Call>|
                #[trigger]
                old(self).follows(calls) ==> {
                    let all = calls.push(Call { events: events@, mapping: *mapping });
                    &&& final(self).follows(all)
                    &&& injected_by_calls(Map::empty(), all) == injected_by_calls(
                        Map::empty(),
                        calls,
                    ) + injected(old(self).contacts(), events@, *mapping)
                },
    {
        proof {
            assert forall|calls: Seq<Call>| #[trigger] old(self).follows(calls) implies calls.push(
                Call { events: events@, mapping: *mapping },
            ).drop_last() == calls by {
                assert(calls.push(Call { events: events@, mapping: *mapping }).drop_last()
                    =~= calls);
            }
        }
        if self.unsupported() {
            return Err(TouchError::Unsupported);
        }
        let mut batch: Vec<PointerTouch> = Vec::new();
        let mut i: usize = 0;
        proof {
            assert(events@.take(0) =~= seq![]);
        }
        while i < events.len()
            invariant
                i <= events.len(),
                self.wf(),
                self.has_api() == old(self).has_api(),
                self.device_handle() == old(self).device_handle(),
                injectable(old(self).contacts(), events@, *mapping),
                batch@ == injected(old(self).contacts(), events@.take(i as int), *mapping),
                self.contacts() == contacts_after_all(old(self).contacts(), events@.take(i as int)),
            decreases events.len() - i,
        {
            proof {
                assert(events@.take(i + 1).drop_last() =~= events@.take(i as int));
                assert(events@.take(i + 1).last() == events@[i as int]);
            }
            match self.apply_one(events[i], mapping) {
                Some(touch) => batch.push(touch),
                None => {},
            }
            i = i + 1;
        }
        proof {
            assert(events@.take(i as int) =~= events@);
        }
        Ok(batch)
    }

    /// Takes in one event.
    fn apply_one(&mut self, event: TouchEvent, mapping: &ScreenMapping) -> (r: Option<PointerTouch>)
        requires
            old(self).wf(),
            transition(old(self).contacts(), event) is Some ==> contact_fits(event, *mapping),
        ensures
            final(self).wf(),
            final(self).has_api() == old(self).has_api(),
            final(self).device_handle() == old(self).device_handle(),
            final(self).contacts() == contacts_after(old(self).contacts(), event),
            match r {
                Some(touch) => injected_for(old(self).contacts(), event, *mapping) == seq![touch],
                None => injected_for(old(self).contacts(), event, *mapping) == Seq::<
                    PointerTouch,
                >::empty(),
            },
    {
        let id: u32 = event.0 as u32;
        let active: bool = event.1;
        let nx: u32 = sanitize(event.2);
        let ny: u32 = sanitize(event.3);
        let x: i32 = pixel(event.2, mapping.width);
        let y: i32 = pixel(event.3, mapping.height);
        let found: Option<usize> = find(&self.state, id);
        let previous: Contact = match found {
            Some(i) => self.state[i],
            None => Contact { id, x: nx, y: ny, active: false },
        };
        proof {
            match found {
                Some(i) => lemma_recorded(self.state@, i as int),
                None => {},
            }
        }
        let flags: u32 = if active && !previous.active {
            CONTACT_DOWN
        } else if active && (previous.x != nx || previous.y != ny) {
            CONTACT_UPDATE
        } else if !active && previous.active {
            CONTACT_UP
        } else {
            return None;
        };
        let seen = Contact { id, x: nx, y: ny, active };
        match found {
            Some(i) => {
                proof {
                    lemma_recorded_update(self.state@, i as int, seen);
                }
                self.state.set(i, seen);
            },
            None => {
                proof {
                    lemma_recorded_push(self.state@, seen);
                }
                self.state.push(seen);
            },
        }
        Some(
            PointerTouch {
                pointer_type: PT_TOUCH,
                pointer_id: id,
                pointer_flags: flags,
                pixel_location: Point { x, y },
                touch_flags: TOUCH_FLAG_NONE,
                touch_mask: TOUCH_MASK_CONTACTAREA,
                contact: Rect {
                    left: x - FINGER_RADIUS,
                    top: y - FINGER_RADIUS,
                    right: x + FINGER_RADIUS,
                    bottom: y + FINGER_RADIUS,
                },
            },
        )
    }

    /// Takes in a touch message and hands the pointer transitions it comes to, if
    /// any, to `inject` together with the device's handle. `inject` answers as the
    /// operating system does, with 0 for a failure. It need take nothing else than
    /// these transitions, and is not called where there are none.
    pub fn apply_and_send<F: FnOnce(usize, Vec<PointerTouch>) -> i32>(
        &mut self,
        events: &[TouchEvent],
        mapping: &ScreenMapping,
        inject: F,
    ) -> (r: Result<(), TouchError>)
        requires
            old(self).wf(),
            old(self).has_api() && old(self).device_handle() is Some ==> injectable(
                old(self).contacts(),
                events@,
                *mapping,
            ),
            forall|batch: Vec<PointerTouch>|
                old(self).has_api() && old(self).device_handle() is Some && batch@.len() > 0
                    && batch@ == injected(old(self).contacts(), events@, *mapping)
                    ==> #[trigger] inject.requires((old(self).device_handle().unwrap(), batch)),
        ensures
            final(self).wf(),
            final(self).has_api() == old(self).has_api(),
            final(self).device_handle() == old(self).device_handle(),
            r == Err::<(), TouchError>(TouchError::Unsupported) <==> (!old(self).has_api() || old(
                self,
            ).device_handle() is None),
            r == Err::<(), TouchError>(TouchError::Unsupported) ==> final(self).contacts() == old(
                self,
            ).contacts(),
            r != Err::<(), TouchError>(TouchError::Unsupported) ==> {
                let sent = injected(old(self).contacts(), events@, *mapping);
                &&& final(self).contacts() == contacts_after_all(old(self).contacts(), events@)
                &&& sent.len() == 0 ==> r is Ok
                &&& sent.len() > 0 ==> exists|batch: Vec<PointerTouch>, answer: i32|
                    {
                        &&& batch@ == sent
                        &&& #[trigger] inject.ensures(
                            (old(self).device_handle().unwrap(), batch),
                            answer,
                        )
                        &&& r is Ok <==> answer != 0
                    }
            },
            old(self).has_api() && old(self).device_handle() is Some ==> forall|calls: Seq<Call>|
                #[trigger]
                old(self).follows(calls) ==> {
                    let all = calls.push(Call { events: events@, mapping: *mapping });
                    &&& final(self).follows(all)
                    &&& injected_by_calls(Map::empty(), all) == injected_by_calls(
                        Map::empty(),
                        calls,
                    ) + injected(old(self).contacts(), events@, *mapping)
                },
    {
        let batch: Vec<PointerTouch> = match self.apply(events, mapping) {
            Ok(batch) => batch,
            Err(e) => return Err(e),
        };
        match self.device {
            Some(device) => {
                if batch.len() == 0 {
                    return Ok(());
                }
                let answer: i32 = inject(device, batch);
                if answer == 0 {
                    Err(TouchError::SendFailed)
                } else {
                    Ok(())
                }
            },
            None => Err(TouchError::Unsupported),
        }
    }
}

/// Message boundaries do not matter: two lists of events, one after the other,
/// come to the same as the two joined.
pub proof fn lemma_batches_compose(
    contacts: Contacts,
    first: Seq<TouchEvent>,
    second: Seq<TouchEvent>,
    mapping: ScreenMapping,
)
    ensures
        contacts_after_all(contacts, first + second) == contacts_after_all(
            contacts_after_all(contacts, first),
            second,
        ),
        injected(contacts, first + second, mapping) == injected(contacts, first, mapping)
            + injected(contacts_after_all(contacts, first), second, mapping),
    decreases second.len(),
{
    if second.len() == 0 {
        assert(first + second =~= first);
        assert(injected(contacts, first, mapping) + seq![] =~= injected(contacts, first, mapping));
    } else {
        lemma_batches_compose(contacts, first, second.drop_last(), mapping);
        assert((first + second).drop_last() =~= first + second.drop_last());
        assert((first + second).last() == second.last());
        let middle = contacts_after_all(contacts, first);
        let tail = injected_for(
            contacts_after_all(middle, second.drop_last()),
            second.last(),
            mapping,
        );
        assert(injected(contacts, first, mapping) + (injected(middle, second.drop_last(), mapping)
            + tail) =~= (injected(contacts, first, mapping) + injected(
            middle,
            second.drop_last(),
            mapping,
        )) + tail);
    }
}

/// Whether finger `id` is down after the given transitions, where it was down
/// before them if `down`; `None` where one of them was out of turn (a finger came
/// down twice, or moved or was lifted while it was not down).
pub open spec fn down_after(down: bool, touches: Seq<PointerTouch>, id: u32) -> Option<bool>
    decreases touches.len(),
{
    if touches.len() == 0 {
        Some(down)
    } else {
        match down_after(down, touches.drop_last(), id) {
            None => None,
            Some(before) => {
                let touch = touches.last();
                if touch.pointer_id != id {
                    Some(before)
                } else if touch.pointer_flags == CONTACT_DOWN && !before {
                    Some(true)
                } else if touch.pointer_flags == CONTACT_UPDATE && before {
                    Some(true)
                } else if touch.pointer_flags == CONTACT_UP && before {
                    Some(false)
                } else {
                    None
                }
            },
        }
    }
}

proof fn lemma_flags_differ()
    ensures
        CONTACT_DOWN != CONTACT_UPDATE,
        CONTACT_DOWN != CONTACT_UP,
        CONTACT_UPDATE != CONTACT_UP,
{
    assert(CONTACT_DOWN != CONTACT_UPDATE && CONTACT_DOWN != CONTACT_UP && CONTACT_UPDATE
        != CONTACT_UP) by (bit_vector);
}

/// Whatever the tablet sends, the transitions injected for a finger are in turn:
/// it comes down, moves while it is down, is lifted, and so again. And what is
/// remembered of it agrees with them.
pub proof fn lemma_transitions_in_turn(
    contacts: Contacts,
    events: Seq<TouchEvent>,
    mapping: ScreenMapping,
    id: u32,
)
    ensures
        down_after(is_down(contacts, id), injected(contacts, events, mapping), id) == Some(
            is_down(contacts_after_all(contacts, events), id),
        ),
    decreases events.len(),
{
    if events.len() > 0 {
        lemma_flags_differ();
        let before = events.drop_last();
        lemma_transitions_in_turn(contacts, before, mapping, id);
        let middle = contacts_after_all(contacts, before);
        let sent = injected(contacts, before, mapping);
        let more = injected_for(middle, events.last(), mapping);
        if more.len() == 0 {
            assert(sent + more =~= sent);
        } else {
            assert((sent + more).drop_last() =~= sent);
            assert((sent + more).last() == more[0]);
        }
    }
}

/// No two of some events are of the same finger.
pub open spec fn of_distinct_fingers(events: Seq<TouchEvent>) -> bool {
    forall|i: int, j: int| 0 <= i < j < events.len() ==> (#[trigger] events[i]).0 != (
    #[trigger] events[j]).0
}

/// Events that have just been taken in, of a different finger each, change nothing
/// when they are repeated.
pub proof fn lemma_repeat_is_silent(
    contacts: Contacts,
    events: Seq<TouchEvent>,
    mapping: ScreenMapping,
)
    requires
        of_distinct_fingers(events),
    ensures
        ({
            let after = contacts_after_all(contacts, events);
            &&& injected(after, events, mapping) == Seq::<PointerTouch>::empty()
            &&& contacts_after_all(after, events) == after
        }),
{
    lemma_settled(contacts, events);
    lemma_settled_is_silent(contacts_after_all(contacts, events), events, mapping);
}

proof fn lemma_settled(contacts: Contacts, events: Seq<TouchEvent>)
    requires
        of_distinct_fingers(events),
    ensures
        forall|i: int|
            0 <= i < events.len() ==> transition(
                contacts_after_all(contacts, events),
                #[trigger] events[i],
            ) is None,
    decreases events.len(),
{
    if events.len() > 0 {
        let before = events.drop_last();
        let middle = contacts_after_all(contacts, before);
        assert(of_distinct_fingers(before)) by {
            assert forall|i: int, j: int| 0 <= i < j < before.len() implies (
            #[trigger] before[i]).0 != (#[trigger] before[j]).0 by {
                assert(before[i] == events[i] && before[j] == events[j]);
            }
        }
        lemma_settled(contacts, before);
        assert forall|i: int| 0 <= i < events.len() implies transition(
            contacts_after_all(contacts, events),
            #[trigger] events[i],
        ) is None by {
            if i < before.len() {
                assert(before[i] == events[i]);
                assert(events[i].0 != events[events.len() - 1].0);
            }
        }
    }
}

proof fn lemma_settled_is_silent(
    contacts: Contacts,
    events: Seq<TouchEvent>,
    mapping: ScreenMapping,
)
    requires
        forall|i: int|
            0 <= i < events.len() ==> transition(contacts, #[trigger] events[i]) is None,
    ensures
        injected(contacts, events, mapping) == Seq::<PointerTouch>::empty(),
        contacts_after_all(contacts, events) == contacts,
    decreases events.len(),
{
    if events.len() > 0 {
        let before = events.drop_last();
        assert forall|i: int| 0 <= i < before.len() implies transition(
            contacts,
            #[trigger] before[i],
        ) is None by {
            assert(before[i] == events[i]);
        }
        lemma_settled_is_silent(contacts, before, mapping);
        assert(transition(contacts, events[events.len() - 1]) is None);
    }
}

/// The events of one finger, in their order.
pub open spec fn events_of(events: Seq<TouchEvent>, id: u32) -> Seq<TouchEvent>
    decreases events.len(),
{
    if events.len() == 0 {
        seq![]
    } else {
        let before = events_of(events.drop_last(), id);
        if events.last().0 as u32 == id {
            before.push(events.last())
        } else {
            before
        }
    }
}

/// The pointer transitions of one finger, in their order.
pub open spec fn touches_of(touches: Seq<PointerTouch>, id: u32) -> Seq<PointerTouch>
    decreases touches.len(),
{
    if touches.len() == 0 {
        seq![]
    } else {
        let before = touches_of(touches.drop_last(), id);
        if touches.last().pointer_id == id {
            before.push(touches.last())
        } else {
            before
        }
    }
}

/// The same is remembered of a finger.
pub open spec fn agree_on(a: Contacts, b: Contacts, id: u32) -> bool {
    &&& a.dom().contains(id) == b.dom().contains(id)
    &&& a.dom().contains(id) ==> a[id] == b[id]
}

/// Fingers do not disturb each other: what is injected for a finger, and what is
/// remembered of it, is what its own events alone come to, whatever is known of the
/// other fingers.
pub proof fn lemma_fingers_independent(
    contacts: Contacts,
    others: Contacts,
    events: Seq<TouchEvent>,
    mapping: ScreenMapping,
    id: u32,
)
    requires
        agree_on(contacts, others, id),
    ensures
        touches_of(injected(contacts, events, mapping), id) == injected(
            others,
            events_of(events, id),
            mapping,
        ),
        agree_on(
            contacts_after_all(contacts, events),
            contacts_after_all(others, events_of(events, id)),
            id,
        ),
    decreases events.len(),
{
    if events.len() > 0 {
        let before = events.drop_last();
        let last = events.last();
        lemma_fingers_independent(contacts, others, before, mapping, id);
        let middle = contacts_after_all(contacts, before);
        let sent = injected(contacts, before, mapping);
        let more = injected_for(middle, last, mapping);
        let own = events_of(before, id);
        if more.len() == 0 {
            assert(sent + more =~= sent);
        } else {
            assert((sent + more).drop_last() =~= sent);
            assert((sent + more).last() == more[0]);
        }
        if last.0 as u32 == id {
            assert(own.push(last).drop_last() =~= own);
            let mine = injected_for(contacts_after_all(others, own), last, mapping);
            assert(mine == more);
            if more.len() == 0 {
                assert(injected(others, own, mapping) + mine =~= injected(others, own, mapping));
            } else {
                assert(injected(others, own, mapping) + mine =~= injected(
                    others,
                    own,
                    mapping,
                ).push(more[0]));
            }
        }
    } else {
        assert(events_of(events, id) =~= seq![]);
    }
}

proof fn lemma_down_after_joined(
    down: bool,
    first: Seq<PointerTouch>,
    second: Seq<PointerTouch>,
    id: u32,
)
    ensures
        down_after(down, first + second, id) == (match down_after(down, first, id) {
            Some(before) => down_after(before, second, id),
            None => None,
        }),
    decreases second.len(),
{
    if second.len() == 0 {
        assert(first + second =~= first);
    } else {
        lemma_down_after_joined(down, first, second.drop_last(), id);
        assert((first + second).drop_last() =~= first + second.drop_last());
        assert((first + second).last() == second.last());
    }
}

/// Over all messages that an injector takes, whatever they hold, the transitions
/// injected for a finger are in turn: it comes down, moves while it is down, is
/// lifted, and so again, from the first message on.
pub proof fn lemma_calls_in_turn(calls: Seq<Call>, id: u32)
    ensures
        down_after(false, injected_by_calls(Map::empty(), calls), id) == Some(
            is_down(contacts_after_calls(Map::empty(), calls), id),
        ),
    decreases calls.len(),
{
    if calls.len() > 0 {
        let before = calls.drop_last();
        let middle = contacts_after_calls(Map::empty(), before);
        lemma_calls_in_turn(before, id);
        lemma_transitions_in_turn(middle, calls.last().events, calls.last().mapping, id);
        lemma_down_after_joined(
            false,
            injected_by_calls(Map::empty(), before),
            injected(middle, calls.last().events, calls.last().mapping),
            id,
        );
    }
}

proof fn lemma_touches_of_joined(first: Seq<PointerTouch>, second: Seq<PointerTouch>, id: u32)
    ensures
        touches_of(first + second, id) == touches_of(first, id) + touches_of(second, id),
    decreases second.len(),
{
    if second.len() == 0 {
        assert(first + second =~= first);
        assert(touches_of(first, id) + seq![] =~= touches_of(first, id));
    } else {
        lemma_touches_of_joined(first, second.drop_last(), id);
        assert((first + second).drop_last() =~= first + second.drop_last());
        assert((first + second).last() == second.last());
        if second.last().pointer_id == id {
            assert(touches_of(first, id) + touches_of(second.drop_last(), id).push(second.last())
                =~= (touches_of(first, id) + touches_of(second.drop_last(), id)).push(
                second.last(),
            ));
        }
    }
}

/// The messages with the events of one finger alone.
pub open spec fn calls_of(calls: Seq<Call>, id: u32) -> Seq<Call> {
    Seq::new(
        calls.len(),
        |i: int| Call { events: events_of(calls[i].events, id), mapping: calls[i].mapping },
    )
}

/// Over all messages, what is injected for a finger and what is remembered of it is
/// what its own events alone come to.
pub proof fn lemma_calls_independent(calls: Seq<Call>, id: u32)
    ensures
        touches_of(injected_by_calls(Map::empty(), calls), id) == injected_by_calls(
            Map::empty(),
            calls_of(calls, id),
        ),
        agree_on(
            contacts_after_calls(Map::empty(), calls),
            contacts_after_calls(Map::empty(), calls_of(calls, id)),
            id,
        ),
    decreases calls.len(),
{
    if calls.len() > 0 {
        let before = calls.drop_last();
        let own = calls_of(before, id);
        lemma_calls_independent(before, id);
        assert(calls_of(calls, id).drop_last() =~= own);
        assert(calls_of(calls, id).last().events == events_of(calls.last().events, id));
        let middle = contacts_after_calls(Map::empty(), before);
        lemma_fingers_independent(
            middle,
            contacts_after_calls(Map::empty(), own),
            calls.last().events,
            calls.last().mapping,
            id,
        );
        lemma_touches_of_joined(
            injected_by_calls(Map::empty(), before),
            injected(middle, calls.last().events, calls.last().mapping),
            id,
        );
    }
}

/// Whatever the tablet sends, every injected contact lies on the monitor.
pub proof fn lemma_contacts_in_bounds(
    contacts: Contacts,
    events: Seq<TouchEvent>,
    mapping: ScreenMapping,
    i: int,
)
    requires
        1 <= mapping.width <= 0x8000_0000,
        1 <= mapping.height <= 0x8000_0000,
        0 <= i < injected(contacts, events, mapping).len(),
    ensures
        ({
            let place = injected(contacts, events, mapping)[i].pixel_location;
            0 <= place.x < mapping.width && 0 <= place.y < mapping.height
        }),
    decreases events.len(),
{
    if events.len() > 0 {
        let before = events.drop_last();
        if i < injected(contacts, before, mapping).len() {
            lemma_contacts_in_bounds(contacts, before, mapping, i);
        } else {
            lemma_pixel_in_bounds(events.last().2, mapping.width);
            lemma_pixel_in_bounds(events.last().3, mapping.height);
        }
    }
}

/// A monitor of at most 2^31 - 8 pixels in each direction takes every event.
pub proof fn lemma_contacts_fit(event: TouchEvent, mapping: ScreenMapping)
    requires
        mapping.width <= 0x7FFF_FFF8,
        mapping.height <= 0x7FFF_FFF8,
    ensures
        contact_fits(event, mapping),
{
    lemma_scaled(event.2, mapping.width);
    lemma_scaled(event.3, mapping.height);
}

/// What one event does, for every state of its finger, with the two coordinates
/// written out. A finger that is not down comes down. One that is down moves where its
/// column changes, where its row changes, and where both do, and it is lifted. Nothing
/// else is injected. Whatever is injected stands at the place of the event, and after
/// an event with the finger down that place is what is remembered.
pub proof fn lemma_event_outcome(
    contacts: Contacts,
    event: TouchEvent,
    mapping: ScreenMapping,
    other: u32,
)
    ensures
        ({
            let id = event.0 as u32;
            let x = unit_bits(event.2);
            let y = unit_bits(event.3);
            let down = contacts.dom().contains(id) && contacts[id].active;
            let sent = injected_for(contacts, event, mapping);
            let after = contacts_after(contacts, event);
            &&& event.1 && !down ==> sent.len() == 1 && sent[0].pointer_flags == 0x0001_0006
            &&& event.1 && down && contacts[id].x != x ==> sent.len() == 1 && sent[0].pointer_flags
                == 0x0002_0006
            &&& event.1 && down && contacts[id].y != y ==> sent.len() == 1 && sent[0].pointer_flags
                == 0x0002_0006
            &&& event.1 && down && contacts[id].x == x && contacts[id].y == y ==> sent.len() == 0
            &&& !event.1 && down ==> sent.len() == 1 && sent[0].pointer_flags == 0x0004_0000
            &&& !event.1 && !down ==> sent.len() == 0 && after == contacts
            &&& sent.len() == 1 ==> {
                &&& sent[0].pointer_id == id && after[id].id == id
                &&& sent[0].pixel_location.x == pixel_of(event.2, mapping.width)
                &&& sent[0].pixel_location.y == pixel_of(event.3, mapping.height)
            }
            &&& event.1 || down ==> {
                &&& after.dom().contains(id)
                &&& after[id].x == x
                &&& after[id].y == y
                &&& after[id].active == event.1
            }
            &&& other != id ==> {
                &&& after.dom().contains(other) == contacts.dom().contains(other)
                &&& after[other] == contacts[other]
            }
        }),
{
    assert(CONTACT_DOWN == 0x0001_0006 && CONTACT_UPDATE == 0x0002_0006 && CONTACT_UP == 0x0004_0000)
        by (bit_vector);
    lemma_scaled(event.2, mapping.width);
    lemma_scaled(event.3, mapping.height);
}

/// A list of one event does what the event does, and an empty one nothing.
pub proof fn lemma_single_event(contacts: Contacts, event: TouchEvent, mapping: ScreenMapping)
    ensures
        injected(contacts, seq![event], mapping) == injected_for(contacts, event, mapping),
        contacts_after_all(contacts, seq![event]) == contacts_after(contacts, event),
        injected(contacts, Seq::<TouchEvent>::empty(), mapping) == Seq::<PointerTouch>::empty(),
        contacts_after_all(contacts, Seq::<TouchEvent>::empty()) == contacts,
{
    let one = seq![event];
    assert(one.drop_last() =~= Seq::<TouchEvent>::empty());
    assert(one.last() == event);
    assert(contacts_after_all(contacts, one.drop_last()) == contacts);
    assert(injected(contacts, one.drop_last(), mapping) =~= Seq::<PointerTouch>::empty());
    assert(injected(contacts, one, mapping) =~= injected_for(contacts, event, mapping));
}

/// Every contact that is injected is a square of 16 pixels round its place, of a finger
/// and with nothing but its area.
pub proof fn lemma_contact_shape(contacts: Contacts, event: TouchEvent, mapping: ScreenMapping)
    requires
        contact_fits(event, mapping),
        injected_for(contacts, event, mapping).len() > 0,
    ensures
        ({
            let touch = injected_for(contacts, event, mapping)[0];
            &&& touch.contact.left + 8 == touch.pixel_location.x == touch.contact.right - 8
            &&& touch.contact.top + 8 == touch.pixel_location.y == touch.contact.bottom - 8
            &&& touch.pointer_type == 2
            &&& touch.touch_flags == 0
            &&& touch.touch_mask == 1
        }),
{
    lemma_scaled(event.2, mapping.width);
    lemma_scaled(event.3, mapping.height);
}

/// A contact fits if and only if its rectangle ends within 32 bits.
pub proof fn lemma_contact_limits(event: TouchEvent, mapping: ScreenMapping)
    ensures
        contact_fits(event, mapping) <==> pixel_of(event.2, mapping.width) <= 0x7FFF_FFF7
            && pixel_of(event.3, mapping.height) <= 0x7FFF_FFF7,
{
}

/// Clamping is to the nearest number from 0 to 1, in the order of the finite numbers;
/// what is not a finite number becomes 0.
pub proof fn lemma_clamped(bits: u32)
    ensures
        0 <= unit_bits(bits) <= 0x3F80_0000,
        bits % 0x8000_0000 >= 0x7F80_0000 ==> unit_bits(bits) == 0,
        bits % 0x8000_0000 < 0x7F80_0000 ==> {
            &&& finite_order(bits) <= 0 ==> unit_bits(bits) == 0
            &&& 0 <= finite_order(bits) <= 0x3F80_0000 ==> unit_bits(bits) == finite_order(bits)
            &&& finite_order(bits) >= 0x3F80_0000 ==> unit_bits(bits) == 0x3F80_0000
        },
{
}

/// The fraction that a pattern stands for is the number of the format: one more in the
/// pattern is one more unit of the same scale, the next exponent is twice the number,
/// and the pattern of one is one.
pub proof fn lemma_fraction_of_pattern(bits: u32)
    ensures
        unit_mantissa(0x3F80_0000) == pow2(unit_scale(0x3F80_0000)),
        bits < 0x80_0000 ==> unit_mantissa(bits) == bits && unit_scale(bits) == 149,
        bits + 0x80_0000 <= 0x3F80_0000 && bits >= 0x80_0000 ==> unit_mantissa(
            (bits + 0x80_0000) as u32,
        ) == unit_mantissa(bits) && unit_scale((bits + 0x80_0000) as u32) == unit_scale(bits) - 1,
        bits < 0x3F80_0000 && (bits + 1) % 0x80_0000 != 0 ==> unit_mantissa((bits + 1) as u32)
            == unit_mantissa(bits) + 1 && unit_scale((bits + 1) as u32) == unit_scale(bits),
{
    lemma2_to64();
}

} // verus!
