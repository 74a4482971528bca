//! Pointer input from a VirtIO input device: evdev events are decoded into
//! pointer events (relative motion, buttons, absolute positions scaled to
//! the display) and queued in a bounded ring that drops new events when
//! full.

use vstd::prelude::*;

verus! {

pub const POINTER_RING_SIZE: usize = 128;
pub const INPUT_QUEUE_SIZE: usize = 64;
pub const INPUT_EVENT_BYTES: u32 = 8;
pub const EV_KEY: u16 = 1;
pub const EV_REL: u16 = 2;
pub const EV_ABS: u16 = 3;
pub const BTN_LEFT: u16 = 0x110;
pub const BTN_RIGHT: u16 = 0x111;
pub const BTN_MIDDLE: u16 = 0x112;
/// Largest coordinate an absolute axis reports.
pub const ABS_AXIS_MAX: i32 = 32767;

#[derive(Clone, Copy, Debug, PartialEq, Eq, Structural)]
pub enum MouseButton {
    Left,
    Right,
    Middle,
}

#[derive(Clone, Copy, Debug, PartialEq, Eq, Structural)]
pub enum PointerEvent {
    Move { dx: i16, dy: i16 },
    Button { button: MouseButton, pressed: bool },
    Absolute { x: i32, y: i32 },
}

/// One evdev event as the device writes it.
#[derive(Clone, Copy, Debug, PartialEq, Eq, Structural)]
pub struct InputEvent {
    pub event_type: u16,
    pub code: u16,
    pub value: u32,
}

/// One entry of the device's used ring: which buffer it filled, and how far.
#[derive(Clone, Copy, Debug, PartialEq, Eq, Structural)]
pub struct UsedElement {
    pub id: u32,
    pub length: u32,
}

/// Position `i` places after `head` in the ring, wrapping.
pub open spec fn ring_slot(head: int, i: int) -> int {
    (head + i) % (POINTER_RING_SIZE as int)
}

/// Events held between `head` (inclusive) and `tail` (exclusive).
pub open spec fn ring_len(head: int, tail: int) -> int {
    if tail >= head {
        tail - head
    } else {
        tail + POINTER_RING_SIZE - head
    }
}

/// A ring of pointer events; one slot stays free to tell full from empty.
pub struct PointerRing {
    values: [Option<PointerEvent>; POINTER_RING_SIZE],
    head: usize,
    tail: usize,
}

impl View for PointerRing {
    type V = Seq<PointerEvent>;

    /// The queued events, oldest first.
    closed spec fn view(&self) -> Seq<PointerEvent> {
        Seq::new(
            ring_len(self.head as int, self.tail as int) as nat,
            |i: int| self.values@[ring_slot(self.head as int, i)].unwrap(),
        )
    }
}

impl PointerRing {
    pub closed spec fn wf(&self) -> bool {
        &&& self.head < POINTER_RING_SIZE
        &&& self.tail < POINTER_RING_SIZE
        &&& forall|i: int|
            0 <= i < ring_len(self.head as int, self.tail as int) ==> (#[trigger] self.values@[ring_slot(
                self.head as int,
                i,
            )]) is Some
    }

    pub fn new() -> (r: Self)
        ensures
            r.wf(),
            r@ == Seq::<PointerEvent>::empty(),
    {
        let r = PointerRing { values: [None; POINTER_RING_SIZE], head: 0, tail: 0 };
        assert(r@ =~= Seq::<PointerEvent>::empty());
        r
    }

    /// Queue an event unless the ring is full, in which case it is dropped.
    pub fn push(&mut self, event: PointerEvent)
        requires
            old(self).wf(),
        ensures
            final(self).wf(),
            old(self)@.len() < POINTER_RING_SIZE - 1 ==> final(self)@ == old(self)@.push(event),
            old(self)@.len() == POINTER_RING_SIZE - 1 ==> final(self)@ == old(self)@,
            final(self)@.len() <= POINTER_RING_SIZE - 1,
    {
        let ghost before = self@;
        let ghost h = self.head as int;
        let next = (self.tail + 1) % POINTER_RING_SIZE;
        if next != self.head {
            let t = self.tail;
            self.values[t] = Some(event);
            self.tail = next;
            proof {
                assert(ring_len(h, next as int) == ring_len(h, t as int) + 1);
                assert(ring_slot(h, ring_len(h, t as int)) == t);
                assert forall|i: int| 0 <= i < ring_len(h, t as int) implies #[trigger] ring_slot(h, i) != t by {}
                assert(self@ =~= before.push(event));
            }
        } else {
            assert(ring_len(h, self.tail as int) == POINTER_RING_SIZE - 1);
        }
    }

    /// Take the oldest event, if any.
    pub fn pop(&mut self) -> (r: Option<PointerEvent>)
        requires
            old(self).wf(),
        ensures
            final(self).wf(),
            old(self)@.len() == 0 ==> r is None && final(self)@ == old(self)@,
            old(self)@.len() > 0 ==> r == Some(old(self)@[0]) && final(self)@ == old(self)@.drop_first(),
    {
        if self.head == self.tail {
            return None;
        }
        let ghost before = self@;
        let h = self.head;
        let value = self.values[h];
        assert(ring_slot(h as int, 0) == h);
        self.values[h] = None;
        self.head = (h + 1) % POINTER_RING_SIZE;
        proof {
            assert(ring_len(self.head as int, self.tail as int) == ring_len(h as int, self.tail as int) - 1);
            assert forall|i: int| 0 <= i < ring_len(self.head as int, self.tail as int) implies #[trigger] ring_slot(
                self.head as int,
                i,
            ) == ring_slot(h as int, i + 1) && ring_slot(h as int, i + 1) != h by {}
            assert(self@ =~= before.drop_first());
        }
        value
    }

    pub fn is_empty(&self) -> (r: bool)
        requires
            self.wf(),
        ensures
            r == (self@.len() == 0),
    {
        self.head == self.tail
    }
}

/// Pointer events come out in the order they went in: an event pushed onto a
/// ring with room is taken after every event queued before it.
pub proof fn lemma_pointer_fifo(before: Seq<PointerEvent>, event: PointerEvent)
    requires
        before.len() < POINTER_RING_SIZE - 1,
    ensures
        before.push(event)[before.len() as int] == event,
        before.len() > 0 ==> before.push(event)[0] == before[0],
        before.len() > 0 ==> before.push(event).drop_first() == before.drop_first().push(event),
{
    if before.len() > 0 {
        assert(before.push(event).drop_first() =~= before.drop_first().push(event));
    }
}

/// What the pointer driver holds: display bounds, the last absolute
/// position, and the queued events.
pub struct InputState {
    width: u32,
    height: u32,
    abs_x: i32,
    abs_y: i32,
    ring: PointerRing,
}

pub struct InputModel {
    pub width: u32,
    pub height: u32,
    pub abs_x: i32,
    pub abs_y: i32,
    pub events: Seq<PointerEvent>,
}

impl View for InputState {
    type V = InputModel;

    closed spec fn view(&self) -> InputModel {
        InputModel {
            width: self.width,
            height: self.height,
            abs_x: self.abs_x,
            abs_y: self.abs_y,
            events: self.ring@,
        }
    }
}

/// `value` limited to `[low, high]`.
pub open spec fn clamp_spec(value: int, low: int, high: int) -> int {
    if value < low {
        low
    } else if value > high {
        high
    } else {
        value
    }
}

/// An event appended unless `events` already fills the ring.
pub open spec fn queue_event(events: Seq<PointerEvent>, event: PointerEvent) -> Seq<PointerEvent> {
    if events.len() < POINTER_RING_SIZE - 1 {
        events.push(event)
    } else {
        events
    }
}

/// An absolute-axis reading in `[0, 32767]` mapped onto `[0, dimension - 1]`.
pub open spec fn scale_spec(value: i32, dimension: u32) -> i32 {
    let max: int = if dimension == 0 { 0 } else { dimension - 1 };
    ((clamp_spec(value as int, 0, ABS_AXIS_MAX as int) * max) / (ABS_AXIS_MAX as int)) as i32
}

/// The button an evdev key code names.
pub open spec fn button_of(code: u16) -> Option<MouseButton> {
    if code == BTN_LEFT {
        Some(MouseButton::Left)
    } else if code == BTN_RIGHT {
        Some(MouseButton::Right)
    } else if code == BTN_MIDDLE {
        Some(MouseButton::Middle)
    } else {
        None
    }
}

/// A relative delta limited to the range of `i16`.
pub open spec fn delta_spec(value: u32) -> i16 {
    clamp_spec((value as i32) as int, i16::MIN as int, i16::MAX as int) as i16
}

/// The driver state after one evdev event.
pub open spec fn decode_spec(m: InputModel, event: InputEvent) -> InputModel {
    if event.event_type == EV_KEY {
        match button_of(event.code) {
            Some(button) => InputModel {
                events: queue_event(m.events, PointerEvent::Button { button, pressed: event.value != 0 }),
                ..m
            },
            None => m,
        }
    } else if event.event_type == EV_REL {
        if event.code == 0 {
            InputModel { events: queue_event(m.events, PointerEvent::Move { dx: delta_spec(event.value), dy: 0 }), ..m }
        } else if event.code == 1 {
            InputModel { events: queue_event(m.events, PointerEvent::Move { dx: 0, dy: delta_spec(event.value) }), ..m }
        } else {
            m
        }
    } else if event.event_type == EV_ABS {
        if event.code == 0 {
            let x = scale_spec(event.value as i32, m.width);
            InputModel { abs_x: x, events: queue_event(m.events, PointerEvent::Absolute { x, y: m.abs_y }), ..m }
        } else if event.code == 1 {
            let y = scale_spec(event.value as i32, m.height);
            InputModel { abs_y: y, events: queue_event(m.events, PointerEvent::Absolute { x: m.abs_x, y }), ..m }
        } else {
            m
        }
    } else {
        m
    }
}

/// Whether a used-ring entry names a buffer of the queue that holds a whole event.
pub open spec fn accepted(used: UsedElement) -> bool {
    used.id < INPUT_QUEUE_SIZE && used.length >= INPUT_EVENT_BYTES
}

/// The driver state after the first `n` used-ring entries.
pub open spec fn consume_spec(m: InputModel, used: Seq<UsedElement>, events: Seq<InputEvent>, n: int) -> InputModel
    decreases n,
{
    if n <= 0 {
        m
    } else {
        let prior = consume_spec(m, used, events, n - 1);
        let u = used[n - 1];
        if accepted(u) {
            decode_spec(prior, events[u.id as int])
        } else {
            prior
        }
    }
}

/// Whether any of the first `n` used-ring entries is accepted.
pub open spec fn any_accepted(used: Seq<UsedElement>, n: int) -> bool
    decreases n,
{
    if n <= 0 {
        false
    } else {
        any_accepted(used, n - 1) || accepted(used[n - 1])
    }
}

/// The state with its oldest event taken.
pub open spec fn take_first(m: InputModel) -> InputModel {
    InputModel { events: m.events.drop_first(), ..m }
}

fn clamp_i32(value: i32, low: i32, high: i32) -> (r: i32)
    requires
        low <= high,
    ensures
        r == clamp_spec(value as int, low as int, high as int),
{
    if value < low {
        low
    } else if value > high {
        high
    } else {
        value
    }
}

/// Map an absolute-axis reading onto a display dimension.
pub fn scale_absolute(value: i32, dimension: u32) -> (r: i32)
    ensures
        r == scale_spec(value, dimension),
{
    let max: i64 = if dimension == 0 { 0 } else { (dimension - 1) as i64 };
    let v = clamp_i32(value, 0, ABS_AXIS_MAX) as i64;
    assert(0 <= v * max <= 32767 * 0xffff_ffff) by (nonlinear_arith)
        requires
            0 <= v <= 32767,
            0 <= max <= 0xffff_ffff,
    ;
    let scaled = (v * max) / (ABS_AXIS_MAX as i64);
    scaled as i32
}

impl InputState {
    pub closed spec fn wf(&self) -> bool {
        self.ring.wf()
    }

    /// The power-on state: a 1024x768 display with the pointer centred.
    pub fn new() -> (r: Self)
        ensures
            r.wf(),
            r@.width == 1024,
            r@.height == 768,
            r@.abs_x == 512,
            r@.abs_y == 384,
            r@.events == Seq::<PointerEvent>::empty(),
    {
        InputState { width: 1024, height: 768, abs_x: 512, abs_y: 384, ring: PointerRing::new() }
    }
}

/// Record the display size (at least one pixel each way) and pull the
/// current position inside it.
pub fn set_input_display_bounds(state: &mut InputState, width: u32, height: u32)
    requires
        old(state).wf(),
        width <= 0x8000_0000,
        height <= 0x8000_0000,
    ensures
        final(state).wf(),
        final(state)@.width == (if width == 0 { 1 } else { width }),
        final(state)@.height == (if height == 0 { 1 } else { height }),
        final(state)@.abs_x == clamp_spec(old(state)@.abs_x as int, 0, final(state)@.width - 1),
        final(state)@.abs_y == clamp_spec(old(state)@.abs_y as int, 0, final(state)@.height - 1),
        final(state)@.events == old(state)@.events,
{
    let w = if width == 0 { 1 } else { width };
    let h = if height == 0 { 1 } else { height };
    state.width = w;
    state.height = h;
    state.abs_x = clamp_i32(state.abs_x, 0, (w - 1) as i32);
    state.abs_y = clamp_i32(state.abs_y, 0, (h - 1) as i32);
}

/// Turn one evdev event into pointer state and queued events.
pub fn decode_input_event(state: &mut InputState, event: InputEvent)
    requires
        old(state).wf(),
    ensures
        final(state).wf(),
        final(state)@ == decode_spec(old(state)@, event),
{
    if event.event_type == EV_KEY {
        let button = if event.code == BTN_LEFT {
            Some(MouseButton::Left)
        } else if event.code == BTN_RIGHT {
            Some(MouseButton::Right)
        } else if event.code == BTN_MIDDLE {
            Some(MouseButton::Middle)
        } else {
            None
        };
        if let Some(button) = button {
            state.ring.push(PointerEvent::Button { button, pressed: event.value != 0 });
        }
    } else if event.event_type == EV_REL {
        let delta = clamp_i32(event.value as i32, i16::MIN as i32, i16::MAX as i32) as i16;
        if event.code == 0 {
            state.ring.push(PointerEvent::Move { dx: delta, dy: 0 });
        } else if event.code == 1 {
            state.ring.push(PointerEvent::Move { dx: 0, dy: delta });
        }
    } else if event.event_type == EV_ABS {
        if event.code == 0 {
            state.abs_x = scale_absolute(event.value as i32, state.width);
        } else if event.code == 1 {
            state.abs_y = scale_absolute(event.value as i32, state.height);
        } else {
            return;
        }
        let moved = PointerEvent::Absolute { x: state.abs_x, y: state.abs_y };
        state.ring.push(moved);
    }
}

/// Decode the events of a batch of used-ring entries, skipping entries that
/// name no buffer or a short one; says whether any buffer was consumed.
pub fn consume_used(state: &mut InputState, used: &[UsedElement], events: &[InputEvent]) -> (returned: bool)
    requires
        old(state).wf(),
        events.len() == INPUT_QUEUE_SIZE,
    ensures
        final(state).wf(),
        final(state)@ == consume_spec(old(state)@, used@, events@, used.len() as int),
        returned == any_accepted(used@, used.len() as int),
{
    let mut returned = false;
    let mut i: usize = 0;
    let ghost start = state@;
    while i < used.len()
        invariant
            i <= used.len(),
            events.len() == INPUT_QUEUE_SIZE,
            state.wf(),
            state@ == consume_spec(start, used@, events@, i as int),
            returned == any_accepted(used@, i as int),
        decreases used.len() - i,
    {
        let u = used[i];
        if u.id < INPUT_QUEUE_SIZE as u32 && u.length >= INPUT_EVENT_BYTES {
            decode_input_event(state, events[u.id as usize]);
            returned = true;
        }
        i += 1;
    }
    returned
}

/// Whether a pointer event is waiting.
pub fn input_has_pending_event(state: &InputState) -> (r: bool)
    requires
        state.wf(),
    ensures
        r == (state@.events.len() > 0),
{
    !state.ring.is_empty()
}

/// Take the oldest pointer event, if any.
pub fn input_try_read_event(state: &mut InputState) -> (r: Option<PointerEvent>)
    requires
        old(state).wf(),
    ensures
        final(state).wf(),
        old(state)@.events.len() == 0 ==> r is None && final(state)@ == old(state)@,
        old(state)@.events.len() > 0 ==> r == Some(old(state)@.events[0]) && final(state)@ == take_first(old(state)@),
{
    state.ring.pop()
}

/// The platform's pointer transport: the display bounds the VirtIO device scales to.
pub fn set_display_bounds(state: &mut InputState, width: u32, height: u32)
    requires
        old(state).wf(),
        width <= 0x8000_0000,
        height <= 0x8000_0000,
    ensures
        final(state).wf(),
        final(state)@.width == (if width == 0 { 1 } else { width }),
        final(state)@.height == (if height == 0 { 1 } else { height }),
        final(state)@.abs_x == clamp_spec(old(state)@.abs_x as int, 0, final(state)@.width - 1),
        final(state)@.abs_y == clamp_spec(old(state)@.abs_y as int, 0, final(state)@.height - 1),
        final(state)@.events == old(state)@.events,
{
    set_input_display_bounds(state, width, height)
}

/// The platform's pointer transport: whether an event is waiting.
pub fn has_pending_event(state: &InputState) -> (r: bool)
    requires
        state.wf(),
    ensures
        r == (state@.events.len() > 0),
{
    input_has_pending_event(state)
}

/// The platform's pointer transport: the oldest waiting event.
pub fn try_read_event(state: &mut InputState) -> (r: Option<PointerEvent>)
    requires
        old(state).wf(),
    ensures
        final(state).wf(),
        old(state)@.events.len() == 0 ==> r is None && final(state)@ == old(state)@,
        old(state)@.events.len() > 0 ==> r == Some(old(state)@.events[0]) && final(state)@ == take_first(old(state)@),
{
    input_try_read_event(state)
}

/// The pointer transport on this platform is polled: it has no interrupt line.
pub fn irq_line() -> (r: Option<u8>)
    ensures
        r is None,
{
    None
}

} // verus!
