//! Batched binary datagram format for hot-path input events.
//!
//! Layout: a 4-byte header (`MAGIC`, event count, sequence number as `u16`
//! little endian) followed by 1..=64 events.  Each event starts with a byte
//! holding a 2-bit tag and a 6-bit subtype:
//!
//! | byte 0        | event           | payload                          |
//! |---------------|-----------------|----------------------------------|
//! | `0b00_000000` | compact motion  | `dx: i8`, `dy: i8`               |
//! | `0b01_000000` | extended motion | `dx: i16 LE`, `dy: i16 LE`       |
//! | `0b10_000000` | button          | `code: u16 LE`, `state: u8`      |
//! | `0b10_000001` | key             | `code: u16 LE`, `state: u8`      |
//! | `0b11_000000` | wheel           | `axis: u8`, `ticks: i8`          |
use vstd::prelude::*;

verus! {

/// Maximum number of events carried by one datagram.
pub const MAX_BATCH_EVENTS: usize = 64;

/// Largest possible datagram: header plus 64 extended motion events.
pub const MAX_DATAGRAM_SIZE: usize = 4 + 64 * 5;

/// Magic byte; doubles as the format version.
pub const MAGIC: u8 = 0x4C;

/// Tag bits (bits 7..6 of an event's first byte).
pub const TAG_COMPACT_MOTION: u8 = 0b00;

pub const TAG_EXTENDED_MOTION: u8 = 0b01;

pub const TAG_BUTTON: u8 = 0b10;

pub const TAG_KEY: u8 = 0b10;

pub const TAG_WHEEL: u8 = 0b11;

/// Subtype bits (bits 5..0 of an event's first byte).
pub const SUBTYPE_MASK: u8 = 0b0011_1111;

/// Errors of batch encoding and decoding.
#[derive(Debug, PartialEq, Eq, Structural, Clone, Copy)]
pub enum BatchError {
    /// Buffer full: cannot fit another event (also: nothing to encode).
    BufferFull,
    /// Event cannot be batched (keyboard modifiers).
    NonBatchable,
    /// Datagram truncated.
    TruncatedDatagram,
    /// Bad magic byte.
    BadMagic,
    /// Bad subtype for the given tag, or an invalid event count.
    BadSubtype,
    /// Sequence number is stale (duplicate or far behind).
    StaleSeq,
    /// Wheel value does not fit `i8` ticks.
    WheelOverflow,
}

impl BatchError {
    /// Human-readable description of the error.
    pub fn message(&self) -> (s: &'static str)
        ensures
            s@ == batch_error_message(*self)@,
    {
        match self {
            BatchError::BufferFull => "batch buffer full",
            BatchError::NonBatchable => "event cannot be batched",
            BatchError::TruncatedDatagram => "truncated datagram",
            BatchError::BadMagic => "bad magic byte",
            BatchError::BadSubtype => "bad subtype",
            BatchError::StaleSeq => "stale sequence number",
            BatchError::WheelOverflow => "wheel ticks overflow i8",
        }
    }
}

/// The message of each error.
pub open spec fn batch_error_message(e: BatchError) -> &'static str {
    match e {
        BatchError::BufferFull => "batch buffer full",
        BatchError::NonBatchable => "event cannot be batched",
        BatchError::TruncatedDatagram => "truncated datagram",
        BatchError::BadMagic => "bad magic byte",
        BatchError::BadSubtype => "bad subtype",
        BatchError::StaleSeq => "stale sequence number",
        BatchError::WheelOverflow => "wheel ticks overflow i8",
    }
}

/// Pointer events.  Displacements and scroll amounts are whole numbers:
/// `dx`/`dy` are pixel displacements rounded to the nearest integer and
/// `value120` is a scroll amount in 1/120 steps, rounded likewise.
#[derive(Debug, PartialEq, Eq, Structural, Clone, Copy)]
pub enum PointerEvent {
    Motion { time: u32, dx: i32, dy: i32 },
    Button { time: u32, button: u32, state: u32 },
    Axis { time: u32, axis: u8, value120: i32 },
    AxisDiscrete120 { axis: u8, value: i32 },
}

/// Keyboard events.
#[derive(Debug, PartialEq, Eq, Structural, Clone, Copy)]
pub enum KeyboardEvent {
    Key { time: u32, key: u32, state: u8 },
    Modifiers { depressed: u32, latched: u32, locked: u32, group: u32 },
}

/// An input event.
#[derive(Debug, PartialEq, Eq, Structural, Clone, Copy)]
pub enum InputEvent {
    Pointer(PointerEvent),
    Keyboard(KeyboardEvent),
}

/// One event as it stands on the wire.
#[allow(inconsistent_fields)]
#[derive(Debug, PartialEq, Eq, Structural, Clone, Copy)]
pub enum WireEvent {
    CompactMotion { dx: i8, dy: i8 },
    ExtendedMotion { dx: i16, dy: i16 },
    Button { code: u16, state: u8 },
    Key { code: u16, state: u8 },
    Wheel { axis: u8, ticks: i8 },
}

/// First byte of an event: tag in bits 7..6, subtype in bits 5..0.
pub open spec fn event_head(tag: u8, subtype: u8) -> u8 {
    (tag << 6u8) | (subtype & SUBTYPE_MASK)
}

/// Little-endian bytes of a `u16`.
pub open spec fn le_u16(v: u16) -> Seq<u8> {
    seq![v as u8, (v >> 8u16) as u8]
}

/// The bytes of one wire event.
pub open spec fn wire_bytes(w: WireEvent) -> Seq<u8> {
    match w {
        WireEvent::CompactMotion { dx, dy } => seq![
            event_head(TAG_COMPACT_MOTION, 0),
            dx as u8,
            dy as u8,
        ],
        WireEvent::ExtendedMotion { dx, dy } => seq![event_head(TAG_EXTENDED_MOTION, 0)] + le_u16(
            dx as u16,
        ) + le_u16(dy as u16),
        WireEvent::Button { code, state } => seq![event_head(TAG_BUTTON, 0)] + le_u16(code)
            + seq![state],
        WireEvent::Key { code, state } => seq![event_head(TAG_KEY, 1)] + le_u16(code) + seq![
            state,
        ],
        WireEvent::Wheel { axis, ticks } => seq![event_head(TAG_WHEEL, 0), axis, ticks as u8],
    }
}

/// The bytes of a sequence of wire events, in order.
pub open spec fn encode_all(ws: Seq<WireEvent>) -> Seq<u8>
    decreases ws.len(),
{
    if ws.len() == 0 {
        Seq::empty()
    } else {
        encode_all(ws.drop_last()) + wire_bytes(ws.last())
    }
}

/// The complete datagram for the events `ws` and sequence number `seq`.
pub open spec fn datagram_bytes(seq: u16, ws: Seq<WireEvent>) -> Seq<u8> {
    seq![MAGIC, ws.len() as u8] + le_u16(seq) + encode_all(ws)
}

/// The event that a decoder delivers for a wire event (time is not on the
/// wire and comes back as 0; wheel ticks come back in 1/120 units).
pub open spec fn wire_to_event(w: WireEvent) -> InputEvent {
    match w {
        WireEvent::CompactMotion { dx, dy } => InputEvent::Pointer(
            PointerEvent::Motion { time: 0, dx: dx as i32, dy: dy as i32 },
        ),
        WireEvent::ExtendedMotion { dx, dy } => InputEvent::Pointer(
            PointerEvent::Motion { time: 0, dx: dx as i32, dy: dy as i32 },
        ),
        WireEvent::Button { code, state } => InputEvent::Pointer(
            PointerEvent::Button { time: 0, button: code as u32, state: state as u32 },
        ),
        WireEvent::Key { code, state } => InputEvent::Keyboard(
            KeyboardEvent::Key { time: 0, key: code as u32, state },
        ),
        WireEvent::Wheel { axis, ticks } => InputEvent::Pointer(
            PointerEvent::AxisDiscrete120 { axis, value: (ticks * 120) as i32 },
        ),
    }
}

pub open spec fn fits_i8(x: int) -> bool {
    i8::MIN <= x <= i8::MAX
}

pub open spec fn fits_i16(x: int) -> bool {
    i16::MIN <= x <= i16::MAX
}

/// `x` clamped to the range of `i16`.
pub open spec fn clamp_i16(x: int) -> int {
    if x < i16::MIN {
        i16::MIN as int
    } else if x > i16::MAX {
        i16::MAX as int
    } else {
        x
    }
}

/// Abstract state of a [`BatchEncoder`]: the events already encoded, and
/// the coalesced motion that is still pending in the accumulator.
#[verifier::ext_equal]
pub struct EncoderView {
    pub events: Seq<WireEvent>,
    pub acc_dx: int,
    pub acc_dy: int,
    pub has_motion: bool,
}

/// Appending one wire event: refused once the batch holds 64 events.
pub open spec fn spec_write(v: EncoderView, w: WireEvent) -> (EncoderView, Result<(), BatchError>) {
    if v.events.len() >= MAX_BATCH_EVENTS {
        (v, Err(BatchError::BufferFull))
    } else {
        (EncoderView { events: v.events.push(w), ..v }, Ok(()))
    }
}

/// Flushing the motion accumulator: at most one motion event is written.
/// A sum that fits `i8` is written compact, one that fits `i16` extended;
/// otherwise the clamped value is written extended and the remainder stays
/// pending.
pub open spec fn spec_flush(v: EncoderView) -> (EncoderView, Result<(), BatchError>) {
    if !v.has_motion {
        (v, Ok(()))
    } else {
        let (dx, dy) = (v.acc_dx, v.acc_dy);
        if fits_i8(dx) && fits_i8(dy) {
            let (v1, r) = spec_write(v, WireEvent::CompactMotion { dx: dx as i8, dy: dy as i8 });
            if r is Ok {
                (EncoderView { acc_dx: 0, acc_dy: 0, has_motion: false, ..v1 }, Ok(()))
            } else {
                (v1, r)
            }
        } else if fits_i16(dx) && fits_i16(dy) {
            let (v1, r) = spec_write(
                v,
                WireEvent::ExtendedMotion { dx: dx as i16, dy: dy as i16 },
            );
            if r is Ok {
                (EncoderView { acc_dx: 0, acc_dy: 0, has_motion: false, ..v1 }, Ok(()))
            } else {
                (v1, r)
            }
        } else {
            let (cx, cy) = (clamp_i16(dx), clamp_i16(dy));
            let (v1, r) = spec_write(
                v,
                WireEvent::ExtendedMotion { dx: cx as i16, dy: cy as i16 },
            );
            if r is Ok {
                (EncoderView { acc_dx: dx - cx, acc_dy: dy - cy, ..v1 }, Ok(()))
            } else {
                (v1, r)
            }
        }
    }
}

/// The wire event for a non-motion, batchable event, or the error that
/// refuses it.
pub open spec fn wire_for(e: InputEvent) -> Result<WireEvent, BatchError> {
    match e {
        InputEvent::Pointer(PointerEvent::Button { button, state, .. }) => Ok(
            WireEvent::Button { code: button as u16, state: state as u8 },
        ),
        InputEvent::Pointer(PointerEvent::Axis { axis, value120, .. }) => if fits_i8(
            value120 as int,
        ) {
            Ok(WireEvent::Wheel { axis, ticks: value120 as i8 })
        } else {
            Err(BatchError::WheelOverflow)
        },
        InputEvent::Pointer(PointerEvent::AxisDiscrete120 { axis, value }) => if value % 120 == 0
            && fits_i8(value / 120) {
            Ok(WireEvent::Wheel { axis, ticks: (value / 120) as i8 })
        } else {
            Err(BatchError::WheelOverflow)
        },
        InputEvent::Keyboard(KeyboardEvent::Key { key, state, .. }) => Ok(
            WireEvent::Key { code: key as u16, state },
        ),
        _ => Err(BatchError::NonBatchable),
    }
}

/// Pushing one event: motion is added to the accumulator; modifiers are
/// refused; any other event first flushes pending motion, then is appended.
pub open spec fn spec_push(v: EncoderView, e: InputEvent) -> (EncoderView, Result<(), BatchError>) {
    match e {
        InputEvent::Pointer(PointerEvent::Motion { dx, dy, .. }) => (
            EncoderView { acc_dx: v.acc_dx + dx, acc_dy: v.acc_dy + dy, has_motion: true, ..v },
            Ok(()),
        ),
        InputEvent::Keyboard(KeyboardEvent::Modifiers { .. }) => (v, Err(BatchError::NonBatchable)),
        _ => {
            let (v1, r1) = spec_flush(v);
            if r1 is Err {
                (v1, r1)
            } else {
                match wire_for(e) {
                    Ok(w) => spec_write(v1, w),
                    Err(err) => (v1, Err(err)),
                }
            }
        },
    }
}

/// Motion pushed onto `v` keeps the accumulator within `i32`.
pub open spec fn motion_fits(v: EncoderView, e: InputEvent) -> bool {
    match e {
        InputEvent::Pointer(PointerEvent::Motion { dx, dy, .. }) => i32::MIN <= v.acc_dx + dx
            <= i32::MAX && i32::MIN <= v.acc_dy + dy <= i32::MAX,
        _ => true,
    }
}

/// Size of the pending motion; every flush that leaves motion pending
/// makes it smaller.
pub open spec fn pending_size(v: EncoderView) -> nat {
    (if v.acc_dx < 0 {
        -v.acc_dx
    } else {
        v.acc_dx
    } + if v.acc_dy < 0 {
        -v.acc_dy
    } else {
        v.acc_dy
    }) as nat
}

/// Flushing until no motion is pending: a clamped remainder is written as
/// further motion events; stops at the first flush that does not fit.
pub open spec fn spec_flush_all(v: EncoderView) -> (EncoderView, Result<(), BatchError>)
    decreases pending_size(v),
{
    if !v.has_motion {
        (v, Ok(()))
    } else {
        let (v1, r) = spec_flush(v);
        if r is Err || !v1.has_motion {
            (v1, r)
        } else {
            spec_flush_all(v1)
        }
    }
}

/// Displacement carried by a wire event.
pub open spec fn wire_motion(w: WireEvent) -> (int, int) {
    match w {
        WireEvent::CompactMotion { dx, dy } => (dx as int, dy as int),
        WireEvent::ExtendedMotion { dx, dy } => (dx as int, dy as int),
        _ => (0, 0),
    }
}

/// Total displacement carried by a sequence of wire events.
pub open spec fn wire_motion_total(ws: Seq<WireEvent>) -> (int, int)
    decreases ws.len(),
{
    if ws.len() == 0 {
        (0, 0)
    } else {
        let (x, y) = wire_motion_total(ws.drop_last());
        let (dx, dy) = wire_motion(ws.last());
        (x + dx, y + dy)
    }
}

/// Displacement held by an encoder: written events plus the accumulator.
pub open spec fn encoder_motion(v: EncoderView) -> (int, int) {
    let (x, y) = wire_motion_total(v.events);
    (x + v.acc_dx, y + v.acc_dy)
}

/// A flush that leaves motion pending makes it smaller.
pub proof fn lemma_flush_shrinks(v: EncoderView)
    requires
        v.has_motion,
        spec_flush(v).1 is Ok,
        spec_flush(v).0.has_motion,
    ensures
        pending_size(spec_flush(v).0) < pending_size(v),
{
}

/// Finishing: flush all pending motion, then return the datagram, or
/// `BufferFull` when the motion does not fit or there is nothing to send.
pub open spec fn spec_finish(v: EncoderView, seq: u16) -> (EncoderView, Result<Seq<u8>, BatchError>) {
    let (v1, r1) = spec_flush_all(v);
    if r1 is Err {
        (v1, Err(BatchError::BufferFull))
    } else if v1.events.len() == 0 {
        (v1, Err(BatchError::BufferFull))
    } else {
        (v1, Ok(datagram_bytes(seq, v1.events)))
    }
}

/// What every encoder state satisfies: at most 64 events written, and an
/// empty accumulator when no motion is pending.
pub open spec fn encoder_bounds(v: EncoderView) -> bool {
    &&& v.events.len() <= MAX_BATCH_EVENTS
    &&& !v.has_motion ==> v.acc_dx == 0 && v.acc_dy == 0
}

/// The empty encoder state.
pub open spec fn empty_view() -> EncoderView {
    EncoderView { events: Seq::empty(), acc_dx: 0, acc_dy: 0, has_motion: false }
}

// ---------------------------------------------------------------- decoding

/// `seq.wrapping_sub(last)` as a mathematical integer.
pub open spec fn seq_distance(seq: u16, last: u16) -> int {
    if seq >= last {
        seq - last
    } else {
        seq - last + 0x1_0000
    }
}

/// Staleness check: accepted iff the wrapping distance is in `1..=0x7FFF`,
/// or unconditionally when `last == u16::MAX` (first datagram).
pub open spec fn seq_accepted(seq: u16, last: u16) -> bool {
    last == u16::MAX || (1 <= seq_distance(seq, last) <= 0x7FFF)
}

/// `u16` from two little-endian bytes.
pub open spec fn u16_le(b0: u8, b1: u8) -> u16 {
    (b0 as u16) | ((b1 as u16) << 8u16)
}

/// Parse one wire event starting at `off`; gives the event and the offset
/// just past it.
pub open spec fn parse_wire_event(b: Seq<u8>, off: int) -> Result<(WireEvent, int), BatchError> {
    if off + 1 > b.len() {
        Err(BatchError::TruncatedDatagram)
    } else {
        let head = b[off];
        let tag = head >> 6u8;
        let subtype = head & SUBTYPE_MASK;
        let p = off + 1;
        if tag == TAG_COMPACT_MOTION && subtype == 0 {
            if p + 2 > b.len() {
                Err(BatchError::TruncatedDatagram)
            } else {
                Ok((WireEvent::CompactMotion { dx: b[p] as i8, dy: b[p + 1] as i8 }, p + 2))
            }
        } else if tag == TAG_EXTENDED_MOTION && subtype == 0 {
            if p + 4 > b.len() {
                Err(BatchError::TruncatedDatagram)
            } else {
                Ok(
                    (
                        WireEvent::ExtendedMotion {
                            dx: u16_le(b[p], b[p + 1]) as i16,
                            dy: u16_le(b[p + 2], b[p + 3]) as i16,
                        },
                        p + 4,
                    ),
                )
            }
        } else if tag == TAG_BUTTON && subtype == 0 {
            if p + 3 > b.len() {
                Err(BatchError::TruncatedDatagram)
            } else {
                Ok((WireEvent::Button { code: u16_le(b[p], b[p + 1]), state: b[p + 2] }, p + 3))
            }
        } else if tag == TAG_KEY && subtype == 1 {
            if p + 3 > b.len() {
                Err(BatchError::TruncatedDatagram)
            } else {
                Ok((WireEvent::Key { code: u16_le(b[p], b[p + 1]), state: b[p + 2] }, p + 3))
            }
        } else if tag == TAG_WHEEL && subtype == 0 {
            if p + 2 > b.len() {
                Err(BatchError::TruncatedDatagram)
            } else {
                Ok((WireEvent::Wheel { axis: b[p], ticks: b[p + 1] as i8 }, p + 2))
            }
        } else {
            Err(BatchError::BadSubtype)
        }
    }
}

/// Parse `n` consecutive wire events starting at offset 4; gives the
/// events and the offset just past the last one.
pub open spec fn parse_events(b: Seq<u8>, n: nat) -> Result<(Seq<WireEvent>, int), BatchError>
    decreases n,
{
    if n == 0 {
        Ok((Seq::empty(), 4))
    } else {
        match parse_events(b, (n - 1) as nat) {
            Ok((ws, off)) => match parse_wire_event(b, off) {
                Ok((w, next)) => Ok((ws.push(w), next)),
                Err(e) => Err(e),
            },
            Err(e) => Err(e),
        }
    }
}

/// What decoding `b` with previous sequence number `last` gives: the
/// events and the datagram's sequence number, or the first error met.
/// Bytes after the announced events are ignored.
pub open spec fn spec_decode(b: Seq<u8>, last: u16) -> Result<(Seq<InputEvent>, u16), BatchError> {
    if b.len() < 4 {
        Err(BatchError::TruncatedDatagram)
    } else if b[0] != MAGIC {
        Err(BatchError::BadMagic)
    } else if b[1] == 0 || b[1] > MAX_BATCH_EVENTS {
        Err(BatchError::BadSubtype)
    } else {
        let seq = u16_le(b[2], b[3]);
        if !seq_accepted(seq, last) {
            Err(BatchError::StaleSeq)
        } else {
            match parse_events(b, b[1] as nat) {
                Ok((ws, _)) => Ok((ws.map_values(|w: WireEvent| wire_to_event(w)), seq)),
                Err(e) => Err(e),
            }
        }
    }
}

/// The abstract value of a decoder result.
pub open spec fn decode_result_view(r: Result<(Vec<InputEvent>, u16), BatchError>) -> Result<
    (Seq<InputEvent>, u16),
    BatchError,
> {
    match r {
        Ok((evs, seq)) => Ok((evs@, seq)),
        Err(e) => Err(e),
    }
}


// ---------------------------------------------------------------- encoder

/// Accumulates events into a batched datagram held in a fixed buffer.
///
/// Motion events are coalesced into an `i32` accumulator and written on
/// flush: a non-motion event writes one motion event (clamped to `i16`, the
/// remainder staying pending), `finish` writes all of it.
pub struct BatchEncoder {
    buffer: [u8; MAX_DATAGRAM_SIZE],
    /// write position; starts at 4, after the header
    pos: usize,
    event_count: u8,
    acc_dx: i32,
    acc_dy: i32,
    has_motion: bool,
    events: Ghost<Seq<WireEvent>>,
}

impl View for BatchEncoder {
    type V = EncoderView;

    closed spec fn view(&self) -> EncoderView {
        EncoderView {
            events: self.events@,
            acc_dx: self.acc_dx as int,
            acc_dy: self.acc_dy as int,
            has_motion: self.has_motion,
        }
    }
}

/// Every wire event takes 3 or 5 bytes.
pub proof fn lemma_wire_bytes_len(w: WireEvent)
    ensures
        3 <= wire_bytes(w).len() <= 5,
{
}

/// The encoding of `n` events takes at most `5 * n` bytes.
pub proof fn lemma_encode_all_len(ws: Seq<WireEvent>)
    ensures
        encode_all(ws).len() <= 5 * ws.len(),
    decreases ws.len(),
{
    if ws.len() > 0 {
        lemma_encode_all_len(ws.drop_last());
        lemma_wire_bytes_len(ws.last());
    }
}

impl BatchEncoder {
    /// Well-formed encoders keep to the bounds of every encoder state.
    pub proof fn lemma_bounds(&self)
        requires
            self.wf(),
        ensures
            encoder_bounds(self@),
    {
    }

    /// Well-formedness: the buffer holds the encoding of the events after
    /// the header, and an empty accumulator is zero.
    pub closed spec fn wf(&self) -> bool {
        &&& self.event_count as int == self.events@.len()
        &&& self.events@.len() <= MAX_BATCH_EVENTS
        &&& self.pos as int == 4 + encode_all(self.events@).len()
        &&& self.pos <= MAX_DATAGRAM_SIZE
        &&& self.buffer@.subrange(4, self.pos as int) == encode_all(self.events@)
        &&& !self.has_motion ==> self.acc_dx == 0 && self.acc_dy == 0
    }

    /// An empty encoder.
    pub fn new() -> (enc: Self)
        ensures
            enc.wf(),
            enc@ == empty_view(),
    {
        let enc = BatchEncoder {
            buffer: [0u8; MAX_DATAGRAM_SIZE],
            pos: 4,
            event_count: 0,
            acc_dx: 0,
            acc_dy: 0,
            has_motion: false,
            events: Ghost(Seq::empty()),
        };
        assert(enc.buffer@.subrange(4, 4) =~= Seq::<u8>::empty());
        enc
    }

    /// Number of events already encoded (pending motion not counted).
    pub fn event_count(&self) -> (n: usize)
        requires
            self.wf(),
        ensures
            n == self@.events.len(),
    {
        self.event_count as usize
    }

    /// True if anything is pending: encoded events or coalesced motion
    /// still in the accumulator.
    pub fn has_pending(&self) -> (b: bool)
        requires
            self.wf(),
        ensures
            b == (self@.events.len() > 0 || self@.has_motion),
    {
        self.event_count > 0 || self.has_motion
    }

    /// Drop all buffered events and pending motion.
    pub fn reset(&mut self)
        requires
            old(self).wf(),
        ensures
            final(self).wf(),
            final(self)@ == empty_view(),
    {
        self.pos = 4;
        self.event_count = 0;
        self.acc_dx = 0;
        self.acc_dy = 0;
        self.has_motion = false;
        self.events = Ghost(Seq::empty());
        assert(self.buffer@.subrange(4, 4) =~= Seq::<u8>::empty());
    }

    /// Append one event given as its head (tag and subtype) and payload.
    fn write_event(&mut self, tag: u8, subtype: u8, payload: &[u8], Ghost(w): Ghost<WireEvent>) -> (r:
        Result<(), BatchError>)
        requires
            old(self).wf(),
            tag < 4,
            wire_bytes(w) == seq![event_head(tag, subtype)] + payload@,
        ensures
            final(self).wf(),
            (final(self)@, r) == spec_write(old(self)@, w),
    {
        if self.event_count >= MAX_BATCH_EVENTS as u8 {
            return Err(BatchError::BufferFull);
        }
        proof {
            lemma_encode_all_len(self.events@);
            lemma_wire_bytes_len(w);
        }
        let total_len: usize = 1 + payload.len();
        if self.pos + total_len > MAX_DATAGRAM_SIZE {
            return Err(BatchError::BufferFull);
        }
        let ghost old_buf = self.buffer@;
        let ghost start = self.pos as int;
        self.buffer[self.pos] = (tag << 6) | (subtype & SUBTYPE_MASK);
        self.pos = self.pos + 1;
        let mut i: usize = 0;
        while i < payload.len()
            invariant
                0 <= i <= payload@.len(),
                4 <= start,
                old_buf.len() == MAX_DATAGRAM_SIZE,
                self.event_count < MAX_BATCH_EVENTS,
                self.event_count as int == self.events@.len(),
                self.events@ == old(self).events@,
                start == 4 + encode_all(self.events@).len(),
                old_buf.subrange(4, start) == encode_all(self.events@),
                self.has_motion == old(self).has_motion,
                self.acc_dx == old(self).acc_dx,
                self.acc_dy == old(self).acc_dy,
                self.pos == start + 1 + i,
                start + 1 + payload@.len() <= MAX_DATAGRAM_SIZE,
                self.buffer@.len() == MAX_DATAGRAM_SIZE,
                self.buffer@.subrange(0, start) == old_buf.subrange(0, start),
                self.buffer@[start] == event_head(tag, subtype),
                self.buffer@.subrange(start + 1, start + 1 + i) == payload@.subrange(0, i as int),
            decreases payload@.len() - i,
        {
            self.buffer[self.pos] = payload[i];
            self.pos = self.pos + 1;
            i = i + 1;
            assert(self.buffer@.subrange(start + 1, start + 1 + i) =~= payload@.subrange(0, i as int));
            assert(self.buffer@.subrange(0, start) =~= old_buf.subrange(0, start));
        }
        self.event_count = self.event_count + 1;
        let ghost old_events = self.events@;
        self.events = Ghost(old_events.push(w));
        proof {
            assert(self.events@.drop_last() =~= old_events);
            assert(self.buffer@.subrange(4, start) =~= self.buffer@.subrange(0, start).subrange(4, start));
            assert(payload@.subrange(0, payload@.len() as int) =~= payload@);
            assert(self.buffer@.subrange(4, self.pos as int) =~= self.buffer@.subrange(4, start)
                + seq![self.buffer@[start]] + self.buffer@.subrange(start + 1, self.pos as int));
            assert(self.buffer@.subrange(4, self.pos as int) =~= old_buf.subrange(4, start)
                + wire_bytes(w));
        }
        Ok(())
    }

    /// Push an input event into the batch.
    ///
    /// - Motion events are accumulated (coalesced).
    /// - Non-motion events flush accumulated motion first, then are appended.
    /// - Keyboard modifiers give `NonBatchable`, so that the caller falls
    ///   back to the single-event path.
    pub fn push_event(&mut self, event: InputEvent) -> (r: Result<(), BatchError>)
        requires
            old(self).wf(),
            motion_fits(old(self)@, event),
        ensures
            final(self).wf(),
            encoder_bounds(final(self)@),
            (final(self)@, r) == spec_push(old(self)@, event),
    {
        match event {
            InputEvent::Pointer(PointerEvent::Motion { dx, dy, .. }) => {
                self.acc_dx = self.acc_dx + dx;
                self.acc_dy = self.acc_dy + dy;
                self.has_motion = true;
                Ok(())
            },
            InputEvent::Pointer(PointerEvent::Button { button, state, .. }) => {
                self.flush_motion()?;
                // the event's state is a u32; the wire carries one byte
                let code: u16 = button as u16;
                let st: u8 = state as u8;
                let payload: [u8; 3] = [code as u8, (code >> 8) as u8, st];
                let ghost w = WireEvent::Button { code, state: st };
                assert(wire_bytes(w) =~= seq![event_head(TAG_BUTTON, 0)] + payload@);
                self.write_event(TAG_BUTTON, 0, &payload, Ghost(w))
            },
            InputEvent::Pointer(PointerEvent::Axis { axis, value120, .. }) => {
                self.flush_motion()?;
                if value120 < i8::MIN as i32 || value120 > i8::MAX as i32 {
                    return Err(BatchError::WheelOverflow);
                }
                let ticks: i8 = value120 as i8;
                let payload: [u8; 2] = [axis, ticks as u8];
                let ghost w = WireEvent::Wheel { axis, ticks };
                assert(wire_bytes(w) =~= seq![event_head(TAG_WHEEL, 0)] + payload@);
                self.write_event(TAG_WHEEL, 0, &payload, Ghost(w))
            },
            InputEvent::Pointer(PointerEvent::AxisDiscrete120 { axis, value }) => {
                self.flush_motion()?;
                // the value is in 120ths; a remainder cannot be sent as ticks
                let ticks: i32 = value / 120;
                if value % 120 != 0 {
                    return Err(BatchError::WheelOverflow);
                }
                if ticks < i8::MIN as i32 || ticks > i8::MAX as i32 {
                    return Err(BatchError::WheelOverflow);
                }
                let t: i8 = ticks as i8;
                let payload: [u8; 2] = [axis, t as u8];
                let ghost w = WireEvent::Wheel { axis, ticks: t };
                assert(wire_bytes(w) =~= seq![event_head(TAG_WHEEL, 0)] + payload@);
                self.write_event(TAG_WHEEL, 0, &payload, Ghost(w))
            },
            InputEvent::Keyboard(KeyboardEvent::Key { key, state, .. }) => {
                self.flush_motion()?;
                let code: u16 = key as u16;
                let payload: [u8; 3] = [code as u8, (code >> 8) as u8, state];
                let ghost w = WireEvent::Key { code, state };
                assert(wire_bytes(w) =~= seq![event_head(TAG_KEY, 1)] + payload@);
                self.write_event(TAG_KEY, 1, &payload, Ghost(w))
            },
            InputEvent::Keyboard(KeyboardEvent::Modifiers { .. }) => Err(BatchError::NonBatchable),
        }
    }

    /// Finalize the batch: flush all remaining motion (a sum beyond `i16`
    /// goes out as several clamped extended events), write the header and
    /// return the datagram.  Gives `BufferFull` when the motion does not fit
    /// or when there is nothing to encode.
    pub fn finish(&mut self, seq: u16) -> (r: Result<&[u8], BatchError>)
        requires
            old(self).wf(),
        ensures
            final(self).wf(),
            encoder_bounds(final(self)@),
            final(self)@ == spec_finish(old(self)@, seq).0,
            match spec_finish(old(self)@, seq).1 {
                Ok(bytes) => r matches Ok(out) && out@ == bytes,
                Err(e) => r == Err::<&[u8], BatchError>(e),
            },
            r matches Ok(out) ==> out@.len() <= MAX_DATAGRAM_SIZE,
            r is Ok ==> !final(self)@.has_motion && wire_motion_total(final(self)@.events)
                == encoder_motion(old(self)@),
    {
        let ghost v0 = self@;
        proof {
            crate::batch_laws::lemma_finish_conserves_motion(v0, seq);
            self.lemma_bounds();
        }
        // flush until no motion is pending: a clamped remainder becomes
        // further motion events
        while self.has_motion
            invariant
                self.wf(),
                v0 == old(self)@,
                spec_flush_all(self@) == spec_flush_all(v0),
            decreases pending_size(self@) + if self.has_motion {
                1int
            } else {
                0int
            },
        {
            let ghost prev = self@;
            match self.flush_motion() {
                Ok(()) => {},
                Err(e) => {
                    assert(spec_flush_all(prev) == spec_flush(prev));
                    return Err(e);
                },
            }
            proof {
                if self.has_motion {
                    lemma_flush_shrinks(prev);
                }
            }
        }
        if self.event_count == 0 {
            // nothing to encode
            return Err(BatchError::BufferFull);
        }
        let ghost body = self.buffer@.subrange(4, self.pos as int);
        // header: magic, event count, seq (little endian)
        self.buffer[0] = MAGIC;
        self.buffer[1] = self.event_count;
        self.buffer[2] = seq as u8;
        self.buffer[3] = (seq >> 8) as u8;
        proof {
            assert(self.buffer@.subrange(4, self.pos as int) =~= body);
            assert(self.buffer@.subrange(0, self.pos as int) =~= datagram_bytes(seq, self.events@));
        }
        Ok(&self.buffer[0..self.pos])
    }

    /// Flush accumulated motion into the buffer (at most one event).
    fn flush_motion(&mut self) -> (r: Result<(), BatchError>)
        requires
            old(self).wf(),
        ensures
            final(self).wf(),
            (final(self)@, r) == spec_flush(old(self)@),
    {
        if !self.has_motion {
            return Ok(());
        }
        let dx: i32 = self.acc_dx;
        let dy: i32 = self.acc_dy;
        if dx >= i8::MIN as i32 && dx <= i8::MAX as i32 && dy >= i8::MIN as i32 && dy
            <= i8::MAX as i32 {
            // compact: fits i8
            let (bx, by): (i8, i8) = (dx as i8, dy as i8);
            let payload: [u8; 2] = [bx as u8, by as u8];
            assert(wire_bytes(WireEvent::CompactMotion { dx: bx, dy: by }) =~= seq![
                event_head(TAG_COMPACT_MOTION, 0),
            ] + payload@);
            self.write_event(
                TAG_COMPACT_MOTION,
                0,
                &payload,
                Ghost(WireEvent::CompactMotion { dx: bx, dy: by }),
            )?;
        } else if dx >= i16::MIN as i32 && dx <= i16::MAX as i32 && dy >= i16::MIN as i32 && dy
            <= i16::MAX as i32 {
            // extended: fits i16; narrowed before encoding
            let (wx, wy): (i16, i16) = (dx as i16, dy as i16);
            let payload: [u8; 4] = le_pair(wx, wy);
            assert(wire_bytes(WireEvent::ExtendedMotion { dx: wx, dy: wy }) =~= seq![
                event_head(TAG_EXTENDED_MOTION, 0),
            ] + payload@);
            self.write_event(
                TAG_EXTENDED_MOTION,
                0,
                &payload,
                Ghost(WireEvent::ExtendedMotion { dx: wx, dy: wy }),
            )?;
        } else {
            // does not fit i16: clamp, write extended, carry the remainder
            let cx: i32 = clamp_to_i16(dx);
            let cy: i32 = clamp_to_i16(dy);
            let (wx, wy): (i16, i16) = (cx as i16, cy as i16);
            let payload: [u8; 4] = le_pair(wx, wy);
            assert(wire_bytes(WireEvent::ExtendedMotion { dx: wx, dy: wy }) =~= seq![
                event_head(TAG_EXTENDED_MOTION, 0),
            ] + payload@);
            self.write_event(
                TAG_EXTENDED_MOTION,
                0,
                &payload,
                Ghost(WireEvent::ExtendedMotion { dx: wx, dy: wy }),
            )?;
            // the remainder stays pending and is flushed by the next call
            self.acc_dx = dx - cx;
            self.acc_dy = dy - cy;
            return Ok(());
        }
        self.acc_dx = 0;
        self.acc_dy = 0;
        self.has_motion = false;
        Ok(())
    }
}

impl Default for BatchEncoder {
    fn default() -> (enc: Self)
        ensures
            enc.wf(),
            enc@ == empty_view(),
    {
        Self::new()
    }
}

/// Once parsing fails at some event, parsing more events fails with the
/// same error.
pub proof fn lemma_parse_events_error_persists(b: Seq<u8>, i: nat, n: nat)
    requires
        i <= n,
        parse_events(b, i) is Err,
    ensures
        parse_events(b, n) == parse_events(b, i),
    decreases n,
{
    if n > i {
        lemma_parse_events_error_persists(b, i, (n - 1) as nat);
    }
}

/// Decode a batched datagram into events and its sequence number.
///
/// # Sequence staleness
/// Accepts iff `seq.wrapping_sub(last_seq)` is in `1..=0x7FFF`.  For the
/// first datagram, pass `last_seq = u16::MAX` to accept unconditionally.
pub fn decode_batch(datagram: &[u8], last_seq: u16) -> (r: Result<(Vec<InputEvent>, u16), BatchError>)
    ensures
        decode_result_view(r) == spec_decode(datagram@, last_seq),
{
    if datagram.len() < 4 {
        return Err(BatchError::TruncatedDatagram);
    }
    if datagram[0] != MAGIC {
        return Err(BatchError::BadMagic);
    }
    let event_count: u8 = datagram[1];
    if event_count == 0 || event_count > MAX_BATCH_EVENTS as u8 {
        // an invalid count is reported as a bad subtype
        return Err(BatchError::BadSubtype);
    }
    let seq: u16 = (datagram[2] as u16) | ((datagram[3] as u16) << 8);
    // sequence staleness check
    if last_seq != u16::MAX {
        let diff: u16 = seq.wrapping_sub(last_seq);
        if diff == 0 || diff > 0x7FFF {
            return Err(BatchError::StaleSeq);
        }
    }
    let ghost b = datagram@;
    let mut events: Vec<InputEvent> = Vec::new();
    let mut offset: usize = 4;
    let ghost mut ws: Seq<WireEvent> = Seq::empty();
    let mut k: u8 = 0;
    while k < event_count
        invariant
            b == datagram@,
            b.len() >= 4,
            b[0] == MAGIC,
            1 <= b[1] <= MAX_BATCH_EVENTS,
            seq == u16_le(b[2], b[3]),
            seq_accepted(seq, last_seq),
            k <= event_count,
            event_count as int == b[1] as int,
            4 <= offset <= b.len(),
            parse_events(b, k as nat) == Ok::<(Seq<WireEvent>, int), BatchError>((ws, offset as int)),
            events@ == ws.map_values(|w: WireEvent| wire_to_event(w)),
        ensures
            k == event_count,
            parse_events(b, event_count as nat) == Ok::<(Seq<WireEvent>, int), BatchError>((ws, offset as int)),
            events@ == ws.map_values(|w: WireEvent| wire_to_event(w)),
        decreases event_count - k,
    {
        let ghost prev = ws;
        if datagram.len() - offset < 1 {
            proof { lemma_parse_events_error_persists(b, (k + 1) as nat, event_count as nat); }
            return Err(BatchError::TruncatedDatagram);
        }
        let byte0: u8 = datagram[offset];
        offset = offset + 1;
        let tag: u8 = byte0 >> 6;
        let subtype: u8 = byte0 & SUBTYPE_MASK;
        let ghost w: WireEvent;
        if tag == TAG_COMPACT_MOTION && subtype == 0 {
            if datagram.len() - offset < 2 {
                proof { lemma_parse_events_error_persists(b, (k + 1) as nat, event_count as nat); }
                return Err(BatchError::TruncatedDatagram);
            }
            let dx: i8 = datagram[offset] as i8;
            let dy: i8 = datagram[offset + 1] as i8;
            offset = offset + 2;
            proof { w = WireEvent::CompactMotion { dx, dy }; }
            events.push(InputEvent::Pointer(PointerEvent::Motion { time: 0, dx: dx as i32, dy: dy as i32 }));
        } else if tag == TAG_EXTENDED_MOTION && subtype == 0 {
            if datagram.len() - offset < 4 {
                proof { lemma_parse_events_error_persists(b, (k + 1) as nat, event_count as nat); }
                return Err(BatchError::TruncatedDatagram);
            }
            let dx: i16 = ((datagram[offset] as u16) | ((datagram[offset + 1] as u16) << 8)) as i16;
            let dy: i16 = ((datagram[offset + 2] as u16) | ((datagram[offset + 3] as u16) << 8)) as i16;
            offset = offset + 4;
            proof { w = WireEvent::ExtendedMotion { dx, dy }; }
            events.push(InputEvent::Pointer(PointerEvent::Motion { time: 0, dx: dx as i32, dy: dy as i32 }));
        } else if tag == TAG_BUTTON && subtype == 0 {
            if datagram.len() - offset < 3 {
                proof { lemma_parse_events_error_persists(b, (k + 1) as nat, event_count as nat); }
                return Err(BatchError::TruncatedDatagram);
            }
            let code: u16 = (datagram[offset] as u16) | ((datagram[offset + 1] as u16) << 8);
            let state: u8 = datagram[offset + 2];
            offset = offset + 3;
            proof { w = WireEvent::Button { code, state }; }
            events.push(InputEvent::Pointer(PointerEvent::Button { time: 0, button: code as u32, state: state as u32 }));
        } else if tag == TAG_KEY && subtype == 1 {
            if datagram.len() - offset < 3 {
                proof { lemma_parse_events_error_persists(b, (k + 1) as nat, event_count as nat); }
                return Err(BatchError::TruncatedDatagram);
            }
            let code: u16 = (datagram[offset] as u16) | ((datagram[offset + 1] as u16) << 8);
            let state: u8 = datagram[offset + 2];
            offset = offset + 3;
            proof { w = WireEvent::Key { code, state }; }
            events.push(InputEvent::Keyboard(KeyboardEvent::Key { time: 0, key: code as u32, state }));
        } else if tag == TAG_WHEEL && subtype == 0 {
            if datagram.len() - offset < 2 {
                proof { lemma_parse_events_error_persists(b, (k + 1) as nat, event_count as nat); }
                return Err(BatchError::TruncatedDatagram);
            }
            let axis: u8 = datagram[offset];
            let ticks: i8 = datagram[offset + 1] as i8;
            offset = offset + 2;
            proof { w = WireEvent::Wheel { axis, ticks }; }
            // the wire carries whole ticks; restore 120ths
            events.push(InputEvent::Pointer(PointerEvent::AxisDiscrete120 { axis, value: ticks as i32 * 120 }));
        } else {
            proof { lemma_parse_events_error_persists(b, (k + 1) as nat, event_count as nat); }
            return Err(BatchError::BadSubtype);
        }
        proof {
            ws = prev.push(w);
            assert(events@ =~= ws.map_values(|w: WireEvent| wire_to_event(w)));
        }
        k = k + 1;
    }
    Ok((events, seq))
}

/// `x` clamped to `i16::MIN..=i16::MAX`.
fn clamp_to_i16(x: i32) -> (r: i32)
    ensures
        r == clamp_i16(x as int),
{
    if x < i16::MIN as i32 {
        i16::MIN as i32
    } else if x > i16::MAX as i32 {
        i16::MAX as i32
    } else {
        x
    }
}

/// Little-endian bytes of two `i16` values, one after the other.
fn le_pair(x: i16, y: i16) -> (out: [u8; 4])
    ensures
        out@ == le_u16(x as u16) + le_u16(y as u16),
{
    let ux: u16 = x as u16;
    let uy: u16 = y as u16;
    let out: [u8; 4] = [ux as u8, (ux >> 8) as u8, uy as u8, (uy >> 8) as u8];
    assert(out@ =~= le_u16(x as u16) + le_u16(y as u16));
    out
}

} // verus!
