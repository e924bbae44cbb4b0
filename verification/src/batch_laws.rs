//! Properties of the batched datagram format that span the encoder and the
//! decoder.
use vstd::prelude::*;
use crate::batch::{
    encoder_motion, lemma_flush_shrinks, pending_size, spec_flush_all, wire_motion, wire_motion_total,
    encoder_bounds, lemma_wire_bytes_len,
    clamp_i16, datagram_bytes, empty_view, KeyboardEvent, encode_all, fits_i16, fits_i8, spec_finish, spec_flush, spec_push,
    spec_write, wire_for, EncoderView, PointerEvent, event_head, lemma_encode_all_len, le_u16, parse_events,
    parse_wire_event, seq_accepted, spec_decode, u16_le, wire_bytes, wire_to_event, BatchError,
    InputEvent, WireEvent, MAGIC, MAX_BATCH_EVENTS, MAX_DATAGRAM_SIZE, SUBTYPE_MASK, TAG_BUTTON,
    TAG_COMPACT_MOTION, TAG_EXTENDED_MOTION, TAG_KEY, TAG_WHEEL,
};

verus! {

/// The head byte of each event kind gives back its tag and subtype.
proof fn lemma_event_heads()
    ensures
        event_head(TAG_COMPACT_MOTION, 0) >> 6u8 == TAG_COMPACT_MOTION,
        event_head(TAG_COMPACT_MOTION, 0) & SUBTYPE_MASK == 0,
        event_head(TAG_EXTENDED_MOTION, 0) >> 6u8 == TAG_EXTENDED_MOTION,
        event_head(TAG_EXTENDED_MOTION, 0) & SUBTYPE_MASK == 0,
        event_head(TAG_BUTTON, 0) >> 6u8 == TAG_BUTTON,
        event_head(TAG_BUTTON, 0) & SUBTYPE_MASK == 0,
        event_head(TAG_KEY, 1) >> 6u8 == TAG_KEY,
        event_head(TAG_KEY, 1) & SUBTYPE_MASK == 1,
        event_head(TAG_WHEEL, 0) >> 6u8 == TAG_WHEEL,
        event_head(TAG_WHEEL, 0) & SUBTYPE_MASK == 0,
{
    assert(((0u8 << 6u8) | (0u8 & 0x3fu8)) >> 6u8 == 0u8) by (bit_vector);
    assert(((0u8 << 6u8) | (0u8 & 0x3fu8)) & 0x3fu8 == 0u8) by (bit_vector);
    assert(((1u8 << 6u8) | (0u8 & 0x3fu8)) >> 6u8 == 1u8) by (bit_vector);
    assert(((1u8 << 6u8) | (0u8 & 0x3fu8)) & 0x3fu8 == 0u8) by (bit_vector);
    assert(((2u8 << 6u8) | (0u8 & 0x3fu8)) >> 6u8 == 2u8) by (bit_vector);
    assert(((2u8 << 6u8) | (0u8 & 0x3fu8)) & 0x3fu8 == 0u8) by (bit_vector);
    assert(((2u8 << 6u8) | (1u8 & 0x3fu8)) >> 6u8 == 2u8) by (bit_vector);
    assert(((2u8 << 6u8) | (1u8 & 0x3fu8)) & 0x3fu8 == 1u8) by (bit_vector);
    assert(((3u8 << 6u8) | (0u8 & 0x3fu8)) >> 6u8 == 3u8) by (bit_vector);
    assert(((3u8 << 6u8) | (0u8 & 0x3fu8)) & 0x3fu8 == 0u8) by (bit_vector);
}

/// Byte-level round trips of the integer encodings.
proof fn lemma_int_bytes(x8: i8, v: u16, x16: i16)
    ensures
        (x8 as u8) as i8 == x8,
        u16_le(v as u8, (v >> 8u16) as u8) == v,
        (x16 as u16) as i16 == x16,
{
    assert((x8 as u8) as i8 == x8) by (bit_vector);
    assert(((v as u8) as u16) | ((((v >> 8u16) as u8) as u16) << 8u16) == v) by (bit_vector);
    assert((x16 as u16) as i16 == x16) by (bit_vector);
}

/// A wire event's bytes, found at `off`, parse back to that event.
proof fn lemma_parse_wire_event_at(b: Seq<u8>, off: int, w: WireEvent)
    requires
        0 <= off,
        off + wire_bytes(w).len() <= b.len(),
        b.subrange(off, off + wire_bytes(w).len()) == wire_bytes(w),
    ensures
        parse_wire_event(b, off) == Ok::<(WireEvent, int), BatchError>(
            (w, off + wire_bytes(w).len()),
        ),
{
    let wb = wire_bytes(w);
    lemma_event_heads();
    match w {
        WireEvent::ExtendedMotion { dx, dy } => {
            assert(wb =~= seq![
                event_head(TAG_EXTENDED_MOTION, 0),
                (dx as u16) as u8,
                ((dx as u16) >> 8u16) as u8,
                (dy as u16) as u8,
                ((dy as u16) >> 8u16) as u8,
            ]);
        },
        WireEvent::Button { code, state } => {
            assert(wb =~= seq![event_head(TAG_BUTTON, 0), code as u8, (code >> 8u16) as u8, state]);
        },
        WireEvent::Key { code, state } => {
            assert(wb =~= seq![event_head(TAG_KEY, 1), code as u8, (code >> 8u16) as u8, state]);
        },
        _ => {},
    }
    assert forall|j: int| 0 <= j < wb.len() implies b[off + j] == wb[j] by {
        assert(b.subrange(off, off + wb.len())[j] == b[off + j]);
    }
    match w {
        WireEvent::CompactMotion { dx, dy } => {
            lemma_int_bytes(dx, 0, 0);
            lemma_int_bytes(dy, 0, 0);
            assert(b[off + 1] == dx as u8);
            assert(b[off + 2] == dy as u8);
        },
        WireEvent::ExtendedMotion { dx, dy } => {
            lemma_int_bytes(0, dx as u16, dx);
            lemma_int_bytes(0, dy as u16, dy);
            assert(b[off + 1] == (dx as u16) as u8);
            assert(b[off + 2] == ((dx as u16) >> 8u16) as u8);
            assert(b[off + 3] == (dy as u16) as u8);
            assert(b[off + 4] == ((dy as u16) >> 8u16) as u8);
        },
        WireEvent::Button { code, state } => {
            lemma_int_bytes(0, code, 0);
            assert(b[off + 1] == code as u8);
            assert(b[off + 2] == (code >> 8u16) as u8);
            assert(b[off + 3] == state);
        },
        WireEvent::Key { code, state } => {
            lemma_int_bytes(0, code, 0);
            assert(b[off + 1] == code as u8);
            assert(b[off + 2] == (code >> 8u16) as u8);
            assert(b[off + 3] == state);
        },
        WireEvent::Wheel { axis, ticks } => {
            lemma_int_bytes(ticks, 0, 0);
            assert(b[off + 1] == axis);
            assert(b[off + 2] == ticks as u8);
        },
    }
}

/// The encoding of the first `j` events is a prefix of the encoding of all.
proof fn lemma_encode_prefix(ws: Seq<WireEvent>, j: int)
    requires
        0 <= j <= ws.len(),
    ensures
        encode_all(ws.take(j)).len() <= encode_all(ws).len(),
        encode_all(ws).subrange(0, encode_all(ws.take(j)).len() as int) == encode_all(ws.take(j)),
    decreases ws.len(),
{
    if j == ws.len() {
        assert(ws.take(j) =~= ws);
        assert(encode_all(ws).subrange(0, encode_all(ws).len() as int) =~= encode_all(ws));
    } else {
        let init = ws.drop_last();
        lemma_encode_prefix(init, j);
        assert(init.take(j) =~= ws.take(j));
        let e = encode_all(init);
        let p = encode_all(ws.take(j));
        assert(encode_all(ws) == e + wire_bytes(ws.last()));
        assert((e + wire_bytes(ws.last())).subrange(0, p.len() as int) =~= e.subrange(
            0,
            p.len() as int,
        ));
    }
}

/// Parsing the first `i` events of an encoded datagram gives back those
/// events and the offset just past them.
proof fn lemma_parse_events_prefix(seq: u16, ws: Seq<WireEvent>, i: nat)
    requires
        i <= ws.len(),
    ensures
        parse_events(datagram_bytes(seq, ws), i) == Ok::<(Seq<WireEvent>, int), BatchError>(
            (ws.take(i as int), 4 + encode_all(ws.take(i as int)).len() as int),
        ),
    decreases i,
{
    let d = datagram_bytes(seq, ws);
    let header = seq![MAGIC, ws.len() as u8] + le_u16(seq);
    assert(d == header + encode_all(ws));
    if i == 0 {
        assert(ws.take(0) =~= Seq::<WireEvent>::empty());
    } else {
        let k = (i - 1) as int;
        lemma_parse_events_prefix(seq, ws, (i - 1) as nat);
        let pre = ws.take(k);
        let cur = ws.take(i as int);
        assert(cur.drop_last() =~= pre);
        assert(cur.last() == ws[k]);
        let w = ws[k];
        let off: int = 4 + encode_all(pre).len() as int;
        let pl: int = encode_all(pre).len() as int;
        assert(encode_all(cur) == encode_all(pre) + wire_bytes(w));
        lemma_encode_prefix(ws, i as int);
        let e = encode_all(ws);
        let wl: int = wire_bytes(w).len() as int;
        assert(d.subrange(off, off + wl) =~= e.subrange(pl, pl + wl));
        assert(e.subrange(pl, pl + wl)
            =~= encode_all(cur).subrange(pl, encode_all(cur).len() as int));
        assert(encode_all(cur).subrange(pl, encode_all(cur).len() as int)
            =~= wire_bytes(w));
        lemma_parse_wire_event_at(d, off, w);
        assert(cur =~= pre.push(w));
    }
}

/// Round trip of the wire format: a datagram holding 1..=64 events, with a
/// sequence number accepted after `last`, decodes to exactly those events
/// (as input events) and that sequence number.
pub proof fn lemma_decode_datagram(seq: u16, ws: Seq<WireEvent>, last: u16)
    requires
        1 <= ws.len() <= MAX_BATCH_EVENTS,
        seq_accepted(seq, last),
    ensures
        spec_decode(datagram_bytes(seq, ws), last) == Ok::<(Seq<InputEvent>, u16), BatchError>(
            (ws.map_values(|w: WireEvent| wire_to_event(w)), seq),
        ),
{
    let d = datagram_bytes(seq, ws);
    lemma_int_bytes(0, seq, 0);
    assert(d[0] == MAGIC);
    assert(d[1] == ws.len() as u8);
    assert(d[2] == seq as u8);
    assert(d[3] == (seq >> 8u16) as u8);
    lemma_parse_events_prefix(seq, ws, ws.len());
    assert(ws.take(ws.len() as int) =~= ws);
}

/// Bytes that parse as a wire event are exactly that event's encoding.
proof fn lemma_parsed_wire_event_bytes(b: Seq<u8>, off: int)
    requires
        0 <= off,
        parse_wire_event(b, off) is Ok,
    ensures
        ({
            let (w, next) = parse_wire_event(b, off)->Ok_0;
            &&& next == off + wire_bytes(w).len()
            &&& next <= b.len()
            &&& b.subrange(off, next) == wire_bytes(w)
        }),
{
    let (w, next) = parse_wire_event(b, off)->Ok_0;
    let h = b[off];
    let p = off + 1;
    assert(h == (((h >> 6u8) << 6u8) | (h & 0x3fu8))) by (bit_vector);
    assert(((h >> 6u8) << 6u8) | (h & 0x3fu8) == (((h >> 6u8) << 6u8) | ((h & 0x3fu8) & 0x3fu8)))
        by (bit_vector);
    match w {
        WireEvent::CompactMotion { dx, dy } => {
            let (x, y) = (b[p], b[p + 1]);
            assert((x as i8) as u8 == x) by (bit_vector);
            assert((y as i8) as u8 == y) by (bit_vector);
            assert(b.subrange(off, next) =~= wire_bytes(w));
        },
        WireEvent::ExtendedMotion { dx, dy } => {
            let (x0, x1, y0, y1) = (b[p], b[p + 1], b[p + 2], b[p + 3]);
            assert((((x0 as u16) | ((x1 as u16) << 8u16)) as i16) as u16 == ((x0 as u16) | ((
            x1 as u16) << 8u16))) by (bit_vector);
            assert((((y0 as u16) | ((y1 as u16) << 8u16)) as i16) as u16 == ((y0 as u16) | ((
            y1 as u16) << 8u16))) by (bit_vector);
            assert(((x0 as u16) | ((x1 as u16) << 8u16)) as u8 == x0) by (bit_vector);
            assert((((x0 as u16) | ((x1 as u16) << 8u16)) >> 8u16) as u8 == x1) by (bit_vector);
            assert(((y0 as u16) | ((y1 as u16) << 8u16)) as u8 == y0) by (bit_vector);
            assert((((y0 as u16) | ((y1 as u16) << 8u16)) >> 8u16) as u8 == y1) by (bit_vector);
            assert(b.subrange(off, next) =~= wire_bytes(w));
        },
        WireEvent::Button { code, state } => {
            let (c0, c1) = (b[p], b[p + 1]);
            assert(((c0 as u16) | ((c1 as u16) << 8u16)) as u8 == c0) by (bit_vector);
            assert((((c0 as u16) | ((c1 as u16) << 8u16)) >> 8u16) as u8 == c1) by (bit_vector);
            assert(b.subrange(off, next) =~= wire_bytes(w));
        },
        WireEvent::Key { code, state } => {
            let (c0, c1) = (b[p], b[p + 1]);
            assert(((c0 as u16) | ((c1 as u16) << 8u16)) as u8 == c0) by (bit_vector);
            assert((((c0 as u16) | ((c1 as u16) << 8u16)) >> 8u16) as u8 == c1) by (bit_vector);
            assert(b.subrange(off, next) =~= wire_bytes(w));
        },
        WireEvent::Wheel { axis, ticks } => {
            let t = b[p + 1];
            assert((t as i8) as u8 == t) by (bit_vector);
            assert(b.subrange(off, next) =~= wire_bytes(w));
        },
    }
}

/// Parsing `n` events consumes exactly their encodings.
proof fn lemma_parsed_events_bytes(b: Seq<u8>, n: nat)
    requires
        b.len() >= 4,
        parse_events(b, n) is Ok,
    ensures
        ({
            let (ws, off) = parse_events(b, n)->Ok_0;
            &&& ws.len() == n
            &&& 4 <= off <= b.len()
            &&& b.subrange(4, off) == encode_all(ws)
        }),
    decreases n,
{
    if n > 0 {
        lemma_parsed_events_bytes(b, (n - 1) as nat);
        let (ws0, off0) = parse_events(b, (n - 1) as nat)->Ok_0;
        lemma_parsed_wire_event_bytes(b, off0);
        let (w, next) = parse_wire_event(b, off0)->Ok_0;
        let ws = ws0.push(w);
        assert(ws.drop_last() =~= ws0);
        assert(b.subrange(4, next) =~= b.subrange(4, off0) + b.subrange(off0, next));
    }
}

/// Decoding is canonical: a datagram that decodes is exactly the encoding
/// of its header and of the wire events it announced, followed by bytes
/// that decoding ignores.
pub proof fn lemma_decoded_datagram_is_encoding(b: Seq<u8>, last: u16)
    requires
        spec_decode(b, last) is Ok,
    ensures
        exists|ws: Seq<WireEvent>|
            {
                &&& 1 <= ws.len() <= MAX_BATCH_EVENTS
                &&& #[trigger] datagram_bytes(u16_le(b[2], b[3]), ws).len() <= b.len()
                &&& b.subrange(0, datagram_bytes(u16_le(b[2], b[3]), ws).len() as int)
                    == datagram_bytes(u16_le(b[2], b[3]), ws)
                &&& spec_decode(b, last) == Ok::<(Seq<InputEvent>, u16), BatchError>(
                    (ws.map_values(|w: WireEvent| wire_to_event(w)), u16_le(b[2], b[3])),
                )
            },
{
    let n = b[1] as nat;
    lemma_parsed_events_bytes(b, n);
    let (ws, off) = parse_events(b, n)->Ok_0;
    let seq = u16_le(b[2], b[3]);
    let (b2, b3) = (b[2], b[3]);
    assert(((b2 as u16) | ((b3 as u16) << 8u16)) as u8 == b2) by (bit_vector);
    assert((((b2 as u16) | ((b3 as u16) << 8u16)) >> 8u16) as u8 == b3) by (bit_vector);
    let d = datagram_bytes(seq, ws);
    assert(b.subrange(0, off) =~= b.subrange(0, 4) + b.subrange(4, off));
    assert(b.subrange(0, 4) =~= seq![MAGIC, ws.len() as u8] + le_u16(seq));
    assert(b.subrange(0, d.len() as int) == d);
}

/// The largest datagram: 64 events of at most 5 bytes after a 4-byte header.
pub proof fn lemma_datagram_size(seq: u16, ws: Seq<WireEvent>)
    requires
        ws.len() <= MAX_BATCH_EVENTS,
    ensures
        datagram_bytes(seq, ws).len() <= MAX_DATAGRAM_SIZE,
{
    lemma_encode_all_len(ws);
}

/// Displacement of an input event (only motion moves).
pub open spec fn event_motion(e: InputEvent) -> (int, int) {
    match e {
        InputEvent::Pointer(PointerEvent::Motion { dx, dy, .. }) => (dx as int, dy as int),
        _ => (0, 0),
    }
}

proof fn lemma_write_motion(v: EncoderView, w: WireEvent)
    ensures
        spec_write(v, w).1 is Ok ==> encoder_motion(spec_write(v, w).0) == (
            encoder_motion(v).0 + wire_motion(w).0,
            encoder_motion(v).1 + wire_motion(w).1,
        ),
        spec_write(v, w).1 is Err ==> spec_write(v, w).0 == v,
{
    if v.events.len() < MAX_BATCH_EVENTS {
        assert(v.events.push(w).drop_last() =~= v.events);
    }
}

/// Flushing never loses or invents displacement: what leaves the
/// accumulator is exactly what is written.
pub proof fn lemma_flush_conserves_motion(v: EncoderView)
    ensures
        encoder_motion(spec_flush(v).0) == encoder_motion(v),
{
    let (dx, dy) = (v.acc_dx, v.acc_dy);
    if v.has_motion {
        if fits_i8(dx) && fits_i8(dy) {
            lemma_write_motion(v, WireEvent::CompactMotion { dx: dx as i8, dy: dy as i8 });
        } else if fits_i16(dx) && fits_i16(dy) {
            lemma_write_motion(v, WireEvent::ExtendedMotion { dx: dx as i16, dy: dy as i16 });
        } else {
            lemma_write_motion(
                v,
                WireEvent::ExtendedMotion { dx: clamp_i16(dx) as i16, dy: clamp_i16(dy) as i16 },
            );
        }
    }
}

/// Coalescing conserves displacement: after pushing any event, the
/// displacement held by the encoder (written plus pending) grows by exactly
/// the event's displacement, whether the push succeeds or fails.
pub proof fn lemma_push_conserves_motion(v: EncoderView, e: InputEvent)
    ensures
        encoder_motion(spec_push(v, e).0) == (
            encoder_motion(v).0 + event_motion(e).0,
            encoder_motion(v).1 + event_motion(e).1,
        ),
{
    lemma_flush_conserves_motion(v);
    let v1 = spec_flush(v).0;
    match wire_for(e) {
        Ok(w) => {
            lemma_write_motion(v1, w);
        },
        Err(_) => {},
    }
}

/// Flushing until no motion is pending conserves displacement and keeps
/// the encoder's bounds.
pub proof fn lemma_flush_all_conserves_motion(v: EncoderView)
    ensures
        encoder_motion(spec_flush_all(v).0) == encoder_motion(v),
        encoder_bounds(v) ==> encoder_bounds(spec_flush_all(v).0),
    decreases pending_size(v),
{
    if v.has_motion {
        lemma_flush_conserves_motion(v);
        let (v1, r) = spec_flush(v);
        if r is Ok && v1.has_motion {
            lemma_flush_shrinks(v);
            lemma_flush_all_conserves_motion(v1);
        }
    }
}

/// Finishing conserves displacement, and a datagram finished from a valid
/// encoder state carries all of it: no motion stays pending, and the motion events written sum to
/// the displacement the encoder held, pushed events and accumulator alike.
pub proof fn lemma_finish_conserves_motion(v: EncoderView, seq: u16)
    ensures
        encoder_motion(spec_finish(v, seq).0) == encoder_motion(v),
        encoder_bounds(v) && spec_finish(v, seq).1 is Ok ==> !spec_finish(v, seq).0.has_motion
            && wire_motion_total(
            spec_finish(v, seq).0.events,
        ) == encoder_motion(v),
{
    lemma_flush_all_conserves_motion(v);
    lemma_flush_all_settles(v);
}

/// A successful flush of all motion leaves none pending.
proof fn lemma_flush_all_settles(v: EncoderView)
    ensures
        spec_flush_all(v).1 is Ok ==> !spec_flush_all(v).0.has_motion,
    decreases pending_size(v),
{
    if v.has_motion {
        let (v1, r) = spec_flush(v);
        if r is Ok && v1.has_motion {
            lemma_flush_shrinks(v);
            lemma_flush_all_settles(v1);
        }
    }
}

/// Events that the wire format carries without loss: time 0 (time is not
/// on the wire), motion within `i16`, codes within `u16`, button states
/// within `u8`, and wheel values that are whole ticks within `i8`.
pub open spec fn round_trips(e: InputEvent) -> bool {
    match e {
        InputEvent::Pointer(PointerEvent::Motion { time, dx, dy }) => time == 0 && fits_i16(
            dx as int,
        ) && fits_i16(dy as int),
        InputEvent::Pointer(PointerEvent::Button { time, button, state }) => time == 0 && button
            <= u16::MAX && state <= u8::MAX,
        InputEvent::Pointer(PointerEvent::AxisDiscrete120 { value, .. }) => value % 120 == 0
            && fits_i8(value / 120),
        InputEvent::Keyboard(KeyboardEvent::Key { time, key, .. }) => time == 0 && key
            <= u16::MAX,
        _ => false,
    }
}

/// Round trip of a single event: pushed into an empty encoder, finished
/// with a sequence number accepted after `last`, and decoded, it comes back
/// unchanged with that sequence number.
pub proof fn lemma_single_event_round_trip(e: InputEvent, seq: u16, last: u16)
    requires
        round_trips(e),
        seq_accepted(seq, last),
    ensures
        spec_push(empty_view(), e).1 is Ok,
        spec_finish(spec_push(empty_view(), e).0, seq).1 matches Ok(bytes) && spec_decode(bytes, last)
            == Ok::<(Seq<InputEvent>, u16), BatchError>((seq![e], seq)),
{
    let v1 = spec_push(empty_view(), e).0;
    let v2 = spec_finish(v1, seq).0;
    let w = v2.events[0];
    assert(v2.events.len() == 1);
    lemma_decode_datagram(seq, v2.events, last);
    assert(v2.events.map_values(|w: WireEvent| wire_to_event(w)) =~= seq![wire_to_event(w)]);
    match e {
        InputEvent::Pointer(PointerEvent::Button { button, state, .. }) => {
            assert(button as u16 as u32 == button);
            assert(state as u8 as u32 == state);
        },
        InputEvent::Keyboard(KeyboardEvent::Key { key, .. }) => {
            assert(key as u16 as u32 == key);
        },
        _ => {},
    }
    assert(wire_to_event(w) == e);
}

/// The two's-complement byte of a small signed value.
pub open spec fn signed_byte(x: int) -> u8 {
    if x >= 0 {
        x as u8
    } else {
        (x + 256) as u8
    }
}

proof fn lemma_signed_byte(x: i8)
    ensures
        x as u8 == signed_byte(x as int),
{
    assert(x < 0 ==> (x as u8) as int == x + 256) by (bit_vector);
    assert(x >= 0 ==> (x as u8) as int == x as int) by (bit_vector);
}

/// A smooth scroll of `value120` steps of 1/120 that fits `i8` is sent as a
/// wheel event whose tick byte is `value120` itself, sign included, and is
/// received as a discrete scroll of `value120 * 120`; a larger one is
/// refused with `WheelOverflow` and leaves the encoder unchanged.
pub proof fn lemma_axis_round_trip(time: u32, axis: u8, value120: i32, seq: u16, last: u16)
    requires
        seq_accepted(seq, last),
    ensures
        ({
            let e = InputEvent::Pointer(PointerEvent::Axis { time, axis, value120 });
            let (v1, r1) = spec_push(empty_view(), e);
            if -128 <= value120 <= 127 {
                &&& r1 is Ok
                &&& spec_finish(v1, seq).1 == Ok::<Seq<u8>, BatchError>(
                    seq![0x4Cu8, 1, seq as u8, (seq >> 8u16) as u8, 0xC0, axis, signed_byte(value120 as int)],
                )
                &&& spec_decode(spec_finish(v1, seq).1->Ok_0, last) == Ok::<(Seq<InputEvent>, u16), BatchError>(
                    (
                        seq![
                            InputEvent::Pointer(
                                PointerEvent::AxisDiscrete120 { axis, value: (value120 * 120) as i32 },
                            ),
                        ],
                        seq,
                    ),
                )
            } else {
                r1 == Err::<(), BatchError>(BatchError::WheelOverflow) && v1 == empty_view()
            }
        }),
{
    if -128 <= value120 <= 127 {
        let e = InputEvent::Pointer(PointerEvent::Axis { time, axis, value120 });
        let v1 = spec_push(empty_view(), e).0;
        let v2 = spec_finish(v1, seq).0;
        let w = WireEvent::Wheel { axis, ticks: value120 as i8 };
        assert(v2.events =~= seq![w]);
        lemma_signed_byte(value120 as i8);
        assert(((3u8 << 6u8) | (0u8 & 0x3fu8)) == 0xC0u8) by (bit_vector);
        assert(encode_all(v2.events) == encode_all(v2.events.drop_last()) + wire_bytes(w));
        assert(v2.events.drop_last() =~= Seq::<WireEvent>::empty());
        assert(datagram_bytes(seq, v2.events) =~= seq![
            0x4Cu8,
            1,
            seq as u8,
            (seq >> 8u16) as u8,
            0xC0,
            axis,
            signed_byte(value120 as int),
        ]);
        lemma_decode_datagram(seq, v2.events, last);
        assert(v2.events.map_values(|w: WireEvent| wire_to_event(w)) =~= seq![wire_to_event(w)]);
    }
}

/// A discrete scroll is sent exactly when it is a whole number of ticks
/// that fits `i8`, and is then received unchanged; otherwise it is refused
/// with `WheelOverflow` and the encoder is unchanged.
pub proof fn lemma_discrete_scroll_round_trip(axis: u8, value: i32, seq: u16, last: u16)
    requires
        seq_accepted(seq, last),
    ensures
        ({
            let e = InputEvent::Pointer(PointerEvent::AxisDiscrete120 { axis, value });
            let (v1, r1) = spec_push(empty_view(), e);
            if value % 120 == 0 && -128 * 120 <= value <= 127 * 120 {
                &&& r1 is Ok
                &&& spec_finish(v1, seq).1 matches Ok(bytes) && spec_decode(bytes, last) == Ok::<
                    (Seq<InputEvent>, u16),
                    BatchError,
                >((seq![e], seq))
            } else {
                r1 == Err::<(), BatchError>(BatchError::WheelOverflow) && v1 == empty_view()
            }
        }),
{
    let e = InputEvent::Pointer(PointerEvent::AxisDiscrete120 { axis, value });
    if value % 120 == 0 && -128 * 120 <= value <= 127 * 120 {
        assert(fits_i8(value / 120));
        lemma_single_event_round_trip(e, seq, last);
    } else {
        assert(!(value % 120 == 0 && fits_i8(value / 120)));
    }
}

/// The encoding of `n` events takes at least `3 * n` bytes.
proof fn lemma_encode_all_min_len(ws: Seq<WireEvent>)
    ensures
        encode_all(ws).len() >= 3 * ws.len(),
    decreases ws.len(),
{
    if ws.len() > 0 {
        lemma_encode_all_min_len(ws.drop_last());
        lemma_wire_bytes_len(ws.last());
    }
}

/// Header and size of a datagram of 1..=64 events: magic byte, event
/// count, sequence number in little endian, then 3 to 5 bytes per event.
pub proof fn lemma_datagram_header(seq: u16, ws: Seq<WireEvent>)
    requires
        1 <= ws.len() <= MAX_BATCH_EVENTS,
    ensures
        ({
            let d = datagram_bytes(seq, ws);
            &&& d[0] == MAGIC
            &&& d[1] as int == ws.len()
            &&& u16_le(d[2], d[3]) == seq
            &&& 4 + 3 * ws.len() <= d.len() <= 4 + 5 * ws.len()
            &&& d.len() <= MAX_DATAGRAM_SIZE
        }),
{
    lemma_int_bytes(0, seq, 0);
    lemma_encode_all_len(ws);
    lemma_encode_all_min_len(ws);
}

/// Pushing keeps an encoder's bounds (at most 64 events, an empty
/// accumulator when no motion is pending).
pub proof fn lemma_push_keeps_bounds(v: EncoderView, e: InputEvent)
    requires
        encoder_bounds(v),
    ensures
        encoder_bounds(spec_push(v, e).0),
{
}

/// Finishing keeps an encoder's bounds.
pub proof fn lemma_finish_keeps_bounds(v: EncoderView, seq: u16)
    requires
        encoder_bounds(v),
    ensures
        encoder_bounds(spec_finish(v, seq).0),
{
    lemma_flush_all_conserves_motion(v);
}

/// Pushing events one after the other, from the left; also whether every
/// push succeeded.
pub open spec fn push_all(v: EncoderView, evs: Seq<InputEvent>) -> (EncoderView, bool)
    decreases evs.len(),
{
    if evs.len() == 0 {
        (v, true)
    } else {
        let (v1, ok) = push_all(v, evs.drop_last());
        let (v2, r) = spec_push(v1, evs.last());
        (v2, ok && r is Ok)
    }
}

/// Coalescing of an event sequence, read from the left: the events done so
/// far, the summed motion of the current run of motion events, and whether
/// every run finished so far summed within `i16`.
pub struct CoalesceState {
    pub done: Seq<InputEvent>,
    pub pending: Option<(int, int)>,
    pub runs_fit: bool,
}

/// The motion event for a finished run (none when no run is open).
pub open spec fn run_event(p: Option<(int, int)>) -> Seq<InputEvent> {
    match p {
        Some((x, y)) => seq![
            InputEvent::Pointer(PointerEvent::Motion { time: 0, dx: x as i32, dy: y as i32 }),
        ],
        None => Seq::empty(),
    }
}

/// A run's sum fits `i16`.
pub open spec fn run_fits(p: Option<(int, int)>) -> bool {
    match p {
        Some((x, y)) => fits_i16(x) && fits_i16(y),
        None => true,
    }
}

/// The event with its time set to 0 (time is not on the wire).
pub open spec fn without_time(e: InputEvent) -> InputEvent {
    match e {
        InputEvent::Pointer(PointerEvent::Motion { dx, dy, .. }) => InputEvent::Pointer(
            PointerEvent::Motion { time: 0, dx, dy },
        ),
        InputEvent::Pointer(PointerEvent::Button { button, state, .. }) => InputEvent::Pointer(
            PointerEvent::Button { time: 0, button, state },
        ),
        InputEvent::Pointer(PointerEvent::Axis { axis, value120, .. }) => InputEvent::Pointer(
            PointerEvent::Axis { time: 0, axis, value120 },
        ),
        InputEvent::Keyboard(KeyboardEvent::Key { key, state, .. }) => InputEvent::Keyboard(
            KeyboardEvent::Key { time: 0, key, state },
        ),
        _ => e,
    }
}

pub open spec fn coalesce_state(evs: Seq<InputEvent>) -> CoalesceState
    decreases evs.len(),
{
    if evs.len() == 0 {
        CoalesceState { done: Seq::empty(), pending: None, runs_fit: true }
    } else {
        let s = coalesce_state(evs.drop_last());
        match evs.last() {
            InputEvent::Pointer(PointerEvent::Motion { dx, dy, .. }) => {
                let (x, y) = match s.pending {
                    Some((x, y)) => (x, y),
                    None => (0, 0),
                };
                CoalesceState { pending: Some((x + dx, y + dy)), ..s }
            },
            e => CoalesceState {
                done: s.done + run_event(s.pending) + seq![without_time(e)],
                pending: None,
                runs_fit: s.runs_fit && run_fits(s.pending),
            },
        }
    }
}

/// The events with each maximal run of motion events replaced by one motion
/// event of their summed displacement, and all times set to 0.
pub open spec fn coalesce(evs: Seq<InputEvent>) -> Seq<InputEvent> {
    coalesce_state(evs).done + run_event(coalesce_state(evs).pending)
}

/// Every maximal run of motion events sums within `i16`.
pub open spec fn runs_fit_i16(evs: Seq<InputEvent>) -> bool {
    coalesce_state(evs).runs_fit && run_fits(coalesce_state(evs).pending)
}

/// Events the wire carries without loss: motion, buttons and keys whose
/// codes and states fit the wire fields, and discrete wheel steps.
pub open spec fn carried_losslessly(e: InputEvent) -> bool {
    match e {
        InputEvent::Pointer(PointerEvent::Motion { .. }) => true,
        InputEvent::Pointer(PointerEvent::Button { button, state, .. }) => button <= u16::MAX
            && state <= u8::MAX,
        InputEvent::Pointer(PointerEvent::AxisDiscrete120 { .. }) => true,
        InputEvent::Keyboard(KeyboardEvent::Key { key, .. }) => key <= u16::MAX,
        _ => false,
    }
}

/// Flushing a run that fits `i16` writes one motion event carrying its sum.
proof fn lemma_flush_fitting_run(v: EncoderView)
    requires
        v.has_motion,
        fits_i16(v.acc_dx),
        fits_i16(v.acc_dy),
        spec_flush(v).1 is Ok,
    ensures
        spec_flush(v).0.events.len() == v.events.len() + 1,
        spec_flush(v).0.events.drop_last() == v.events,
        wire_to_event(spec_flush(v).0.events.last()) == InputEvent::Pointer(
            PointerEvent::Motion { time: 0, dx: v.acc_dx as i32, dy: v.acc_dy as i32 },
        ),
        !spec_flush(v).0.has_motion,
        spec_flush(v).0.acc_dx == 0,
        spec_flush(v).0.acc_dy == 0,
{
    let v1 = spec_flush(v).0;
    assert(v1.events.drop_last() =~= v.events);
}

proof fn lemma_map_push(ws: Seq<WireEvent>, w: WireEvent)
    ensures
        ws.push(w).map_values(|x: WireEvent| wire_to_event(x)) == ws.map_values(
            |x: WireEvent| wire_to_event(x),
        ).push(wire_to_event(w)),
{
    assert(ws.push(w).map_values(|x: WireEvent| wire_to_event(x)) =~= ws.map_values(
        |x: WireEvent| wire_to_event(x),
    ).push(wire_to_event(w)));
}

/// After pushing `evs` into an empty encoder, the written events decode to
/// the finished runs and events of `evs`, and the accumulator holds the
/// open run.
proof fn lemma_push_all_coalesces(evs: Seq<InputEvent>)
    requires
        forall|i: int| 0 <= i < evs.len() ==> carried_losslessly(#[trigger] evs[i]),
        push_all(empty_view(), evs).1,
        coalesce_state(evs).runs_fit,
    ensures
        ({
            let v = push_all(empty_view(), evs).0;
            let s = coalesce_state(evs);
            &&& v.events.map_values(|w: WireEvent| wire_to_event(w)) == s.done
            &&& v.has_motion == s.pending is Some
            &&& match s.pending {
                Some((x, y)) => v.acc_dx == x && v.acc_dy == y,
                None => v.acc_dx == 0 && v.acc_dy == 0,
            }
        }),
    decreases evs.len(),
{
    if evs.len() == 0 {
        assert(Seq::<WireEvent>::empty().map_values(|w: WireEvent| wire_to_event(w))
            =~= Seq::<InputEvent>::empty());
    } else {
        let pre = evs.drop_last();
        let e = evs.last();
        assert forall|i: int| 0 <= i < pre.len() implies carried_losslessly(#[trigger] pre[i]) by {
            assert(pre[i] == evs[i]);
        }
        assert(carried_losslessly(evs[evs.len() - 1]));
        lemma_push_all_coalesces(pre);
        let v1 = push_all(empty_view(), pre).0;
        let s1 = coalesce_state(pre);
        let m1 = v1.events.map_values(|w: WireEvent| wire_to_event(w));
        match e {
            InputEvent::Pointer(PointerEvent::Motion { .. }) => {},
            _ => {
                let (vf, rf) = spec_flush(v1);
                let w = wire_for(e)->Ok_0;
                if v1.has_motion {
                    lemma_flush_fitting_run(v1);
                    lemma_map_push(vf.events.drop_last(), vf.events.last());
                    assert(vf.events.drop_last().push(vf.events.last()) =~= vf.events);
                    assert(vf.events.map_values(|x: WireEvent| wire_to_event(x)) == s1.done
                        + run_event(s1.pending));
                } else {
                    assert(s1.done + run_event(s1.pending) =~= s1.done);
                }
                lemma_map_push(vf.events, w);
                match e {
                    InputEvent::Pointer(PointerEvent::Button { button, state, .. }) => {
                        assert(button as u16 as u32 == button);
                        assert(state as u8 as u32 == state);
                    },
                    InputEvent::Keyboard(KeyboardEvent::Key { key, .. }) => {
                        assert(key as u16 as u32 == key);
                    },
                    _ => {},
                }
                assert(wire_to_event(w) == without_time(e));
            },
        }
    }
}

/// Round trip of a batch: pushing events that the wire carries without
/// loss into an empty encoder, every push succeeding and every run of
/// motion summing within `i16`, then finishing with a sequence number
/// accepted after `last`, the datagram decodes to the coalesced events
/// and that sequence number.
pub proof fn lemma_batch_round_trip(evs: Seq<InputEvent>, seq: u16, last: u16)
    requires
        forall|i: int| 0 <= i < evs.len() ==> carried_losslessly(#[trigger] evs[i]),
        push_all(empty_view(), evs).1,
        runs_fit_i16(evs),
        spec_finish(push_all(empty_view(), evs).0, seq).1 is Ok,
        seq_accepted(seq, last),
    ensures
        spec_finish(push_all(empty_view(), evs).0, seq).1 matches Ok(bytes) && spec_decode(bytes, last)
            == Ok::<(Seq<InputEvent>, u16), BatchError>((coalesce(evs), seq)),
{
    lemma_push_all_coalesces(evs);
    let v = push_all(empty_view(), evs).0;
    let s = coalesce_state(evs);
    let vf = spec_flush(v).0;
    if v.has_motion {
        lemma_flush_fitting_run(v);
        lemma_map_push(vf.events.drop_last(), vf.events.last());
        assert(vf.events.drop_last().push(vf.events.last()) =~= vf.events);
    } else {
        assert(s.done + run_event(s.pending) =~= s.done);
    }
    lemma_steps_keep_bounds_all(evs);
    lemma_finish_keeps_bounds(v, seq);
    assert(vf.events.map_values(|w: WireEvent| wire_to_event(w)) == coalesce(evs));
    assert(1 <= vf.events.len() <= MAX_BATCH_EVENTS);
    lemma_decode_datagram(seq, vf.events, last);
}

/// Every state reached by pushing keeps the encoder's bounds.
proof fn lemma_steps_keep_bounds_all(evs: Seq<InputEvent>)
    ensures
        encoder_bounds(push_all(empty_view(), evs).0),
    decreases evs.len(),
{
    if evs.len() > 0 {
        lemma_steps_keep_bounds_all(evs.drop_last());
        lemma_push_keeps_bounds(push_all(empty_view(), evs.drop_last()).0, evs.last());
    }
}

/// Sequence numbers: the first datagram (`last == u16::MAX`) is always
/// accepted; otherwise a duplicate is refused, and of two sequence numbers
/// at most one is newer than the other.
pub proof fn lemma_seq_window(a: u16, b: u16)
    ensures
        seq_accepted(a, u16::MAX),
        b != u16::MAX ==> !seq_accepted(b, b),
        a != u16::MAX && b != u16::MAX && seq_accepted(a, b) ==> !seq_accepted(b, a),
{
}

} // verus!
