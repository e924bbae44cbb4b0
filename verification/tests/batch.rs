use lan_mouse::batch::{
    decode_batch, BatchEncoder, BatchError, InputEvent, KeyboardEvent, PointerEvent,
    MAX_BATCH_EVENTS, MAX_DATAGRAM_SIZE, MAGIC,
};

fn motion(dx: f64, dy: f64) -> InputEvent {
    InputEvent::Pointer(PointerEvent::Motion {
        time: 0,
        dx: dx.round() as i32,
        dy: dy.round() as i32,
    })
}

fn button(code: u32, state: u32) -> InputEvent {
    InputEvent::Pointer(PointerEvent::Button {
        time: 0,
        button: code,
        state,
    })
}

fn key(key: u32, state: u8) -> InputEvent {
    InputEvent::Keyboard(KeyboardEvent::Key {
        time: 0,
        key,
        state,
    })
}

fn axis(axis: u8, value: f64) -> InputEvent {
    InputEvent::Pointer(PointerEvent::Axis {
        time: 0,
        axis,
        value120: (value * 120.0).round() as i32,
    })
}

fn axis_discrete120(axis: u8, value: i32) -> InputEvent {
    InputEvent::Pointer(PointerEvent::AxisDiscrete120 { axis, value })
}

fn modifiers() -> InputEvent {
    InputEvent::Keyboard(KeyboardEvent::Modifiers {
        depressed: 0,
        latched: 0,
        locked: 0,
        group: 0,
    })
}

#[test]
fn pure_motion_batch_is_pending_before_finish() {
    // coalesced motion lives in the accumulator with event_count()==0
    // until finish() encodes it
    let mut enc = BatchEncoder::new();
    assert!(!enc.has_pending());
    enc.push_event(motion(3.0, -7.0)).unwrap();
    assert!(enc.has_pending());
    assert_eq!(enc.event_count(), 0);
    let buf = enc.finish(1).unwrap();
    assert_eq!(buf[0], MAGIC);
    assert_eq!(buf[1], 1);
}

#[test]
fn round_trip_compact_motion() {
    let mut enc = BatchEncoder::new();
    enc.push_event(motion(5.0, -3.0)).unwrap();
    let buf = enc.finish(1).unwrap();
    let (events, seq) = decode_batch(buf, u16::MAX).unwrap();
    assert_eq!(seq, 1);
    assert_eq!(events.len(), 1);
    assert_eq!(events[0], motion(5.0, -3.0));
}

#[test]
fn round_trip_extended_motion() {
    let mut enc = BatchEncoder::new();
    enc.push_event(motion(500.0, -300.0)).unwrap();
    let buf = enc.finish(1).unwrap();
    let (events, _) = decode_batch(buf, u16::MAX).unwrap();
    assert_eq!(events[0], motion(500.0, -300.0));
}

#[test]
fn round_trip_button() {
    let mut enc = BatchEncoder::new();
    enc.push_event(button(0x110, 1)).unwrap();
    let buf = enc.finish(1).unwrap();
    let (events, _) = decode_batch(buf, u16::MAX).unwrap();
    assert_eq!(events[0], button(0x110, 1));
}

#[test]
fn round_trip_key() {
    let mut enc = BatchEncoder::new();
    enc.push_event(key(30, 1)).unwrap();
    let buf = enc.finish(1).unwrap();
    let (events, _) = decode_batch(buf, u16::MAX).unwrap();
    assert_eq!(events[0], key(30, 1));
}

#[test]
fn round_trip_wheel() {
    let mut enc = BatchEncoder::new();
    enc.push_event(axis_discrete120(0, 120)).unwrap();
    let buf = enc.finish(1).unwrap();
    let (events, _) = decode_batch(buf, u16::MAX).unwrap();
    assert_eq!(events[0], axis_discrete120(0, 120));
}

#[test]
fn truncation_rejected() {
    let mut enc = BatchEncoder::new();
    enc.push_event(motion(5.0, -3.0)).unwrap();
    let buf = enc.finish(1).unwrap();
    // truncated to 3 bytes (less than the header)
    assert_eq!(
        decode_batch(&buf[..3], u16::MAX),
        Err(BatchError::TruncatedDatagram)
    );
}

#[test]
fn bad_subtype_rejected() {
    // tag 0b00 with subtype 1: invalid for motion
    let mut bad = [0u8; 7];
    bad[0] = MAGIC;
    bad[1] = 1;
    bad[2..4].copy_from_slice(&1u16.to_le_bytes());
    bad[4] = 0b00_000001;
    bad[5] = 5;
    bad[6] = -3i8 as u8;
    assert_eq!(decode_batch(&bad, u16::MAX), Err(BatchError::BadSubtype));
}

#[test]
fn wrong_magic_rejected() {
    let mut bad = [0u8; 7];
    bad[0] = 0x00;
    bad[1] = 1;
    bad[2..4].copy_from_slice(&1u16.to_le_bytes());
    bad[4] = 0x00;
    bad[5] = 5;
    bad[6] = 0;
    assert_eq!(decode_batch(&bad, u16::MAX), Err(BatchError::BadMagic));
}

#[test]
fn seq_staleness() {
    let mut enc = BatchEncoder::new();
    enc.push_event(motion(1.0, 0.0)).unwrap();
    let buf = enc.finish(10).unwrap();

    // seq=10 after last_seq=9: distance 1
    assert!(decode_batch(buf, 9).is_ok());
    // duplicate: distance 0
    assert_eq!(decode_batch(buf, 10), Err(BatchError::StaleSeq));
    // far behind: distance 65446 > 0x7FFF
    assert_eq!(decode_batch(buf, 100), Err(BatchError::StaleSeq));
    // wrap-around: distance 26
    assert!(decode_batch(buf, 0xFFF0).is_ok());
}

#[test]
fn first_datagram_unconditional() {
    let mut enc = BatchEncoder::new();
    enc.push_event(motion(1.0, 0.0)).unwrap();
    let buf = enc.finish(0).unwrap();
    assert!(decode_batch(buf, u16::MAX).is_ok());
}

#[test]
fn coalescing_compact() {
    let mut enc = BatchEncoder::new();
    enc.push_event(motion(3.0, 2.0)).unwrap();
    enc.push_event(motion(4.0, 5.0)).unwrap();
    let buf = enc.finish(1).unwrap();
    let (events, _) = decode_batch(buf, u16::MAX).unwrap();
    // coalesced: dx=7, dy=7, fits i8
    assert_eq!(events.len(), 1);
    assert_eq!(events[0], motion(7.0, 7.0));
}

#[test]
fn coalescing_extended() {
    let mut enc = BatchEncoder::new();
    enc.push_event(motion(200.0, 300.0)).unwrap();
    enc.push_event(motion(100.0, 200.0)).unwrap();
    let buf = enc.finish(1).unwrap();
    let (events, _) = decode_batch(buf, u16::MAX).unwrap();
    // coalesced: dx=300, dy=500, fits i16
    assert_eq!(events.len(), 1);
    assert_eq!(events[0], motion(300.0, 500.0));
}

#[test]
fn coalescing_i16_overflow_clamped() {
    let mut enc = BatchEncoder::new();
    enc.push_event(motion(40000.0, 0.0)).unwrap();
    enc.push_event(motion(40000.0, 0.0)).unwrap();
    let buf = enc.finish(1).unwrap();
    let (events, _) = decode_batch(buf, u16::MAX).unwrap();
    // dx=80000 does not fit i16: clamped to i16::MAX, remainder carried
    assert!(!events.is_empty());
    match &events[0] {
        InputEvent::Pointer(PointerEvent::Motion { dx, dy, .. }) => {
            assert_eq!(*dx as f64, i16::MAX as f64);
            assert_eq!(*dy as f64, 0.0);
        }
        _ => panic!("expected motion"),
    }
}

#[test]
fn non_batchable_modifiers() {
    let mut enc = BatchEncoder::new();
    assert_eq!(enc.push_event(modifiers()), Err(BatchError::NonBatchable));
}

#[test]
fn max_batch_full() {
    let mut enc = BatchEncoder::new();
    // buttons: motions would coalesce and never fill the buffer
    for _ in 0..64 {
        enc.push_event(button(0x110, 1)).unwrap();
    }
    assert_eq!(
        enc.push_event(button(0x110, 1)),
        Err(BatchError::BufferFull)
    );
}

#[test]
fn non_motion_flushes_motion() {
    let mut enc = BatchEncoder::new();
    enc.push_event(motion(3.0, 2.0)).unwrap();
    enc.push_event(button(0x110, 1)).unwrap();
    let buf = enc.finish(1).unwrap();
    let (events, _) = decode_batch(buf, u16::MAX).unwrap();
    // motion flushed first, then the button
    assert_eq!(events.len(), 2);
    assert_eq!(events[0], motion(3.0, 2.0));
    assert_eq!(events[1], button(0x110, 1));
}

#[test]
fn wheel_axis_overflow() {
    let mut enc = BatchEncoder::new();
    // axis value * 120 does not fit i8
    assert_eq!(
        enc.push_event(axis(0, 1000.0)),
        Err(BatchError::WheelOverflow)
    );
}

#[test]
fn wheel_axis_discrete120_remainder() {
    let mut enc = BatchEncoder::new();
    assert_eq!(
        enc.push_event(axis_discrete120(0, 130)),
        Err(BatchError::WheelOverflow)
    );
}

#[test]
fn wheel_axis_discrete120_overflow() {
    let mut enc = BatchEncoder::new();
    assert_eq!(
        enc.push_event(axis_discrete120(0, 20000)),
        Err(BatchError::WheelOverflow)
    );
}

#[test]
fn wire_sizes() {
    // many small motions coalesce into one compact event
    // (100 events of (1,0) sum to dx=100, still fits i8)
    let mut enc = BatchEncoder::new();
    for _ in 0..100 {
        enc.push_event(motion(1.0, 0.0)).unwrap();
    }
    let datagram = enc.finish(0).unwrap();
    assert_eq!(datagram.len(), 4 + 3);
    assert_eq!(datagram.len(), 7);

    // worst case per event: extended motion = tag(1) + i16 + i16 = 5 bytes
    assert_eq!(4 + 64 * 5, MAX_DATAGRAM_SIZE);
}

// ------------------------------------------------------------ exact bytes

#[test]
fn compact_motion_bytes() {
    let mut enc = BatchEncoder::new();
    enc.push_event(motion(5.0, -3.0)).unwrap();
    assert_eq!(enc.finish(1).unwrap(), &[0x4C, 1, 1, 0, 0x00, 5, 0xFD]);
}

#[test]
fn extended_motion_bytes() {
    let mut enc = BatchEncoder::new();
    enc.push_event(motion(500.0, -300.0)).unwrap();
    assert_eq!(
        enc.finish(0x1234).unwrap(),
        &[0x4C, 1, 0x34, 0x12, 0x40, 0xF4, 0x01, 0xD4, 0xFE]
    );
}

#[test]
fn button_key_wheel_bytes() {
    let mut enc = BatchEncoder::new();
    enc.push_event(button(0x110, 1)).unwrap();
    enc.push_event(key(30, 0)).unwrap();
    enc.push_event(axis_discrete120(1, -240)).unwrap();
    assert_eq!(
        enc.finish(2).unwrap(),
        &[0x4C, 3, 2, 0, 0x80, 0x10, 0x01, 0x01, 0x81, 30, 0, 0, 0xC0, 1, 0xFE]
    );
}

#[test]
fn key_wire_format() {
    let mut enc = BatchEncoder::new();
    enc.push_event(key(30, 1)).unwrap();
    assert_eq!(enc.finish(1).unwrap(), &[0x4C, 0x01, 0x01, 0x00, 0x81, 0x1E, 0x00, 0x01]);
    let d = [0x4C, 0x01, 0x01, 0x00, 0x81, 0x1E, 0x00, 0x01];
    assert_eq!(decode_batch(&d, u16::MAX), Ok((vec![key(30, 1)], 1)));
}

#[test]
fn button_code_and_state_truncate_to_wire_width() {
    let mut enc = BatchEncoder::new();
    enc.push_event(button(0x1_0110, 0x101)).unwrap();
    let buf = enc.finish(1).unwrap();
    let (events, _) = decode_batch(buf, u16::MAX).unwrap();
    assert_eq!(events[0], button(0x110, 1));
}

#[test]
fn axis_ticks_decode_as_discrete120() {
    let mut enc = BatchEncoder::new();
    // 0.5 scroll units = 60 in 1/120 steps; carried as ticks, restored *120
    enc.push_event(axis(1, 0.5)).unwrap();
    let buf = enc.finish(1).unwrap();
    let (events, _) = decode_batch(buf, u16::MAX).unwrap();
    assert_eq!(events, vec![axis_discrete120(1, 60 * 120)]);
}

#[test]
fn negative_wheel_round_trip() {
    let mut enc = BatchEncoder::new();
    enc.push_event(axis_discrete120(0, -128 * 120)).unwrap();
    let buf = enc.finish(1).unwrap();
    let (events, _) = decode_batch(buf, u16::MAX).unwrap();
    assert_eq!(events, vec![axis_discrete120(0, -128 * 120)]);
}

// ------------------------------------------------------------ encoder state

#[test]
fn finish_with_nothing_is_buffer_full() {
    let mut enc = BatchEncoder::new();
    assert_eq!(enc.finish(1), Err(BatchError::BufferFull));
}

#[test]
fn reset_drops_everything() {
    let mut enc = BatchEncoder::default();
    enc.push_event(button(1, 1)).unwrap();
    enc.push_event(motion(1.0, 1.0)).unwrap();
    assert!(enc.has_pending());
    enc.reset();
    assert!(!enc.has_pending());
    assert_eq!(enc.event_count(), 0);
    assert_eq!(enc.finish(1), Err(BatchError::BufferFull));
}

#[test]
fn clamped_remainder_is_flushed_at_finish() {
    let mut enc = BatchEncoder::new();
    enc.push_event(motion(40000.0, 0.0)).unwrap();
    enc.push_event(motion(40000.0, 0.0)).unwrap();
    let buf = enc.finish(1).unwrap().to_vec();
    // 80000 = 32767 + 32767 + 14466: three extended motion events
    assert_eq!(buf.len(), 4 + 3 * 5);
    assert_eq!(enc.event_count(), 3);
    let (events, _) = decode_batch(&buf, u16::MAX).unwrap();
    assert_eq!(
        events,
        vec![motion(32767.0, 0.0), motion(32767.0, 0.0), motion(14466.0, 0.0)]
    );
    let sum: i32 = events
        .iter()
        .map(|e| match e {
            InputEvent::Pointer(PointerEvent::Motion { dx, .. }) => *dx,
            _ => 0,
        })
        .sum();
    assert_eq!(sum, 80000);
    // nothing is left over: a second finish sends the same events
    assert_eq!(enc.finish(2).unwrap().len(), buf.len());
}

#[test]
fn clamped_remainder_both_axes() {
    let mut enc = BatchEncoder::new();
    enc.push_event(motion(-70000.0, 40000.0)).unwrap();
    let buf = enc.finish(1).unwrap();
    let (events, _) = decode_batch(buf, u16::MAX).unwrap();
    assert_eq!(
        events,
        vec![motion(-32768.0, 32767.0), motion(-32768.0, 7233.0), motion(-4464.0, 0.0)]
    );
}

#[test]
fn remainder_that_does_not_fit_is_buffer_full() {
    let mut enc = BatchEncoder::new();
    for _ in 0..MAX_BATCH_EVENTS - 1 {
        enc.push_event(key(1, 1)).unwrap();
    }
    enc.push_event(motion(80000.0, 0.0)).unwrap();
    // room for one clamped event, not for the remainder
    assert_eq!(enc.finish(1), Err(BatchError::BufferFull));
    assert_eq!(enc.event_count(), 64);
    assert!(enc.has_pending());
}

#[test]
fn buffer_full_keeps_pending_motion() {
    let mut enc = BatchEncoder::new();
    for _ in 0..MAX_BATCH_EVENTS {
        enc.push_event(key(1, 1)).unwrap();
    }
    enc.push_event(motion(2.0, 2.0)).unwrap();
    assert_eq!(enc.finish(1), Err(BatchError::BufferFull));
    assert!(enc.has_pending());
    assert_eq!(enc.event_count(), 64);
}

#[test]
fn full_batch_fits_max_datagram() {
    let mut enc = BatchEncoder::new();
    // each round writes an extended motion and a button
    for i in 0..MAX_BATCH_EVENTS / 2 {
        enc.push_event(motion(1000.0 + i as f64, -1000.0)).unwrap();
        enc.push_event(button(272, 1)).unwrap();
    }
    let n = enc.event_count();
    assert_eq!(n, 64);
    let buf = enc.finish(9).unwrap();
    assert!(buf.len() <= MAX_DATAGRAM_SIZE);
    let (events, seq) = decode_batch(buf, 8).unwrap();
    assert_eq!(seq, 9);
    assert_eq!(events.len(), 64);
}

#[test]
fn modifiers_leave_state_unchanged() {
    let mut enc = BatchEncoder::new();
    enc.push_event(motion(4.0, 4.0)).unwrap();
    assert_eq!(enc.push_event(modifiers()), Err(BatchError::NonBatchable));
    assert_eq!(enc.event_count(), 0);
    assert!(enc.has_pending());
}

#[test]
fn wheel_overflow_after_flush() {
    let mut enc = BatchEncoder::new();
    enc.push_event(motion(4.0, 4.0)).unwrap();
    // the pending motion is flushed before the wheel value is refused
    assert_eq!(
        enc.push_event(axis_discrete120(0, 130)),
        Err(BatchError::WheelOverflow)
    );
    assert_eq!(enc.event_count(), 1);
}

// ------------------------------------------------------------ decoder

#[test]
fn decode_errors_each_variant() {
    assert_eq!(decode_batch(&[], u16::MAX), Err(BatchError::TruncatedDatagram));
    assert_eq!(decode_batch(&[0x4D, 1, 0, 0, 0, 0, 0], u16::MAX), Err(BatchError::BadMagic));
    assert_eq!(decode_batch(&[0x4C, 0, 0, 0], u16::MAX), Err(BatchError::BadSubtype));
    assert_eq!(decode_batch(&[0x4C, 65, 0, 0], u16::MAX), Err(BatchError::BadSubtype));
    assert_eq!(decode_batch(&[0x4C, 1, 5, 0, 0, 0, 0], 5), Err(BatchError::StaleSeq));
    // event head present, payload missing
    assert_eq!(
        decode_batch(&[0x4C, 1, 0, 0, 0x40, 1, 2], u16::MAX),
        Err(BatchError::TruncatedDatagram)
    );
    // announced two events, only one present
    assert_eq!(
        decode_batch(&[0x4C, 2, 0, 0, 0, 1, 2], u16::MAX),
        Err(BatchError::TruncatedDatagram)
    );
    // button tag with subtype 2
    assert_eq!(
        decode_batch(&[0x4C, 1, 0, 0, 0x82, 1, 2, 3], u16::MAX),
        Err(BatchError::BadSubtype)
    );
    // wheel tag with subtype 1
    assert_eq!(
        decode_batch(&[0x4C, 1, 0, 0, 0xC1, 1, 2, 3], u16::MAX),
        Err(BatchError::BadSubtype)
    );
    // bad subtype is reported before a missing payload
    assert_eq!(
        decode_batch(&[0x4C, 1, 0, 0, 0x02], u16::MAX),
        Err(BatchError::BadSubtype)
    );
}

#[test]
fn decode_ignores_trailing_bytes() {
    let (events, seq) = decode_batch(&[0x4C, 1, 7, 0, 0x81, 0x2C, 0x01, 1, 9, 9, 9], 6).unwrap();
    assert_eq!(seq, 7);
    assert_eq!(events, vec![key(300, 1)]);
}

#[test]
fn seq_window_edges() {
    let d = |seq: u16| {
        let mut enc = BatchEncoder::new();
        enc.push_event(key(1, 1)).unwrap();
        enc.finish(seq).unwrap().to_vec()
    };
    assert!(decode_batch(&d(0x7FFF), 0).is_ok());
    assert_eq!(decode_batch(&d(0x8000), 0), Err(BatchError::StaleSeq));
    assert!(decode_batch(&d(0), 0xFFFE).is_ok());
    assert!(decode_batch(&d(0xFFFF), u16::MAX).is_ok());
}

#[test]
fn error_messages() {
    assert_eq!(BatchError::BufferFull.message(), "batch buffer full");
    assert_eq!(BatchError::NonBatchable.message(), "event cannot be batched");
    assert_eq!(BatchError::TruncatedDatagram.message(), "truncated datagram");
    assert_eq!(BatchError::BadMagic.message(), "bad magic byte");
    assert_eq!(BatchError::BadSubtype.message(), "bad subtype");
    assert_eq!(BatchError::StaleSeq.message(), "stale sequence number");
    assert_eq!(BatchError::WheelOverflow.message(), "wheel ticks overflow i8");
}

#[test]
fn bench_round_trip() {
    let n = 10_000;
    let events: Vec<InputEvent> = (0..n)
        .map(|i| motion(((i % 7) - 3) as f64, ((i % 5) - 2) as f64))
        .collect();

    let t = std::time::Instant::now();
    let mut datagrams = 0usize;
    let mut bytes = 0usize;
    for chunk in events.chunks(MAX_BATCH_EVENTS) {
        let mut enc = BatchEncoder::new();
        for e in chunk {
            enc.push_event(*e).unwrap();
        }
        let d = enc.finish(datagrams as u16).unwrap();
        bytes += d.len();
        datagrams += 1;
    }
    let enc_t = t.elapsed();

    let t = std::time::Instant::now();
    let mut decoded = 0usize;
    for seq in 0..datagrams {
        // re-encode to have a datagram to decode
        let start = seq * MAX_BATCH_EVENTS;
        let end = (start + MAX_BATCH_EVENTS).min(events.len());
        let mut enc = BatchEncoder::new();
        for e in &events[start..end] {
            enc.push_event(*e).unwrap();
        }
        let d = enc.finish(seq as u16).unwrap().to_vec();
        let last = if seq == 0 { u16::MAX } else { (seq - 1) as u16 };
        let (evts, _) = decode_batch(&d, last).unwrap();
        decoded += evts.len();
    }
    let dec_t = t.elapsed();

    println!(
        "encode: {n} events -> {datagrams} datagrams ({bytes} B) in {enc_t:?} | \
         decode: {decoded} events in {dec_t:?}"
    );
    // coalescing collapses each datagram's motions into one event
    assert_eq!(decoded, datagrams);
}

#[test]
fn batch_round_trip_coalesces_runs() {
    let mut enc = BatchEncoder::new();
    let evs = [
        motion(3.0, 1.0),
        motion(-10.0, 2.0),
        key(30, 1),
        axis_discrete120(0, -360),
        motion(200.0, 0.0),
        motion(100.0, -5.0),
        button(0x111, 0),
        motion(1.0, 1.0),
    ];
    for e in evs {
        enc.push_event(e).unwrap();
    }
    let buf = enc.finish(42).unwrap();
    let (events, seq) = decode_batch(buf, 41).unwrap();
    assert_eq!(seq, 42);
    assert_eq!(
        events,
        vec![
            motion(-7.0, 3.0),
            key(30, 1),
            axis_discrete120(0, -360),
            motion(300.0, -5.0),
            button(0x111, 0),
            motion(1.0, 1.0),
        ]
    );
}
