use lidar_bridge::codec::{decode, encode};
use lidar_bridge::publisher::{
    default_port, step, topic_key, LoopAction, LoopEvent, LoopState, DEFAULT_BAUD,
    PUBLISH_DELAY_MS,
};
use lidar_bridge::scan::{
    convert, frame_id_vec, intensity_to_bits, mm_to_meters_bits, timing_bits, ConvertError,
    RawReading, ScanRecord, Time, ANGLE_INCREMENT_BITS, ANGLE_MAX_BITS, ANGLE_MIN_BITS,
    RANGE_MAX_BITS, RANGE_MIN_BITS,
};

fn raw(rpm: u16, mm: u16, inten: u16) -> RawReading {
    RawReading { ranges: vec![mm; 360], intensities: vec![inten; 360], rpm }
}

fn sample_record(n: usize) -> ScanRecord {
    let mut ranges: Vec<u32> = Vec::new();
    let mut intensities: Vec<u32> = Vec::new();
    let mut i: u32 = 0;
    while (i as usize) < n {
        ranges.push((1.5f32 + i as f32).to_bits());
        intensities.push((2.0f32 * i as f32).to_bits());
        i += 1;
    }
    ScanRecord {
        stamp: Time { sec: 7, nsec: 123456789 },
        frame_id: b"laser".to_vec(),
        angle_min: ANGLE_MIN_BITS,
        angle_max: ANGLE_MAX_BITS,
        angle_increment: ANGLE_INCREMENT_BITS,
        time_increment: (1.0f32 / 1800.0).to_bits(),
        scan_time: 0.2f32.to_bits(),
        range_min: RANGE_MIN_BITS,
        range_max: RANGE_MAX_BITS,
        ranges,
        intensities,
    }
}

fn assert_records_equal(a: &ScanRecord, b: &ScanRecord) {
    assert_eq!(a.stamp.sec, b.stamp.sec);
    assert_eq!(a.stamp.nsec, b.stamp.nsec);
    assert_eq!(a.frame_id, b.frame_id);
    assert_eq!(a.angle_min, b.angle_min);
    assert_eq!(a.angle_max, b.angle_max);
    assert_eq!(a.angle_increment, b.angle_increment);
    assert_eq!(a.time_increment, b.time_increment);
    assert_eq!(a.scan_time, b.scan_time);
    assert_eq!(a.range_min, b.range_min);
    assert_eq!(a.range_max, b.range_max);
    assert_eq!(a.ranges, b.ranges);
    assert_eq!(a.intensities, b.intensities);
}

#[test]
fn constants_match_float_arithmetic() {
    let pi = std::f32::consts::PI;
    assert_eq!(ANGLE_MIN_BITS, 0.0f32.to_bits());
    assert_eq!(ANGLE_INCREMENT_BITS, (2.0 * pi / 360.0).to_bits());
    assert_eq!(ANGLE_MAX_BITS, (2.0 * pi - 2.0 * pi / 360.0).to_bits());
    assert_eq!(RANGE_MIN_BITS, 0.12f32.to_bits());
    assert_eq!(RANGE_MAX_BITS, 3.5f32.to_bits());
}

#[test]
fn millimeters_convert_like_float_division() {
    let cases: [u16; 16] = [0, 1, 2, 3, 7, 119, 120, 999, 1000, 1001, 1500, 2047, 3500, 9999, 12345, 65535];
    for mm in cases {
        assert_eq!(mm_to_meters_bits(mm), (mm as f32 / 1000.0).to_bits());
    }
}

#[test]
fn millimeter_scenarios() {
    assert_eq!(f32::from_bits(mm_to_meters_bits(1500)), 1.5);
    assert_eq!(f32::from_bits(mm_to_meters_bits(0)), 0.0);
}

#[test]
fn intensities_convert_like_float_casts() {
    let cases: [u16; 8] = [0, 1, 2, 50, 255, 1023, 40000, 65535];
    for v in cases {
        assert_eq!(intensity_to_bits(v), (v as f32).to_bits());
    }
}

#[test]
fn timing_matches_float_derivation() {
    let cases: [u16; 9] = [1, 7, 200, 299, 300, 301, 600, 1800, 65535];
    for rpm in cases {
        let (ti, st) = timing_bits(rpm);
        let f = 1.0f32 / (rpm as f32 * 6.0);
        assert_eq!(ti, f.to_bits());
        assert_eq!(st, (f * 360.0).to_bits());
    }
}

#[test]
fn timing_scenario_at_300_rpm() {
    let (ti, st) = timing_bits(300);
    assert_eq!(f32::from_bits(ti), 1.0 / 1800.0);
    assert_eq!(f32::from_bits(st), 0.2);
}

#[test]
fn zero_rpm_is_rejected() {
    let r = convert(&raw(0, 100, 5), Time { sec: 0, nsec: 0 });
    assert!(matches!(r, Err(ConvertError::ZeroRpm)));
    let ok = convert(&raw(1, 100, 5), Time { sec: 0, nsec: 0 });
    assert!(ok.is_ok());
}

#[test]
fn converted_record_fields() {
    let rec = convert(&raw(300, 1500, 7), Time { sec: 11, nsec: 22 }).unwrap();
    assert_eq!(rec.stamp.sec, 11);
    assert_eq!(rec.stamp.nsec, 22);
    assert_eq!(rec.frame_id, b"laser".to_vec());
    assert_eq!(rec.angle_min, ANGLE_MIN_BITS);
    assert_eq!(rec.angle_max, ANGLE_MAX_BITS);
    assert_eq!(rec.angle_increment, ANGLE_INCREMENT_BITS);
    assert_eq!(rec.range_min, RANGE_MIN_BITS);
    assert_eq!(rec.range_max, RANGE_MAX_BITS);
    assert_eq!(rec.ranges.len(), 360);
    assert_eq!(rec.intensities.len(), 360);
    assert_eq!(f32::from_bits(rec.ranges[0]), 1.5);
    assert_eq!(f32::from_bits(rec.intensities[359]), 7.0);
    let (ti, st) = timing_bits(300);
    assert_eq!(rec.time_increment, ti);
    assert_eq!(rec.scan_time, st);
}

#[test]
fn frame_identifier_is_laser() {
    assert_eq!(frame_id_vec(), b"laser".to_vec());
}

#[test]
fn round_trip_empty_one_and_full() {
    for n in [0usize, 1, 360] {
        let rec = sample_record(n);
        let bytes = encode(&rec);
        let back = decode(&bytes).expect("round trip must decode");
        assert_records_equal(&rec, &back);
    }
}

#[test]
fn round_trip_empty_frame_id() {
    let mut rec = sample_record(3);
    rec.frame_id = Vec::new();
    let bytes = encode(&rec);
    let back = decode(&bytes).expect("round trip must decode");
    assert_records_equal(&rec, &back);
}

#[test]
fn end_to_end_uniform_revolution() {
    let rec = convert(&raw(300, 1000, 50), Time { sec: 1, nsec: 2 }).unwrap();
    let bytes = encode(&rec);
    let back = decode(&bytes).expect("decode");
    assert_eq!(back.ranges.len(), 360);
    assert_eq!(back.intensities.len(), 360);
    for b in &back.ranges {
        assert_eq!(f32::from_bits(*b), 1.0);
    }
    for b in &back.intensities {
        assert_eq!(f32::from_bits(*b), 50.0);
    }
    let inc = f32::from_bits(back.angle_increment);
    assert!((inc - 0.01745).abs() < 1e-5);
}

#[test]
fn wire_layout_is_byte_exact() {
    let rec = ScanRecord {
        stamp: Time { sec: 1, nsec: 2 },
        frame_id: b"laser".to_vec(),
        angle_min: 0x11121314,
        angle_max: 0x21222324,
        angle_increment: 0x31323334,
        time_increment: 0x41424344,
        scan_time: 0x51525354,
        range_min: 0x61626364,
        range_max: 0x71727374,
        ranges: vec![0x01020304],
        intensities: Vec::new(),
    };
    let bytes = encode(&rec);
    let expected: Vec<u8> = vec![
        0x00, 0x01, 0x00, 0x00, // encapsulation: little-endian identifier
        0x01, 0x00, 0x00, 0x00, // sec
        0x02, 0x00, 0x00, 0x00, // nsec
        0x06, 0x00, 0x00, 0x00, // string length, terminator included
        0x6C, 0x61, 0x73, 0x65, 0x72, 0x00, // "laser" and terminator
        0x00, 0x00, // padding to the next four-byte boundary
        0x14, 0x13, 0x12, 0x11, // angle_min
        0x24, 0x23, 0x22, 0x21, // angle_max
        0x34, 0x33, 0x32, 0x31, // angle_increment
        0x44, 0x43, 0x42, 0x41, // time_increment
        0x54, 0x53, 0x52, 0x51, // scan_time
        0x64, 0x63, 0x62, 0x61, // range_min
        0x74, 0x73, 0x72, 0x71, // range_max
        0x01, 0x00, 0x00, 0x00, // range count
        0x04, 0x03, 0x02, 0x01, // the one range sample
        0x00, 0x00, 0x00, 0x00, // intensity count
    ];
    assert_eq!(bytes, expected);
}

#[test]
fn decoder_rejects_damaged_messages() {
    let rec = sample_record(2);
    let good = encode(&rec);
    assert!(decode(&good).is_some());
    // wrong encapsulation identifier
    let mut bad = good.clone();
    bad[1] = 0x00;
    assert!(decode(&bad).is_none());
    // truncated message
    let mut short = good.clone();
    short.pop();
    assert!(decode(&short).is_none());
    // trailing garbage
    let mut long = good.clone();
    long.push(0);
    assert!(decode(&long).is_none());
    // broken string terminator
    let mut nul = good.clone();
    nul[16 + 5] = 0x7A;
    assert!(decode(&nul).is_none());
    // dirty padding
    let mut pad = good.clone();
    pad[16 + 6] = 0x7A;
    assert!(decode(&pad).is_none());
    // empty input
    assert!(decode(&Vec::new()).is_none());
}

#[test]
fn publisher_steps_through_one_cycle() {
    let rd = raw(300, 1000, 50);
    let stamp = Time { sec: 3, nsec: 4 };
    let (s, a) = step(LoopState::Running, LoopEvent::Acquired(rd.clone(), stamp));
    assert_eq!(s, LoopState::Running);
    match a {
        LoopAction::Publish(b) => {
            let rec = convert(&rd, stamp).unwrap();
            assert_eq!(b, encode(&rec));
        }
        _ => panic!("expected a publish action"),
    }
    let (s, a) = step(LoopState::Running, LoopEvent::Sent);
    assert_eq!(s, LoopState::Running);
    assert!(matches!(a, LoopAction::Pause(d) if d == PUBLISH_DELAY_MS));
    let (s, a) = step(LoopState::Running, LoopEvent::Slept);
    assert_eq!(s, LoopState::Running);
    assert!(matches!(a, LoopAction::Acquire));
}

#[test]
fn publisher_halts_on_failure_and_stays_halted() {
    let (s, a) = step(LoopState::Running, LoopEvent::Failed);
    assert_eq!(s, LoopState::Terminated);
    assert!(matches!(a, LoopAction::Halt));
    let (s, a) = step(LoopState::Running, LoopEvent::Acquired(raw(0, 1, 1), Time { sec: 0, nsec: 0 }));
    assert_eq!(s, LoopState::Terminated);
    assert!(matches!(a, LoopAction::Halt));
    let (s, a) = step(LoopState::Terminated, LoopEvent::Sent);
    assert_eq!(s, LoopState::Terminated);
    assert!(matches!(a, LoopAction::Halt));
}

#[test]
fn fixed_configuration() {
    assert_eq!(topic_key(), "turtle/lidar");
    assert_eq!(default_port(), "/dev/ttyUSB0");
    assert_eq!(DEFAULT_BAUD, 230400);
    assert_eq!(PUBLISH_DELAY_MS, 40);
}

#[test]
fn angle_span_closes_the_revolution() {
    let lo = f32::from_bits(ANGLE_MIN_BITS) + 359.0 * f32::from_bits(ANGLE_INCREMENT_BITS);
    let hi = f32::from_bits(ANGLE_MAX_BITS);
    assert!((hi - lo).abs() < 1e-5);
}

#[test]
fn scan_time_is_increment_times_count() {
    for rpm in [1u16, 60, 300, 4000] {
        let (ti, st) = timing_bits(rpm);
        assert_eq!((f32::from_bits(ti) * 360.0).to_bits(), st);
    }
}
