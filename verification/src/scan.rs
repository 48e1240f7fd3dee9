//! The raw device reading, the normalized scan record, and the verified
//! unit conversion between them.
//!
//! A raw reading is one revolution of millimeter distances and device-count
//! intensities plus the motor speed.  The scan record carries the angular
//! and timing geometry of that revolution; every real-valued field is an
//! IEEE-754 single-precision bit pattern, so the record is plain data and
//! the conversion can be verified exactly.

use vstd::arithmetic::power2::{
    lemma2_to64, lemma2_to64_rest, lemma_pow2_adds, lemma_pow2_pos, lemma_pow2_strictly_increases,
    pow2,
};
use vstd::prelude::*;

use crate::fbits::{f32_val_scaled, lemma_ratio_bits_exact, pow2_u64, ratio_bits, round_ratio};

verus! {

/// A wall-clock instant: seconds and nanoseconds since the epoch.
#[derive(Clone, Copy, Debug, PartialEq, Eq, Structural)]
pub struct Time {
    pub sec: u32,
    pub nsec: u32,
}

/// One full revolution of raw samples from the rangefinder: distances in
/// millimeters and intensities in device counts, one per degree, plus the
/// motor speed in revolutions per minute.
#[derive(Clone, Debug)]
pub struct RawReading {
    pub ranges: Vec<u16>,
    pub intensities: Vec<u16>,
    pub rpm: u16,
}

impl RawReading {
    /// Both sample sequences cover exactly one revolution.
    pub open spec fn wf(&self) -> bool {
        self.ranges@.len() == crate::SAMPLES_PER_REV
            && self.intensities@.len() == crate::SAMPLES_PER_REV
    }
}

/// Why a raw reading was rejected.
#[derive(Clone, Copy, Debug, PartialEq, Eq, Structural)]
pub enum ConvertError {
    /// A stopped motor has no per-sample timing; the reading is rejected.
    ZeroRpm,
}

/// Bit pattern of `0.0f32`: the angle of the first sample.
pub const ANGLE_MIN_BITS: u32 = 0;

/// Bit pattern of `2 * pi / 360` in single precision: one degree in radians.
pub const ANGLE_INCREMENT_BITS: u32 = 0x3C8EFA35;

/// Bit pattern of `2 * pi - 2 * pi / 360` in single precision: the angle of
/// the last sample, one step short of the full turn.
pub const ANGLE_MAX_BITS: u32 = 0x40C880E1;

/// Bit pattern of `0.12f32`: the shortest distance the device can report,
/// in meters.
pub const RANGE_MIN_BITS: u32 = 0x3DF5C28F;

/// Bit pattern of `3.5f32`: the longest distance the device can report, in
/// meters.
pub const RANGE_MAX_BITS: u32 = 0x40600000;

/// The fixed name of the sensor's reference frame, as bytes: `laser`.
pub open spec fn frame_id_seq() -> Seq<u8> {
    seq![0x6Cu8, 0x61u8, 0x73u8, 0x65u8, 0x72u8]
}

/// Build the frame identifier.
pub fn frame_id_vec() -> (r: Vec<u8>)
    ensures
        r@ == frame_id_seq(),
{
    let mut v: Vec<u8> = Vec::new();
    v.push(0x6C);
    v.push(0x61);
    v.push(0x73);
    v.push(0x65);
    v.push(0x72);
    proof {
        assert(v@ =~= frame_id_seq());
    }
    v
}

/// Meters from millimeters: the bit pattern of `mm as f32 / 1000.0`.
pub open spec fn meters_bits(mm: u16) -> u32 {
    if mm == 0 {
        0u32
    } else {
        ratio_bits(mm as nat, 1000)
    }
}

/// The bit pattern of `v as f32`; every 16-bit count is exact in single
/// precision.
pub open spec fn intensity_bits(v: u16) -> u32 {
    if v == 0 {
        0u32
    } else {
        ratio_bits(v as nat, 1)
    }
}

/// The bit pattern of `1.0f32 / (rpm as f32 * 6.0)`: the time one sample
/// takes at `rpm` revolutions per minute, with 360 samples per revolution.
pub open spec fn time_increment_bits(rpm: u16) -> u32 {
    ratio_bits(1, 6 * rpm as nat)
}

/// The bit pattern of `f32::from_bits(b) * 360.0` for a normal positive
/// `b` below one: the significand times 360, rescaled by the exponent and
/// rounded once more.
pub open spec fn f32_times_360(b: u32) -> u32 {
    let q = ((b & 0x7FFFFF) + 0x800000) as nat;
    let be = (b >> 23) as nat;
    if be <= 150 {
        ratio_bits(360 * q, pow2((150 - be) as nat))
    } else {
        0u32
    }
}

/// The bit pattern of the whole-revolution duration: the per-sample time
/// multiplied by the sample count, exactly as a single-precision multiply.
pub open spec fn scan_time_bits(rpm: u16) -> u32 {
    f32_times_360(time_increment_bits(rpm))
}

/// Convert one raw millimeter sample.  The recorded value is within half
/// an ulp of `mm / 1000` meters (both sides of the bound carry a factor
/// of `2^149`).
pub fn mm_to_meters_bits(mm: u16) -> (r: u32)
    ensures
        r == meters_bits(mm),
        2 * f32_val_scaled(r) * 1000 <= 2 * (mm as nat) * pow2(149) + 1000 * pow2(
            ((((r >> 23) as nat) - 1) as nat),
        ),
        2 * (mm as nat) * pow2(149) <= 2 * f32_val_scaled(r) * 1000 + 1000 * pow2(
            ((((r >> 23) as nat) - 1) as nat),
        ),
{
    if mm == 0 {
        0
    } else {
        round_ratio(mm as u64, 1000)
    }
}

/// Convert one raw intensity sample.
pub fn intensity_to_bits(v: u16) -> (r: u32)
    ensures
        r == intensity_bits(v),
{
    if v == 0 {
        0
    } else {
        round_ratio(v as u64, 1)
    }
}

/// Compute the per-sample time and the whole-revolution duration for a
/// spinning motor.  The per-sample time is within half an ulp of
/// `1 / (6 rpm)` seconds (both sides of the bound carry a factor of
/// `2^149`).
pub fn timing_bits(rpm: u16) -> (r: (u32, u32))
    requires
        rpm >= 1,
    ensures
        r.0 == time_increment_bits(rpm),
        r.1 == scan_time_bits(rpm),
        2 * f32_val_scaled(r.0) * (6 * rpm as nat) <= 2 * pow2(149) + (6 * rpm as nat) * pow2(
            ((((r.0 >> 23) as nat) - 1) as nat),
        ),
        2 * pow2(149) <= 2 * f32_val_scaled(r.0) * (6 * rpm as nat) + (6 * rpm as nat) * pow2(
            ((((r.0 >> 23) as nat) - 1) as nat),
        ),
{
    let ti = round_ratio(1, 6 * (rpm as u64));
    let be: u32 = ti >> 23;
    proof {
        assert(ti & 0x7FFFFF < 0x800000) by (bit_vector);
    }
    let q: u32 = (ti & 0x7FFFFF) + 0x800000;
    proof {
        lemma2_to64();
        lemma2_to64_rest();
        let beN = (ti >> 23) as nat;
        lemma_pow2_adds(24, beN);
        lemma_pow2_adds(44, beN);
        lemma_pow2_adds(25, 19);
        // 6 rpm >= 6 > 2^2, so 2^24 * 2^be < 2^22 * d * 2^be <= 2^150,
        // which caps the biased exponent
        assert(pow2(24 + beN) <= pow2(150)) by (nonlinear_arith)
            requires
                pow2(22) * ((6 * (rpm as u64)) as nat) * pow2(beN) <= 1 * pow2(150),
                rpm >= 1,
                pow2(24 + beN) == pow2(24) * pow2(beN),
                pow2(24) == 0x1000000,
                pow2(22) == 0x400000,
        ;
        if 24 + beN > 150 {
            lemma_pow2_strictly_increases(150, 24 + beN);
            assert(false);
        }
        // 6 rpm < 2^19, so 2^150 < 2^25 * d * 2^be < 2^44 * 2^be, which
        // floors the biased exponent
        assert(pow2(150) < pow2(44 + beN)) by (nonlinear_arith)
            requires
                1 * pow2(150) < pow2(25) * ((6 * (rpm as u64)) as nat) * pow2(beN),
                rpm <= 0xFFFF,
                pow2(44 + beN) == pow2(25) * pow2(19) * pow2(beN),
                pow2(19) == 0x80000,
                pow2(25) == 0x2000000,
        ;
        if 150 >= 44 + beN {
            if 150 > 44 + beN {
                lemma_pow2_strictly_increases(44 + beN, 150);
            }
            assert(false);
        }
        assert(107 <= beN <= 126);
        if (150 - beN) < 60 {
            lemma_pow2_strictly_increases((150 - beN) as nat, 60);
        }
    }
    let k: u32 = 150 - be;
    let den: u64 = pow2_u64(k as u64);
    let st = round_ratio(360 * (q as u64), den);
    (ti, st)
}

/// The normalized laser-scan message for one revolution.  The `u32` fields
/// and the two sample vectors hold IEEE-754 single-precision bit patterns.
#[derive(Clone, Debug)]
pub struct ScanRecord {
    pub stamp: Time,
    pub frame_id: Vec<u8>,
    pub angle_min: u32,
    pub angle_max: u32,
    pub angle_increment: u32,
    pub time_increment: u32,
    pub scan_time: u32,
    pub range_min: u32,
    pub range_max: u32,
    pub ranges: Vec<u32>,
    pub intensities: Vec<u32>,
}

/// The mathematical image of a scan record.
#[verifier::ext_equal]
pub ghost struct ScanView {
    pub sec: u32,
    pub nsec: u32,
    pub frame_id: Seq<u8>,
    pub angle_min: u32,
    pub angle_max: u32,
    pub angle_increment: u32,
    pub time_increment: u32,
    pub scan_time: u32,
    pub range_min: u32,
    pub range_max: u32,
    pub ranges: Seq<u32>,
    pub intensities: Seq<u32>,
}

impl ScanView {
    /// Every length fits the 32-bit counters of the wire format (the
    /// string counter also covers its terminating byte).
    pub open spec fn wf(self) -> bool {
        self.frame_id.len() + 1 < 0x1_0000_0000
            && self.ranges.len() < 0x1_0000_0000
            && self.intensities.len() < 0x1_0000_0000
    }
}

impl View for ScanRecord {
    type V = ScanView;

    open spec fn view(&self) -> ScanView {
        ScanView {
            sec: self.stamp.sec,
            nsec: self.stamp.nsec,
            frame_id: self.frame_id@,
            angle_min: self.angle_min,
            angle_max: self.angle_max,
            angle_increment: self.angle_increment,
            time_increment: self.time_increment,
            scan_time: self.scan_time,
            range_min: self.range_min,
            range_max: self.range_max,
            ranges: self.ranges@,
            intensities: self.intensities@,
        }
    }
}

/// What conversion yields on a reading with a spinning motor.
pub open spec fn spec_convert(raw: RawReading, stamp: Time) -> ScanView {
    ScanView {
        sec: stamp.sec,
        nsec: stamp.nsec,
        frame_id: frame_id_seq(),
        angle_min: ANGLE_MIN_BITS,
        angle_max: ANGLE_MAX_BITS,
        angle_increment: ANGLE_INCREMENT_BITS,
        time_increment: time_increment_bits(raw.rpm),
        scan_time: scan_time_bits(raw.rpm),
        range_min: RANGE_MIN_BITS,
        range_max: RANGE_MAX_BITS,
        ranges: raw.ranges@.map_values(|s: u16| meters_bits(s)),
        intensities: raw.intensities@.map_values(|s: u16| intensity_bits(s)),
    }
}

/// Turn one raw reading into a scan record.  A reading whose motor is
/// stopped has no finite timing and is rejected; every other well-formed
/// reading converts.
pub fn convert(raw: &RawReading, stamp: Time) -> (r: Result<ScanRecord, ConvertError>)
    requires
        raw.wf(),
    ensures
        raw.rpm == 0 <==> r is Err,
        r matches Err(e) ==> e == ConvertError::ZeroRpm,
        r matches Ok(rec) ==> rec@ == spec_convert(*raw, stamp) && rec@.wf(),
{
    if raw.rpm == 0 {
        return Err(ConvertError::ZeroRpm);
    }
    let (time_increment, scan_time) = timing_bits(raw.rpm);
    let mut ranges: Vec<u32> = Vec::new();
    let mut i: usize = 0;
    while i < raw.ranges.len()
        invariant
            i <= raw.ranges@.len(),
            ranges@.len() == i,
            forall|j: int| 0 <= j < i ==> ranges@[j] == meters_bits(raw.ranges@[j]),
        decreases raw.ranges@.len() - i,
    {
        let b = mm_to_meters_bits(raw.ranges[i]);
        ranges.push(b);
        i = i + 1;
    }
    let mut intensities: Vec<u32> = Vec::new();
    let mut k: usize = 0;
    while k < raw.intensities.len()
        invariant
            k <= raw.intensities@.len(),
            intensities@.len() == k,
            forall|j: int| 0 <= j < k ==> intensities@[j] == intensity_bits(raw.intensities@[j]),
        decreases raw.intensities@.len() - k,
    {
        let b = intensity_to_bits(raw.intensities[k]);
        intensities.push(b);
        k = k + 1;
    }
    let rec = ScanRecord {
        stamp,
        frame_id: frame_id_vec(),
        angle_min: ANGLE_MIN_BITS,
        angle_max: ANGLE_MAX_BITS,
        angle_increment: ANGLE_INCREMENT_BITS,
        time_increment,
        scan_time,
        range_min: RANGE_MIN_BITS,
        range_max: RANGE_MAX_BITS,
        ranges,
        intensities,
    };
    proof {
        assert(rec@.ranges =~= spec_convert(*raw, stamp).ranges);
        assert(rec@.intensities =~= spec_convert(*raw, stamp).intensities);
        assert(rec@ =~= spec_convert(*raw, stamp));
    }
    Ok(rec)
}

/// Law: the angular span of a converted record closes the revolution —
/// `angle_max` differs from `angle_min + 359 * angle_increment` by less
/// than `2^-21` radians.  The values here carry a factor of `2^149`, so
/// the bound reads `2^128`.
pub proof fn lemma_angle_span(raw: RawReading, stamp: Time)
    requires
        raw.wf(),
    ensures
        ({
            let rec = spec_convert(raw, stamp);
            let lo = f32_val_scaled(rec.angle_min) + 359 * f32_val_scaled(rec.angle_increment);
            &&& lo <= f32_val_scaled(rec.angle_max)
            &&& f32_val_scaled(rec.angle_max) - lo < pow2(128)
        }),
{
    lemma2_to64();
    lemma_pow2_adds(8, 120);
    lemma_pow2_pos(120);
    assert(ANGLE_MAX_BITS >> 23 == 129 && (ANGLE_MAX_BITS & 0x7FFFFF) == 4751585
        && ANGLE_INCREMENT_BITS >> 23 == 121 && (ANGLE_INCREMENT_BITS & 0x7FFFFF) == 981557)
        by (bit_vector);
    assert(f32_val_scaled(ANGLE_MAX_BITS) == 13140193 * (256 * pow2(120)));
    assert(f32_val_scaled(ANGLE_INCREMENT_BITS) == 9370165 * pow2(120));
    assert(f32_val_scaled(ANGLE_MIN_BITS) == 0);
}

/// Law: for every reading with a spinning motor, the converted record's
/// whole-revolution duration is exactly its per-sample time multiplied by
/// the 360 samples per revolution, as a single-precision product.
pub proof fn lemma_scan_time_law(raw: RawReading, stamp: Time)
    requires
        raw.wf(),
        raw.rpm >= 1,
    ensures
        ({
            let rec = spec_convert(raw, stamp);
            rec.scan_time == f32_times_360(rec.time_increment)
        }),
{
}

/// Law: intensity conversion preserves the raw count exactly — the
/// recorded bit pattern denotes precisely `v`, with no rounding and no
/// scaling (the value here carries a factor of `2^149`).
pub proof fn lemma_intensity_exact(v: u16)
    ensures
        f32_val_scaled(intensity_bits(v)) == (v as nat) * pow2(149),
{
    if v != 0 {
        lemma_ratio_bits_exact(v as nat);
    }
}

} // verus!
