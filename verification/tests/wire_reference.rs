//! Holds the library's encoder against the reference common-data-
//! representation serializer: the bytes must agree exactly.

use lidar_bridge::codec::encode;
use lidar_bridge::scan::{convert, RawReading, ScanRecord, Time};
use serde::ser::{Serialize, SerializeStruct, Serializer};

struct RefTime {
    sec: u32,
    nsec: u32,
}

struct RefHeader {
    stamp: RefTime,
    frame_id: String,
}

struct RefScan {
    header: RefHeader,
    angle_min: f32,
    angle_max: f32,
    angle_increment: f32,
    time_increment: f32,
    scan_time: f32,
    range_min: f32,
    range_max: f32,
    ranges: Vec<f32>,
    intensities: Vec<f32>,
}

impl Serialize for RefTime {
    fn serialize<S: Serializer>(&self, s: S) -> Result<S::Ok, S::Error> {
        let mut st = s.serialize_struct("Time", 2)?;
        st.serialize_field("sec", &self.sec)?;
        st.serialize_field("nsec", &self.nsec)?;
        st.end()
    }
}

impl Serialize for RefHeader {
    fn serialize<S: Serializer>(&self, s: S) -> Result<S::Ok, S::Error> {
        let mut st = s.serialize_struct("Header", 2)?;
        st.serialize_field("stamp", &self.stamp)?;
        st.serialize_field("frame_id", &self.frame_id)?;
        st.end()
    }
}

impl Serialize for RefScan {
    fn serialize<S: Serializer>(&self, s: S) -> Result<S::Ok, S::Error> {
        let mut st = s.serialize_struct("LaserScan", 10)?;
        st.serialize_field("header", &self.header)?;
        st.serialize_field("angle_min", &self.angle_min)?;
        st.serialize_field("angle_max", &self.angle_max)?;
        st.serialize_field("angle_increment", &self.angle_increment)?;
        st.serialize_field("time_increment", &self.time_increment)?;
        st.serialize_field("scan_time", &self.scan_time)?;
        st.serialize_field("range_min", &self.range_min)?;
        st.serialize_field("range_max", &self.range_max)?;
        st.serialize_field("ranges", &self.ranges)?;
        st.serialize_field("intensities", &self.intensities)?;
        st.end()
    }
}

fn reference_of(rec: &ScanRecord) -> RefScan {
    RefScan {
        header: RefHeader {
            stamp: RefTime { sec: rec.stamp.sec, nsec: rec.stamp.nsec },
            frame_id: String::from_utf8(rec.frame_id.clone()).unwrap(),
        },
        angle_min: f32::from_bits(rec.angle_min),
        angle_max: f32::from_bits(rec.angle_max),
        angle_increment: f32::from_bits(rec.angle_increment),
        time_increment: f32::from_bits(rec.time_increment),
        scan_time: f32::from_bits(rec.scan_time),
        range_min: f32::from_bits(rec.range_min),
        range_max: f32::from_bits(rec.range_max),
        ranges: rec.ranges.iter().map(|b| f32::from_bits(*b)).collect(),
        intensities: rec.intensities.iter().map(|b| f32::from_bits(*b)).collect(),
    }
}

#[test]
fn encoding_matches_reference_serializer() {
    let mut ranges: Vec<u16> = Vec::new();
    let mut intensities: Vec<u16> = Vec::new();
    let mut i: u16 = 0;
    while (i as usize) < 360 {
        ranges.push(i.wrapping_mul(181).wrapping_add(3));
        intensities.push(i.wrapping_mul(257).wrapping_add(11));
        i += 1;
    }
    let raw = RawReading { ranges, intensities, rpm: 287 };
    let rec = convert(&raw, Time { sec: 1700000000, nsec: 987654321 }).unwrap();
    let ours = encode(&rec);
    let reference =
        cdr::serialize::<_, _, cdr::CdrLe>(&reference_of(&rec), cdr::Infinite).unwrap();
    assert_eq!(ours, reference);
}

#[test]
fn full_pipeline_matches_reference_serializer() {
    let raw = RawReading {
        ranges: vec![1000u16; 360],
        intensities: vec![50u16; 360],
        rpm: 300,
    };
    let rec = convert(&raw, Time { sec: 5, nsec: 6 }).unwrap();
    let ours = encode(&rec);
    let reference =
        cdr::serialize::<_, _, cdr::CdrLe>(&reference_of(&rec), cdr::Infinite).unwrap();
    assert_eq!(ours, reference);
}
