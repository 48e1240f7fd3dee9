//! Verified core of a spinning-lidar to message-bus bridge.
//!
//! The library models one revolution of raw sensor samples, converts it into
//! a normalized laser-scan record, and encodes that record into the
//! little-endian, length-prefixed wire format that bus consumers depend on.
//! Floating-point fields of the outgoing record are represented by their
//! IEEE-754 single-precision bit patterns, which the library computes with
//! verified integer arithmetic.

use vstd::prelude::*;

pub mod fbits;
pub mod scan;
pub mod codec;
pub mod publisher;

verus! {

/// Number of distance/intensity samples in one full revolution of the scanner.
pub const SAMPLES_PER_REV: usize = 360;

} // verus!
