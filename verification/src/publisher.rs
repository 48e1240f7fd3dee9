//! The publish loop's decision logic and the bridge's fixed configuration.
//!
//! The loop itself performs outside work — reading the device, sending on
//! the bus, sleeping — so it lives with the I/O shell.  Every decision it
//! takes is the verified `step` function here: from the current state and
//! the last event it returns the next state and the action to perform, so
//! the acquire, convert, encode, send, pause cycle and its fail-stop policy
//! are pinned down by contract.

use vstd::prelude::*;

use crate::codec::{encode, wire_bytes};
use crate::scan::{convert, spec_convert, RawReading, Time};

verus! {

/// The fixed inter-publish delay, in milliseconds.
pub const PUBLISH_DELAY_MS: u64 = 40;

/// The fixed default baud rate of the device link.
pub const DEFAULT_BAUD: u32 = 230400;

/// The topic the encoded scans are published on.
pub fn topic_key() -> (r: &'static str)
    ensures
        r@ == "turtle/lidar"@,
{
    "turtle/lidar"
}

/// The default serial port of the device link.
pub fn default_port() -> (r: &'static str)
    ensures
        r@ == "/dev/ttyUSB0"@,
{
    "/dev/ttyUSB0"
}

/// The loop is either in its steady publishing cycle or stopped for good:
/// the first unrecovered failure terminates it.
#[derive(Clone, Copy, Debug, PartialEq, Eq, Structural)]
pub enum LoopState {
    Running,
    Terminated,
}

/// What the outside world reports back to the loop.
#[derive(Clone, Debug)]
pub enum LoopEvent {
    /// A full revolution was read, with the wall clock at capture.
    Acquired(RawReading, Time),
    /// The last encoded scan was accepted by the bus.
    Sent,
    /// The fixed delay elapsed.
    Slept,
    /// Acquisition or sending failed.
    Failed,
}

/// What the loop asks the outside world to do next.
#[derive(Clone, Debug)]
pub enum LoopAction {
    /// Read one revolution from the device.
    Acquire,
    /// Send these bytes on the scan topic.
    Publish(Vec<u8>),
    /// Sleep for this many milliseconds.
    Pause(u64),
    /// Stop the process.
    Halt,
}

/// One decision of the publisher loop.  In the steady state a fresh
/// reading is converted and encoded for sending, a send is followed by the
/// fixed pause, a pause by the next acquisition; any failure — including a
/// reading with a stopped motor — terminates the loop.
pub fn step(state: LoopState, event: LoopEvent) -> (r: (LoopState, LoopAction))
    requires
        event matches LoopEvent::Acquired(raw, stamp) ==> raw.wf(),
    ensures
        state is Terminated ==> r.0 is Terminated && r.1 is Halt,
        state is Running ==> (event matches LoopEvent::Acquired(raw, stamp) ==> ((raw.rpm == 0
            ==> r.0 is Terminated && r.1 is Halt) && (raw.rpm != 0 ==> r.0 is Running && (r.1
            matches LoopAction::Publish(b) && b@ == wire_bytes(spec_convert(raw, stamp)))))),
        state is Running && event is Sent ==> r.0 is Running && (r.1 matches LoopAction::Pause(d)
            && d == PUBLISH_DELAY_MS),
        state is Running && event is Slept ==> r.0 is Running && r.1 is Acquire,
        state is Running && event is Failed ==> r.0 is Terminated && r.1 is Halt,
{
    match state {
        LoopState::Terminated => (LoopState::Terminated, LoopAction::Halt),
        LoopState::Running => match event {
            LoopEvent::Acquired(raw, stamp) => match convert(&raw, stamp) {
                Ok(rec) => (LoopState::Running, LoopAction::Publish(encode(&rec))),
                Err(_) => (LoopState::Terminated, LoopAction::Halt),
            },
            LoopEvent::Sent => (LoopState::Running, LoopAction::Pause(PUBLISH_DELAY_MS)),
            LoopEvent::Slept => (LoopState::Running, LoopAction::Acquire),
            LoopEvent::Failed => (LoopState::Terminated, LoopAction::Halt),
        },
    }
}

} // verus!
