//! The records that the monitor correlates.

use vstd::prelude::*;

verus! {

/// One frame of a JVM stack, innermost first.
#[derive(Debug, Clone)]
pub struct JvmFrame {
    pub bci: i64,
    pub method_id: u64,
    pub symbol: String,
}

/// A JVM stack sample, taken when a thread received the profiling signal.
#[derive(Debug, Clone)]
pub struct JvmEvent {
    pub timestamp: u64,
    pub monotonic_timestamp_ns: u64,
    pub tid: u32,
    pub thread_name: String,
    pub frames: Vec<JvmFrame>,
}

/// A completed off-CPU interval of one thread, as user space reports it.
#[derive(Debug, Clone)]
pub struct BpfEvent {
    pub timestamp: u64,
    pub pid: u32,
    pub host_tid: u32,
    /// Thread ID as seen by the target JVM, or `None` if the host-to-target
    /// PID namespace translation could not be completed.
    pub tid: Option<u32>,
    pub comm: String,
    /// Length of the interval in microseconds.
    pub duration_us: u64,
    pub start_monotonic_ns: u64,
    pub end_monotonic_ns: u64,
    pub signal_result: i64,
    pub stacktrace: Vec<(u64, String)>,
}

} // verus!
