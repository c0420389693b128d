//! What the readers of the per-CPU rings report.

use vstd::prelude::*;

use crate::common;
use crate::common::{BlockEvent, BLOCK_EVENT_SIZE};

verus! {

/// How many records a reader takes from its ring at a time.
pub const PERF_EVENTS_PER_READ: usize = 64;

/// How long a reader pauses when its ring was empty, in milliseconds.
pub const PERF_READER_HEARTBEAT_INTERVAL_MS: u64 = 50;

/// What a reader reports.
#[derive(Debug)]
pub enum PerfReaderMessage {
    /// It has read from its ring.
    Progress {
        cpu: u32,
        /// Every record of an interval that ended before this time has been
        /// reported; zero if that is not known.
        observed_through_ns: u64,
        events: Vec<BlockEvent>,
        /// How many records were lost because the ring was full.
        lost: u64,
    },
    /// It could not read and has given up.
    Failed { cpu: u32, error: String },
}

/// What a reader does after it has reported.
#[derive(Debug, Clone, Copy, PartialEq, Eq, Structural)]
pub enum AfterRead {
    /// It pauses before it reads again.
    Pause,
    /// It lets others go first and reads again.
    Yield,
    /// It ends: nobody receives its reports, or it could not read.
    End,
}

/// Events are those that records hold, one for each.
pub open spec fn hold_events(records: Seq<Vec<u8>>, events: Seq<BlockEvent>) -> bool {
    &&& events.len() == records.len()
    &&& forall|i: int|
        0 <= i < records.len() ==> common::holds_event((#[trigger] records[i])@, events[i])
}

/// What a reader reports of a read.
///
/// The time is taken before the read. If the read has not filled the buffers,
/// it has drained the ring: every record whose interval ended before that time
/// is reported with it or was before it. Otherwise nothing is known of how far
/// the reader has come.
pub fn progress(cpu: u32, observed_through_ns: u64, records: &Vec<Vec<u8>>, lost: u64) -> (message:
    PerfReaderMessage)
    requires
        forall|i: int|
            0 <= i < records@.len() ==> (#[trigger] records@[i])@.len() >= BLOCK_EVENT_SIZE,
    ensures
        message matches PerfReaderMessage::Progress {
            cpu: of,
            observed_through_ns: through_ns,
            events,
            lost: missing,
        } && {
            &&& of == cpu
            &&& through_ns == (if records@.len() < PERF_EVENTS_PER_READ {
                observed_through_ns
            } else {
                0
            })
            &&& hold_events(records@, events@)
            &&& missing == lost
            &&& records@.len() < 64 ==> through_ns == observed_through_ns
            &&& records@.len() >= 64 ==> through_ns == 0
        },
{
    let mut events: Vec<BlockEvent> = Vec::new();
    let mut i: usize = 0;
    while i < records.len()
        invariant
            0 <= i <= records@.len(),
            events@.len() == i,
            forall|k: int|
                0 <= k < records@.len() ==> (#[trigger] records@[k])@.len() >= BLOCK_EVENT_SIZE,
            forall|k: int|
                0 <= k < i ==> common::holds_event((#[trigger] records@[k])@, events@[k]),
        decreases records@.len() - i,
    {
        events.push(common::decode_block_event(records[i].as_slice()));
        i = i + 1;
    }
    let ring_was_drained = records.len() < PERF_EVENTS_PER_READ;
    PerfReaderMessage::Progress {
        cpu,
        observed_through_ns: if ring_was_drained {
            observed_through_ns
        } else {
            0
        },
        events,
        lost,
    }
}

/// What a reader does after a read, given how many records it got and whether
/// its report was received.
pub fn after_read(read: usize, received: bool) -> (next: AfterRead)
    ensures
        next == (if !received {
            AfterRead::End
        } else if read == 0 {
            AfterRead::Pause
        } else {
            AfterRead::Yield
        }),
{
    if !received {
        AfterRead::End
    } else if read == 0 {
        AfterRead::Pause
    } else {
        AfterRead::Yield
    }
}

/// What a reader reports of a read that failed, and what it does then: it ends.
pub fn read_failed(cpu: u32, error: String) -> (report: (PerfReaderMessage, AfterRead))
    ensures
        report == (PerfReaderMessage::Failed { cpu, error }, AfterRead::End),
{
    (PerfReaderMessage::Failed { cpu, error }, AfterRead::End)
}

/// Every record that was read is reported as an event, in the same order: none is left
/// out and none is added.
pub proof fn law_every_record_is_reported(
    records: Seq<Vec<u8>>,
    events: Seq<BlockEvent>,
    i: int,
)
    requires
        hold_events(records, events),
        0 <= i < records.len(),
        records[i]@.len() >= 72,
    ensures
        events.len() == records.len(),
        events[i].pid == records[i]@[0] + 0x100 * records[i]@[1] + 0x1_0000 * records[i]@[2]
            + 0x100_0000 * records[i]@[3],
        events[i].offtime == common::number_at(records[i]@, 40),
        events[i].t_start == common::number_at(records[i]@, 48),
        events[i].t_end == common::number_at(records[i]@, 56),
        common::is_signed_number_at(events[i].signal_result, records[i]@, 64),
{
    common::law_a_record_is_laid_out_in_order(records[i]@, events[i]);
}

} // verus!
