use jbm::common::BLOCK_EVENT_SIZE;
use jbm::reader::{
    after_read, progress, read_failed, AfterRead, PerfReaderMessage, PERF_EVENTS_PER_READ,
};

fn records(count: usize) -> Vec<Vec<u8>> {
    (0..count)
        .map(|number| {
            let mut record = vec![0; BLOCK_EVENT_SIZE];
            record[0] = number as u8;
            record
        })
        .collect()
}

#[test]
fn a_drained_ring_moves_the_watermark() {
    let PerfReaderMessage::Progress {
        cpu,
        observed_through_ns,
        events,
        lost,
    } = progress(3, 1_000, &records(63), 7)
    else {
        panic!();
    };
    assert_eq!((cpu, observed_through_ns, lost), (3, 1_000, 7));
    let pids: Vec<u32> = events.iter().map(|event| event.pid).collect();
    assert_eq!(pids, (0..63).collect::<Vec<u32>>());
}

#[test]
fn a_full_read_does_not_move_the_watermark() {
    let PerfReaderMessage::Progress {
        observed_through_ns,
        events,
        ..
    } = progress(3, 1_000, &records(PERF_EVENTS_PER_READ), 0)
    else {
        panic!();
    };
    assert_eq!(observed_through_ns, 0);
    assert_eq!(events.len(), 64);
}

#[test]
fn a_reader_pauses_when_its_ring_was_empty() {
    assert_eq!(after_read(0, true), AfterRead::Pause);
    assert_eq!(after_read(1, true), AfterRead::Yield);
    assert_eq!(after_read(64, true), AfterRead::Yield);
    assert_eq!(after_read(0, false), AfterRead::End);
    assert_eq!(after_read(5, false), AfterRead::End);
}

#[test]
fn a_reader_that_cannot_read_reports_it_and_ends() {
    let (message, next) = read_failed(3, "Interrupted".to_string());
    assert!(matches!(
        message,
        PerfReaderMessage::Failed { cpu: 3, error } if error == "Interrupted"
    ));
    assert_eq!(next, AfterRead::End);
}
