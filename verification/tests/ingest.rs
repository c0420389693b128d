use std::collections::BTreeMap;

use jbm::clock::{monotonic_time_ns, time_now};
use jbm::common::BlockEvent;
use jbm::ingest::{storage_warning, Observed};
use jbm::stream::EventStream;

fn stream() -> EventStream {
    EventStream::new(&BTreeMap::from([
        (0x1000, "schedule".to_string()),
        (0x2000, "futex_wait".to_string()),
    ]))
}

fn event() -> BlockEvent {
    BlockEvent {
        pid: 81_250,
        tgid: 81_234,
        user_stack_id: 4,
        kernel_stack_id: 3,
        name: *b"LOCKER\0\0\0\0\0\0\0\0\0\0",
        offtime: 1_500,
        t_start: 2_000_000,
        t_end: 3_500_000,
        signal_result: 0,
    }
}

fn observed() -> Observed {
    Observed {
        kernel_stack: Ok(vec![0x1010, 0x2000, 0x10]),
        user_stack: Ok(vec![0x7f00, 0x7f10]),
        user_symbols: Some(Ok(vec![
            (0x7f00, Some("pthread_cond_wait".to_string())),
            (0x7f10, None),
        ])),
        thread_status: Ok("Name:\tjava\nNSpid:\t81250\t19\n".to_string()),
    }
}

fn frames(stream: &EventStream) -> Vec<(u64, String)> {
    stream.bpf_events[&19][0].stacktrace.clone()
}

#[test]
fn an_event_is_described_and_queued_for_its_thread() {
    let mut stream = stream();
    assert_eq!(
        stream.add_bpf_event_at(event(), observed(), Some(99)),
        Ok(false)
    );
    let described = &stream.bpf_events[&19][0];
    assert_eq!(described.timestamp, 99);
    assert_eq!(described.pid, 81_234);
    assert_eq!(described.host_tid, 81_250);
    assert_eq!(described.tid, Some(19));
    assert_eq!(described.comm, "LOCKER");
    assert_eq!(described.duration_us, 1_500);
    assert_eq!(described.start_monotonic_ns, 2_000_000);
    assert_eq!(described.end_monotonic_ns, 3_500_000);
    assert_eq!(described.signal_result, 0);
    assert_eq!(
        described.stacktrace,
        vec![
            (0x1010, "schedule".to_string()),
            (0x2000, "futex_wait".to_string()),
            (0x10, "[unknown symbol name]".to_string()),
            (0x7f00, "pthread_cond_wait".to_string()),
            (0x7f10, "[unknown symbol name]".to_string()),
        ]
    );
    assert_eq!(stream.event_count, 1);
    assert!(stream.native_symbolization_unavailable.is_empty());
}

#[test]
fn stacks_that_were_not_captured_are_labelled() {
    let mut stream = stream();
    let mut event = event();
    event.kernel_stack_id = -14;
    event.user_stack_id = -17;
    stream
        .add_bpf_event_at(event, observed(), Some(1))
        .unwrap();
    assert_eq!(
        frames(&stream),
        vec![
            (0, "[kernel stack capture failed: -14]".to_string()),
            (0, "[user stack capture failed: -17]".to_string()),
        ]
    );
}

#[test]
fn stacks_that_cannot_be_read_are_labelled() {
    let mut stream = stream();
    let mut observed = observed();
    observed.kernel_stack = Err("key not found".to_string());
    observed.user_stack = Err("no memory".to_string());
    observed.user_symbols = Some(Err("unused".to_string()));
    stream
        .add_bpf_event_at(event(), observed, Some(1))
        .unwrap();
    assert_eq!(
        frames(&stream),
        vec![
            (0, "[kernel stack unavailable: key not found]".to_string()),
            (0, "[user stack unavailable: no memory]".to_string()),
        ]
    );
    assert!(stream.native_symbolization_unavailable.is_empty());
}

#[test]
fn a_process_that_cannot_be_symbolized_is_remembered() {
    let mut stream = stream();
    assert!(stream.wants_user_symbols(&event()));
    let mut failing = observed();
    failing.user_symbols = Some(Err("no such process".to_string()));
    stream.add_bpf_event_at(event(), failing, Some(1)).unwrap();
    let unresolved = vec![
        (0x7f00, "[unknown symbol name]".to_string()),
        (0x7f10, "[unknown symbol name]".to_string()),
    ];
    assert_eq!(frames(&stream)[3..], unresolved[..]);
    assert!(stream.native_symbolization_unavailable.contains(&81_234));
    assert!(!stream.wants_user_symbols(&event()));

    stream
        .add_bpf_event_at(event(), observed(), Some(1))
        .unwrap();
    assert_eq!(stream.bpf_events[&19][1].stacktrace[3..], unresolved[..]);
    let mut other = event();
    other.tgid = 5;
    assert!(stream.wants_user_symbols(&other));
    other.user_stack_id = -1;
    assert!(!stream.wants_user_symbols(&other));
}

#[test]
fn an_event_of_an_untranslated_thread_is_queued_apart() {
    let mut stream = stream();
    let mut gone = observed();
    gone.thread_status = Err("No such file or directory".to_string());
    stream.add_bpf_event_at(event(), gone, Some(1)).unwrap();
    let mut bare = observed();
    bare.thread_status = Ok("Name:\tjava\n".to_string());
    bare.user_symbols = None;
    stream.add_bpf_event_at(event(), bare, Some(2)).unwrap();
    assert!(stream.bpf_events.is_empty());
    assert_eq!(stream.unmatched_bpf_events.len(), 2);
    assert_eq!(stream.unmatched_bpf_events[0].tid, None);
    assert_eq!(stream.unmatched_bpf_events[1].timestamp, 2);
    assert_eq!(
        stream.unmatched_bpf_events[1].stacktrace[4],
        (0x7f10, "[unknown symbol name]".to_string())
    );
}

#[test]
fn a_name_ends_at_its_first_zero_byte() {
    let mut stream = stream();
    let mut unusual = event();
    unusual.name = *b"ab\xff\xc3\xa9\0cdefghijkl";
    stream
        .add_bpf_event_at(unusual, observed(), Some(1))
        .unwrap();
    assert_eq!(stream.bpf_events[&19][0].comm, "ab\u{fffd}\u{e9}");

    let mut endless = event();
    endless.name = *b"0123456789abcdef";
    let mut failing = observed();
    failing.user_symbols = Some(Err("no such process".to_string()));
    assert_eq!(
        stream.add_bpf_event_at(endless, failing, Some(1)),
        Err("data provided does not contain a nul".to_string())
    );
    assert_eq!(stream.event_count, 1);
    assert_eq!(stream.bpf_events[&19].len(), 1);
    assert!(stream.native_symbolization_unavailable.contains(&81_234));
}

#[test]
fn an_event_without_a_time_is_refused() {
    let mut stream = stream();
    assert_eq!(
        stream.add_bpf_event_at(event(), observed(), None),
        Err("event time is out of range of the clocks".to_string())
    );
    let mut future = event();
    future.t_end = u64::MAX;
    assert!(stream.add_bpf_event(future, observed()).is_err());
    assert_eq!(stream.event_count, 0);
}

#[test]
fn a_time_on_the_monotonic_clock_is_placed_in_the_calendar() {
    assert_eq!(
        EventStream::compute_timestamp_at(7_000_000, 9_500_000, 1_000),
        Some(997)
    );
    assert_eq!(
        EventStream::compute_timestamp_at(5, 5, u64::MAX),
        Some(u64::MAX)
    );
    assert_eq!(
        EventStream::compute_timestamp_at(0, 1_000_000, 1),
        Some(0)
    );
    assert_eq!(EventStream::compute_timestamp_at(0, 1_000_001, 1), None);
    assert_eq!(EventStream::compute_timestamp_at(6, 5, 1_000), None);

    let before = time_now();
    let timestamp = EventStream::compute_timestamp(monotonic_time_ns()).unwrap();
    assert!(timestamp + 1_000 >= before && timestamp <= time_now());
}

#[test]
fn every_hundredth_event_asks_for_a_look_at_the_storage() {
    let mut stream = stream();
    for count in 1..=300 {
        let mut current = event();
        current.t_end = monotonic_time_ns();
        assert_eq!(
            stream.add_bpf_event(current, observed()),
            Ok(count % 100 == 0)
        );
    }
    assert_eq!(stream.event_count, 300);
    assert_eq!(stream.bpf_events[&19].len(), 300);
    stream.event_count = usize::MAX;
    assert_eq!(
        stream.add_bpf_event_at(event(), observed(), Some(1)),
        Ok(true)
    );
    assert_eq!(stream.event_count, 0);
}

#[test]
fn a_full_storage_is_warned_about() {
    assert_eq!(storage_warning(10_239), None);
    assert_eq!(
        storage_warning(10_240),
        Some(
            "Stacktraces storage is full, some stacks may be missing in output: 10240/10240"
                .to_string()
        )
    );
}

#[test]
fn an_event_took_place_when_its_interval_ended() {
    let mut stream = stream();
    assert_eq!(
        stream.add_bpf_event_by_clocks(event(), observed(), 8_500_000, 1_000),
        Ok(false)
    );
    assert_eq!(stream.bpf_events[&19][0].timestamp, 995);
    assert_eq!(
        stream.add_bpf_event_by_clocks(event(), observed(), 3_499_999, 1_000),
        Err("event time is out of range of the clocks".to_string())
    );
}
