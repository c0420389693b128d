use std::collections::{BTreeMap, HashMap, HashSet, VecDeque};

use jbm::clock::{monotonic_time_ns, time_now};
use jbm::correlate::EVENT_MATCH_GIVEUP_TIME_NS;
use jbm::events::{BpfEvent, JvmEvent, JvmFrame};
use jbm::stream::EventStream;
use jbm::symbols::SymbolTable;

fn bpf_event(tid: u32, timestamp: u64) -> BpfEvent {
    BpfEvent {
        timestamp,
        pid: 1,
        host_tid: tid,
        tid: Some(tid),
        comm: format!("thread-{tid}"),
        duration_us: 1_000,
        start_monotonic_ns: 0,
        end_monotonic_ns: 1_000_000,
        signal_result: 0,
        stacktrace: Vec::new(),
    }
}

fn no_symbols() -> SymbolTable {
    SymbolTable::new(&BTreeMap::new())
}

fn stream_of(
    bpf_events: HashMap<u32, VecDeque<BpfEvent>>,
    jvm_events: HashMap<u32, VecDeque<JvmEvent>>,
) -> EventStream {
    EventStream {
        bpf_events,
        unmatched_bpf_events: VecDeque::new(),
        event_count: 0,
        jvm_events,
        discarded_jvm_events: Vec::new(),
        ksyms: no_symbols(),
        native_symbolization_unavailable: HashSet::new(),
    }
}

fn ending(tid: u32, end_monotonic_ns: u64) -> BpfEvent {
    let mut event = bpf_event(tid, 1);
    event.end_monotonic_ns = end_monotonic_ns;
    event
}

fn sample(tid: u32, monotonic_timestamp_ns: u64) -> JvmEvent {
    JvmEvent {
        timestamp: 3,
        monotonic_timestamp_ns,
        tid,
        thread_name: "thread-1".to_string(),
        frames: Vec::new(),
    }
}

#[test]
fn never_reassigns_a_jvm_event_to_another_thread() {
    let old_timestamp = time_now() - EVENT_MATCH_GIVEUP_TIME_NS / 1_000_000 - 1_000;
    let mut stream = EventStream {
        bpf_events: HashMap::from([
            (1, VecDeque::from([bpf_event(1, old_timestamp)])),
            (2, VecDeque::from([bpf_event(2, old_timestamp + 80)])),
        ]),
        unmatched_bpf_events: VecDeque::new(),
        event_count: 0,
        jvm_events: HashMap::from([(
            1,
            VecDeque::from([JvmEvent {
                timestamp: old_timestamp + 90,
                monotonic_timestamp_ns: 1_000_100,
                tid: 1,
                thread_name: "thread-1".to_string(),
                frames: Vec::new(),
            }]),
        )]),
        discarded_jvm_events: Vec::new(),
        ksyms: no_symbols(),
        native_symbolization_unavailable: HashSet::new(),
    };

    let result = stream.sweep(u64::MAX);
    assert_eq!(result.len(), 2);
    assert_eq!(result[0].0.tid, Some(1));
    assert_eq!(result[0].1.as_ref().map(|event| event.tid), Some(1));
    assert_eq!(result[1].0.tid, Some(2));
    assert!(result[1].1.is_none());
}

#[test]
fn matches_using_monotonic_time_even_when_wall_timestamps_differ() {
    let mut bpf = bpf_event(1, 10_000);
    bpf.end_monotonic_ns = 5_000_000;
    let mut queue = VecDeque::from([JvmEvent {
        timestamp: 1,
        monotonic_timestamp_ns: 5_000_100,
        tid: 1,
        thread_name: "thread-1".to_string(),
        frames: Vec::new(),
    }]);

    let matched = EventStream::find_matching_jvm_event(bpf.end_monotonic_ns, &mut queue);
    assert!(matched.is_some());
    assert!(queue.is_empty());
}

#[test]
fn assigns_a_coalesced_sample_to_the_latest_preceding_interval() {
    let now = monotonic_time_ns();
    let mut first = bpf_event(1, 1);
    first.end_monotonic_ns = now - 2_000;
    let mut second = bpf_event(1, 2);
    second.end_monotonic_ns = now - 1_000;
    let sample = JvmEvent {
        timestamp: 3,
        monotonic_timestamp_ns: now,
        tid: 1,
        thread_name: "thread-1".to_string(),
        frames: Vec::new(),
    };
    let mut stream = stream_of(
        HashMap::from([(1, VecDeque::from([first, second]))]),
        HashMap::from([(1, VecDeque::from([sample]))]),
    );

    let result = stream.sweep(u64::MAX);
    assert_eq!(result.len(), 2);
    assert!(result[0].1.is_none());
    assert!(result[1].1.is_some());
}

#[test]
fn waits_for_perf_watermark_before_correlating_a_sample() {
    let sample_time = monotonic_time_ns();
    let mut first = bpf_event(1, 1);
    first.end_monotonic_ns = sample_time - 2_000;
    let sample = JvmEvent {
        timestamp: 3,
        monotonic_timestamp_ns: sample_time,
        tid: 1,
        thread_name: "thread-1".to_string(),
        frames: Vec::new(),
    };
    let mut stream = stream_of(
        HashMap::from([(1, VecDeque::from([first]))]),
        HashMap::from([(1, VecDeque::from([sample]))]),
    );

    assert!(stream.sweep(sample_time - 1).is_empty());

    let mut second = bpf_event(1, 2);
    second.end_monotonic_ns = sample_time - 1_000;
    stream.bpf_events.get_mut(&1).unwrap().push_back(second);
    let result = stream.sweep(sample_time);
    assert_eq!(result.len(), 2);
    assert!(result[0].1.is_none());
    assert!(result[1].1.is_some());
}

#[test]
fn orders_migrated_thread_events_arriving_from_different_cpu_readers() {
    let mut later = bpf_event(1, 2);
    later.end_monotonic_ns = 1_050;
    let mut earlier = bpf_event(1, 1);
    earlier.end_monotonic_ns = 1_000;
    let first_sample = JvmEvent {
        timestamp: 1,
        monotonic_timestamp_ns: 1_010,
        tid: 1,
        thread_name: "thread-1".to_string(),
        frames: Vec::new(),
    };
    let second_sample = JvmEvent {
        timestamp: 2,
        monotonic_timestamp_ns: 1_060,
        tid: 1,
        thread_name: "thread-1".to_string(),
        frames: Vec::new(),
    };
    let mut stream = stream_of(
        HashMap::from([(1, VecDeque::from([later]))]),
        HashMap::from([(1, VecDeque::from([first_sample, second_sample]))]),
    );

    assert!(stream.sweep(900).is_empty());
    assert_eq!(stream.jvm_events.get(&1).unwrap().len(), 2);
    stream.enqueue_bpf_event(1, earlier);

    let result = stream.sweep(1_060);
    assert_eq!(result.len(), 2);
    assert_eq!(result[0].0.end_monotonic_ns, 1_000);
    assert_eq!(result[0].1.as_ref().unwrap().monotonic_timestamp_ns, 1_010);
    assert_eq!(result[1].0.end_monotonic_ns, 1_050);
    assert_eq!(result[1].1.as_ref().unwrap().monotonic_timestamp_ns, 1_060);
}

#[test]
fn rechecks_watermark_after_discarding_a_stale_jvm_sample() {
    let base = monotonic_time_ns();
    let mut first = bpf_event(1, 1);
    first.end_monotonic_ns = base + 1_000;
    let stale_sample = JvmEvent {
        timestamp: 1,
        monotonic_timestamp_ns: base + 900,
        tid: 1,
        thread_name: "thread-1".to_string(),
        frames: Vec::new(),
    };
    let second_sample = JvmEvent {
        timestamp: 2,
        monotonic_timestamp_ns: base + 1_100,
        tid: 1,
        thread_name: "thread-1".to_string(),
        frames: Vec::new(),
    };
    let mut stream = stream_of(
        HashMap::from([(1, VecDeque::from([first]))]),
        HashMap::from([(1, VecDeque::from([stale_sample, second_sample]))]),
    );

    // The stale sample may be discarded, but the next sample is beyond
    // the proven perf progress and must remain unconsumed.
    assert!(stream.sweep(base + 950).is_empty());
    assert_eq!(stream.jvm_events.get(&1).unwrap().len(), 1);
    assert_eq!(stream.bpf_events.get(&1).unwrap().len(), 1);

    let mut second = bpf_event(1, 2);
    second.end_monotonic_ns = base + 1_050;
    stream.enqueue_bpf_event(1, second);

    let result = stream.sweep(base + 1_100);
    assert_eq!(result.len(), 2);
    assert_eq!(result[0].0.end_monotonic_ns, base + 1_000);
    assert!(result[0].1.is_none());
    assert_eq!(result[1].0.end_monotonic_ns, base + 1_050);
    assert_eq!(
        result[1].1.as_ref().unwrap().monotonic_timestamp_ns,
        base + 1_100
    );
}

#[test]
fn emits_an_untranslated_thread_without_attempting_a_match() {
    let mut event = bpf_event(7, 1);
    event.tid = None;
    let mut stream = EventStream {
        bpf_events: HashMap::new(),
        unmatched_bpf_events: VecDeque::from([event]),
        event_count: 0,
        jvm_events: HashMap::new(),
        discarded_jvm_events: Vec::new(),
        ksyms: no_symbols(),
        native_symbolization_unavailable: HashSet::new(),
    };

    let result = stream.sweep(u64::MAX);
    assert_eq!(result.len(), 1);
    assert!(result[0].0.tid.is_none());
    assert!(result[0].1.is_none());
}

#[test]
fn a_sample_belongs_within_a_second_of_the_end() {
    let end = 7_000_000_000;
    for (sample_ns, belongs) in [
        (end - 1, false),
        (end, true),
        (end + 999_999_999, true),
        (end + 1_000_000_000, false),
    ] {
        let mut queue = VecDeque::from([sample(1, sample_ns)]);
        let found = EventStream::find_matching_jvm_event(end, &mut queue);
        assert_eq!(found.is_some(), belongs);
        assert_eq!(queue.len(), if belongs { 0 } else { 1 });
    }
    assert!(EventStream::find_matching_jvm_event(end, &mut VecDeque::new()).is_none());
}

#[test]
fn an_interval_without_samples_waits_for_thirty_seconds() {
    let mut stream = stream_of(
        HashMap::from([(1, VecDeque::from([ending(1, 1_000)]))]),
        HashMap::new(),
    );
    assert!(stream.sweep_at(u64::MAX, 30_000_000_999).is_empty());
    assert_eq!(stream.bpf_events.len(), 1);
    let result = stream.sweep_at(u64::MAX, 30_000_001_000);
    assert_eq!(result.len(), 1);
    assert!(result[0].1.is_none());
    assert!(stream.bpf_events.is_empty());
}

#[test]
fn an_interval_whose_signal_failed_takes_no_sample() {
    let mut failed = ending(1, 1_000);
    failed.signal_result = -3;
    let mut stream = stream_of(
        HashMap::from([(1, VecDeque::from([failed, ending(1, 3_000)]))]),
        HashMap::from([(1, VecDeque::from([sample(1, 2_000)]))]),
    );
    let result = stream.sweep_at(u64::MAX, 3_000);
    assert_eq!(result.len(), 1);
    assert_eq!(result[0].0.signal_result, -3);
    assert!(result[0].1.is_none());
    let discarded = stream.take_discarded();
    assert_eq!(discarded.len(), 1);
    assert_eq!(discarded[0].monotonic_timestamp_ns, 2_000);
    assert!(stream.take_discarded().is_empty());
}

#[test]
fn a_sample_past_the_threshold_leaves_the_interval_unmatched() {
    let mut stream = stream_of(
        HashMap::from([(1, VecDeque::from([ending(1, 1_000)]))]),
        HashMap::from([(1, VecDeque::from([sample(1, 1_000_001_000)]))]),
    );
    let result = stream.sweep_at(u64::MAX, 0);
    assert_eq!(result.len(), 1);
    assert!(result[0].1.is_none());
    assert_eq!(stream.jvm_events[&1].len(), 1);
}

#[test]
fn threads_are_swept_in_ascending_order() {
    let mut stream = stream_of(
        (1..=40)
            .rev()
            .map(|tid| (tid, VecDeque::from([ending(tid, 1_000)])))
            .collect(),
        HashMap::new(),
    );
    let tids: Vec<u32> = stream
        .sweep_at(u64::MAX, u64::MAX)
        .iter()
        .map(|(event, _)| event.tid.unwrap())
        .collect();
    assert_eq!(tids, (1..=40).collect::<Vec<u32>>());
}

#[test]
fn sweeping_twice_at_the_same_time_gives_nothing_more() {
    let mut stream = stream_of(
        HashMap::from([(
            1,
            VecDeque::from([ending(1, 1_000), ending(1, 2_000), ending(1, 9_000)]),
        )]),
        HashMap::from([(1, VecDeque::from([sample(1, 2_500), sample(1, 8_000)]))]),
    );
    let result = stream.sweep_at(5_000, 10_000);
    assert_eq!(result.len(), 2);
    assert!(result[1].1.is_some());
    assert!(stream.sweep_at(5_000, 10_000).is_empty());
    assert_eq!(stream.jvm_events[&1].len(), 1);
}

#[test]
fn a_late_interval_is_correlated_as_if_it_had_been_there() {
    let intervals = [1_000, 2_000, 3_000, 4_000];
    let samples = [1_100, 2_100, 3_100, 4_100];
    let jvm = || HashMap::from([(1, samples.map(|at| sample(1, at)).into_iter().collect())]);
    let mut whole = stream_of(
        HashMap::from([(1, intervals.map(|end| ending(1, end)).into_iter().collect())]),
        jvm(),
    );
    let expected: Vec<(u64, Option<u64>)> = whole
        .sweep_at(5_000, 5_000)
        .iter()
        .map(|(event, sample)| {
            (
                event.end_monotonic_ns,
                sample.as_ref().map(|sample| sample.monotonic_timestamp_ns),
            )
        })
        .collect();
    assert_eq!(expected.len(), 4);

    let mut late = stream_of(
        HashMap::from([(1, VecDeque::from([ending(1, 1_000), ending(1, 4_000)]))]),
        jvm(),
    );
    let mut result = late.sweep_at(1_500, 1_500);
    late.enqueue_bpf_event(1, ending(1, 3_000));
    late.enqueue_bpf_event(1, ending(1, 2_000));
    result.extend(late.sweep_at(5_000, 5_000));
    let seen: Vec<(u64, Option<u64>)> = result
        .iter()
        .map(|(event, sample)| {
            (
                event.end_monotonic_ns,
                sample.as_ref().map(|sample| sample.monotonic_timestamp_ns),
            )
        })
        .collect();
    assert_eq!(seen, expected);
}

#[test]
fn intervals_with_the_same_end_keep_their_order_of_arrival() {
    let mut stream = stream_of(HashMap::new(), HashMap::new());
    for (timestamp, end) in [(1, 500), (2, 900), (3, 500), (4, 700), (5, 900)] {
        let mut event = bpf_event(1, timestamp);
        event.end_monotonic_ns = end;
        stream.enqueue_bpf_event(1, event);
    }
    let order: Vec<u64> = stream.bpf_events[&1]
        .iter()
        .map(|event| event.timestamp)
        .collect();
    assert_eq!(order, vec![1, 3, 4, 2, 5]);
}

#[test]
fn the_rest_is_given_out_in_the_end() {
    let mut apart = bpf_event(9, 1);
    apart.tid = None;
    let mut stream = stream_of(
        HashMap::from([
            (2, VecDeque::from([ending(2, 1_000), ending(2, 2_000)])),
            (1, VecDeque::from([ending(1, 1_000)])),
        ]),
        HashMap::from([
            (2, VecDeque::from([sample(2, 1_500)])),
            (5, VecDeque::from([sample(5, 1_500)])),
        ]),
    );
    stream.unmatched_bpf_events.push_back(apart);
    let result = stream.sweep_remaining_at(3_000);
    let seen: Vec<(Option<u32>, bool)> = result
        .iter()
        .map(|(event, sample)| (event.tid, sample.is_some()))
        .collect();
    assert_eq!(
        seen,
        vec![
            (None, false),
            (Some(2), true),
            (Some(1), false),
            (Some(2), false)
        ]
    );
    assert!(stream.bpf_events.is_empty());
    assert!(stream.jvm_events.is_empty());
    assert!(stream.unmatched_bpf_events.is_empty());
    assert!(stream.sweep_remaining().is_empty());
}

#[test]
fn a_new_stream_is_empty() {
    let mut stream = EventStream::new(&BTreeMap::from([(16, "start_kernel".to_string())]));
    assert!(stream.sweep(u64::MAX).is_empty());
    assert_eq!(stream.event_count, 0);
    assert_eq!(
        stream.ksyms.resolve(20).map(String::as_str),
        Some("start_kernel")
    );
}

#[test]
fn a_dropped_sample_is_described() {
    let mut event = sample(12, 1);
    event.timestamp = 99;
    assert_eq!(
        EventStream::trash_jvm_event(&event),
        "DISCARDED AP EVENT tid=12, timestamp=99\n"
    );
    for (method_id, symbol) in [(0, "a.b"), (255, "c.d"), (4096, "e.f")] {
        event.frames.push(JvmFrame {
            bci: 1,
            method_id,
            symbol: symbol.to_string(),
        });
    }
    assert_eq!(
        EventStream::trash_jvm_event(&event),
        "DISCARDED AP EVENT tid=12, timestamp=99\n0: [0x0] a.b1: [0xff] c.d\n2: [0x1000] e.f\n"
    );
}

#[test]
fn each_sample_leaves_once() {
    let mut stream = stream_of(
        HashMap::from([(
            1,
            VecDeque::from([ending(1, 1_000), ending(1, 2_000), ending(1, 3_000)]),
        )]),
        HashMap::from([(
            1,
            [500, 1_500, 1_600, 3_500, 4_500, 9_000]
                .map(|at| sample(1, at))
                .into_iter()
                .collect(),
        )]),
    );
    let result = stream.sweep_at(5_000, 5_000);
    let given: Vec<u64> = result
        .iter()
        .filter_map(|(_, sample)| sample.as_ref())
        .map(|sample| sample.monotonic_timestamp_ns)
        .collect();
    let dropped: Vec<u64> = stream
        .take_discarded()
        .iter()
        .map(|sample| sample.monotonic_timestamp_ns)
        .collect();
    let left: Vec<u64> = stream.jvm_events[&1]
        .iter()
        .map(|sample| sample.monotonic_timestamp_ns)
        .collect();
    assert_eq!(given, vec![1_500, 3_500]);
    assert_eq!(dropped, vec![500, 1_600]);
    assert_eq!(left, vec![4_500, 9_000]);
}

#[test]
fn wall_timestamps_make_no_difference() {
    let pairs = |shift: u64| -> Vec<(u64, Option<u64>)> {
        let mut intervals = VecDeque::new();
        for (position, end) in [1_000, 2_000, 3_000].into_iter().enumerate() {
            let mut event = ending(1, end);
            event.timestamp = shift / (position as u64 + 1);
            intervals.push_back(event);
        }
        let mut samples = VecDeque::new();
        for at in [900, 1_200, 3_400] {
            let mut event = sample(1, at);
            event.timestamp = shift;
            samples.push_back(event);
        }
        stream_of(
            HashMap::from([(1, intervals)]),
            HashMap::from([(1, samples)]),
        )
        .sweep_at(5_000, 5_000)
        .iter()
        .map(|(event, sample)| {
            (
                event.end_monotonic_ns,
                sample.as_ref().map(|sample| sample.monotonic_timestamp_ns),
            )
        })
        .collect()
    };
    assert_eq!(
        pairs(0),
        vec![(1_000, Some(1_200)), (2_000, None), (3_000, Some(3_400))]
    );
    assert_eq!(pairs(u64::MAX), pairs(0));
}

#[test]
fn a_later_sweep_at_a_lower_watermark_gives_nothing_more() {
    let mut stream = stream_of(
        HashMap::from([(1, VecDeque::from([ending(1, 1_000), ending(1, 9_000)]))]),
        HashMap::from([(1, VecDeque::from([sample(1, 1_500), sample(1, 8_000)]))]),
    );
    assert_eq!(stream.sweep_at(5_000, 10_000).len(), 1);
    for watermark_ns in [0, 1_500, 4_999, 5_000] {
        assert!(stream.sweep_at(watermark_ns, 10_000).is_empty());
        assert_eq!(stream.jvm_events[&1].len(), 1);
        assert_eq!(stream.bpf_events[&1].len(), 1);
    }
}

#[test]
fn emptying_a_stream_pairs_as_waiting_would() {
    let stream = || {
        stream_of(
            HashMap::from([
                (1, VecDeque::from([ending(1, 1_000), ending(1, 2_000)])),
                (2, VecDeque::from([ending(2, 1_000), ending(2, 4_000)])),
            ]),
            HashMap::from([
                (1, VecDeque::from([sample(1, 2_500)])),
                (2, VecDeque::from([sample(2, 1_100), sample(2, 3_900)])),
            ]),
        )
    };
    let pairs = |results: Vec<(BpfEvent, Option<JvmEvent>)>, tid: u32| -> Vec<(u64, Option<u64>)> {
        results
            .iter()
            .filter(|(event, _)| event.tid == Some(tid))
            .map(|(event, sample)| {
                (
                    event.end_monotonic_ns,
                    sample.as_ref().map(|sample| sample.monotonic_timestamp_ns),
                )
            })
            .collect()
    };
    for tid in [1, 2] {
        let at_once = pairs(stream().sweep_remaining_at(5_000), tid);
        let waited = pairs(stream().sweep_at(u64::MAX, 40_000_000_000), tid);
        assert_eq!(at_once, waited);
        assert_eq!(at_once.len(), 2);
    }
}
