use std::collections::{BTreeMap, HashMap, VecDeque};

use jbm::common::{BlockEvent, CollectionStats};
use jbm::events::JvmEvent;
use jbm::ingest::Observed;
use jbm::monitor::Jbm;
use jbm::provider::{enqueue_jvm_events, JvmStackTraceProvider};
use jbm::reader::PerfReaderMessage;

/// Hands out samples that were prepared.
struct Prepared {
    samples: Vec<Option<JvmEvent>>,
    failure: Option<String>,
    stop_failure: Option<String>,
}

impl JvmStackTraceProvider for Prepared {
    fn fill_queue(&mut self, queues: &mut HashMap<u32, VecDeque<JvmEvent>>) -> Result<(), String> {
        if let Some(failure) = self.failure.take() {
            return Err(failure);
        }
        enqueue_jvm_events(queues, std::mem::take(&mut self.samples));
        Ok(())
    }

    fn stop(&mut self) -> Result<(), String> {
        match self.stop_failure.take() {
            Some(failure) => Err(failure),
            None => Ok(()),
        }
    }
}

/// A source that has nothing and need not be stopped.
struct Silent;

impl JvmStackTraceProvider for Silent {
    fn fill_queue(&mut self, _: &mut HashMap<u32, VecDeque<JvmEvent>>) -> Result<(), String> {
        Ok(())
    }
}

fn monitor(cpus: Vec<u32>, samples: Vec<Option<JvmEvent>>) -> Jbm<Prepared> {
    Jbm::new(
        &cpus,
        &BTreeMap::new(),
        Prepared {
            samples,
            failure: None,
            stop_failure: None,
        },
    )
}

fn event(t_end: u64) -> BlockEvent {
    BlockEvent {
        pid: 7,
        tgid: 1,
        user_stack_id: -1,
        kernel_stack_id: -1,
        name: [0; 16],
        offtime: 5,
        t_start: 0,
        t_end,
        signal_result: 0,
    }
}

fn observed() -> Observed {
    Observed {
        kernel_stack: Ok(Vec::new()),
        user_stack: Ok(Vec::new()),
        user_symbols: None,
        thread_status: Ok("NSpid:\t7\n".to_string()),
    }
}

fn sample(monotonic_timestamp_ns: u64) -> JvmEvent {
    JvmEvent {
        timestamp: 0,
        monotonic_timestamp_ns,
        tid: 7,
        thread_name: String::new(),
        frames: Vec::new(),
    }
}

fn report(cpu: u32, observed_through_ns: u64, ends: &[u64], lost: u64) -> PerfReaderMessage {
    PerfReaderMessage::Progress {
        cpu,
        observed_through_ns,
        events: ends.iter().map(|end| event(*end)).collect(),
        lost,
    }
}

#[test]
fn events_of_all_readers_come_in_the_order_of_their_ends() {
    let mut jbm = monitor(vec![0, 1], Vec::new());
    let events = jbm
        .receive_perf_events(vec![
            report(0, 100, &[50, 90], 2),
            report(1, 80, &[10, 70, 60], 3),
        ])
        .unwrap();
    let ends: Vec<u64> = events.iter().map(|event| event.t_end).collect();
    assert_eq!(ends, vec![10, 50, 60, 70, 90]);
    assert_eq!(jbm.lost_perf_events, 5);
    assert_eq!(jbm.perf_watermarks, HashMap::from([(0, 100), (1, 80)]));
}

#[test]
fn the_reader_furthest_behind_sets_the_watermark() {
    let mut jbm = monitor(vec![0, 1, 2], Vec::new());
    assert_eq!(jbm.correlation_watermark_ns(), 0);
    jbm.receive_perf_events(vec![report(0, 100, &[], 0), report(1, 90, &[], 0)])
        .unwrap();
    assert_eq!(jbm.correlation_watermark_ns(), 0);
    jbm.receive_perf_events(vec![report(2, 300, &[], 0)]).unwrap();
    assert_eq!(jbm.correlation_watermark_ns(), 90);
    jbm.receive_perf_events(vec![report(1, 40, &[], 0), report(1, 0, &[], 0)])
        .unwrap();
    assert_eq!(jbm.correlation_watermark_ns(), 90);
    jbm.receive_perf_events(vec![report(1, 200, &[], 0)]).unwrap();
    assert_eq!(jbm.correlation_watermark_ns(), 100);
    assert_eq!(monitor(Vec::new(), Vec::new()).correlation_watermark_ns(), 0);
}

#[test]
fn an_unknown_reader_becomes_known_by_its_report() {
    let mut jbm = monitor(vec![0], Vec::new());
    jbm.receive_perf_events(vec![report(0, 100, &[], 0), report(9, 30, &[], 0)])
        .unwrap();
    assert_eq!(jbm.correlation_watermark_ns(), 30);
}

#[test]
fn a_failed_reader_fails_the_round_once() {
    let mut jbm = monitor(vec![0, 5], Vec::new());
    let result = jbm.receive_perf_events(vec![
        report(0, 100, &[50], 1),
        PerfReaderMessage::Failed {
            cpu: 5,
            error: "Interrupted".to_string(),
        },
    ]);
    assert_eq!(
        result.unwrap_err(),
        "perf reader for CPU 5 failed: Interrupted"
    );
    assert_eq!(jbm.lost_perf_events, 1);
    assert_eq!(jbm.perf_watermarks[&0], 100);
    assert!(jbm.receive_perf_events(Vec::new()).unwrap().is_empty());
}

#[test]
fn a_round_gives_out_what_is_correlated() {
    let mut jbm = monitor(vec![0, 1], vec![Some(sample(60)), None, Some(sample(2_000))]);
    let events = jbm
        .receive_perf_events(vec![report(0, 1_000, &[50, 90], 0), report(1, 70, &[], 0)])
        .unwrap();
    for event in events {
        assert_eq!(jbm.add_bpf_event(event, observed()), Ok(false));
    }
    let results = jbm.process().unwrap();
    assert_eq!(results.len(), 1);
    assert_eq!(results[0].0.end_monotonic_ns, 50);
    assert_eq!(
        results[0].1.as_ref().unwrap().monotonic_timestamp_ns,
        60
    );
    assert_eq!((jbm.emitted_intervals, jbm.matched_intervals), (1, 1));

    jbm.receive_perf_events(vec![report(1, 500, &[], 0)]).unwrap();
    assert!(jbm.process().unwrap().is_empty());

    let results = jbm.shutdown().unwrap();
    assert_eq!(results.len(), 1);
    assert_eq!(results[0].0.end_monotonic_ns, 90);
    assert_eq!(
        results[0].1.as_ref().unwrap().monotonic_timestamp_ns,
        2_000
    );
    assert_eq!((jbm.emitted_intervals, jbm.matched_intervals), (2, 2));
}

#[test]
fn a_failing_source_fails_the_round() {
    let mut jbm = monitor(vec![0], Vec::new());
    jbm.add_bpf_event(event(50), observed()).unwrap();
    jbm.jvm_stack_provider.failure = Some("no file".to_string());
    assert_eq!(jbm.process().unwrap_err(), "no file");
    assert_eq!(jbm.emitted_intervals, 0);
    jbm.jvm_stack_provider.stop_failure = Some("cannot stop".to_string());
    assert_eq!(jbm.shutdown().unwrap_err(), "cannot stop");
    assert_eq!(jbm.stream.bpf_events[&7].len(), 1);
    assert_eq!(
        jbm.process_at(Err("late".to_string()), 5).unwrap_err(),
        "late"
    );
    assert_eq!(
        jbm.shutdown_at(Err("later".to_string()), 5).unwrap_err(),
        "later"
    );
    assert_eq!(jbm.shutdown_at(Ok(()), 5).unwrap().len(), 1);
}

#[test]
fn a_source_need_not_be_stopped() {
    let mut jbm = Jbm::new(&vec![0], &BTreeMap::new(), Silent);
    jbm.add_bpf_event(event(50), observed()).unwrap();
    assert!(jbm.process_at(Ok(()), 60).unwrap().is_empty());
    let results = jbm.shutdown().unwrap();
    assert_eq!(results.len(), 1);
    assert!(results[0].1.is_none());
    assert_eq!((jbm.emitted_intervals, jbm.matched_intervals), (1, 0));
}

#[test]
fn the_summary_accounts_for_every_interval() {
    let mut jbm = monitor(vec![0], Vec::new());
    jbm.lost_perf_events = 4;
    jbm.emitted_intervals = 10;
    jbm.matched_intervals = 7;
    let one = CollectionStats {
        eligible_intervals: 100,
        eligible_duration_us: 5_000,
        probability_rejections: 80,
        selected_intervals: 20,
        kernel_stack_failures: 1,
        user_stack_failures: 2,
        signal_failures: 3,
    };
    let stats = jbm.collection_stats(&vec![one, one]);
    assert_eq!(
        jbm.coverage_summary(&stats),
        "BPF coverage: eligible_intervals=200, eligible_duration_us=10000, \
         probability_rejections=160, selected_intervals=40, received_intervals=10, \
         matched_intervals=7, unmatched_intervals=3, kernel_stack_failures=2, \
         user_stack_failures=4, signal_failures=6, perf_lost=4"
    );
    assert_eq!(
        jbm.loss_warning().unwrap(),
        "4 events from eBPF were lost due to slow consumption"
    );
    jbm.lost_perf_events = 0;
    assert_eq!(jbm.loss_warning(), None);
}

/// Hands out its samples only once it has been stopped.
struct Buffering {
    sample: Option<JvmEvent>,
    stops: u32,
}

impl JvmStackTraceProvider for Buffering {
    fn fill_queue(&mut self, queues: &mut HashMap<u32, VecDeque<JvmEvent>>) -> Result<(), String> {
        if self.stops > 0 {
            enqueue_jvm_events(queues, vec![self.sample.take()]);
        }
        Ok(())
    }

    fn stop(&mut self) -> Result<(), String> {
        self.stops += 1;
        Ok(())
    }
}

#[test]
fn the_source_is_stopped_before_its_last_samples_are_taken_in() {
    let source = Buffering {
        sample: Some(sample(60)),
        stops: 0,
    };
    let mut jbm = Jbm::new(&vec![0], &BTreeMap::new(), source);
    jbm.add_bpf_event(event(50), observed()).unwrap();
    assert!(jbm.process_at(Ok(()), 60).unwrap().is_empty());
    let results = jbm.shutdown().unwrap();
    assert_eq!(jbm.jvm_stack_provider.stops, 1);
    assert_eq!(results.len(), 1);
    assert_eq!(results[0].1.as_ref().unwrap().monotonic_timestamp_ns, 60);
}
