use jbm::events::{BpfEvent, JvmEvent, JvmFrame};
use jbm::report::{collapsed_line, event_report};

fn event(tid: Option<u32>) -> BpfEvent {
    BpfEvent {
        timestamp: 1_600_000_000_123,
        pid: 42,
        host_tid: 1_042,
        tid,
        comm: "LOCKER".to_string(),
        duration_us: 2_500_000,
        start_monotonic_ns: 1,
        end_monotonic_ns: 2,
        signal_result: 0,
        stacktrace: vec![
            (0xffff_8000, "schedule".to_string()),
            (0, "[user stack capture failed: -14]".to_string()),
        ],
    }
}

fn sample(symbols: &[&str]) -> JvmEvent {
    JvmEvent {
        timestamp: 5,
        monotonic_timestamp_ns: 6,
        tid: 19,
        thread_name: "LOCKER".to_string(),
        frames: symbols
            .iter()
            .enumerate()
            .map(|(position, symbol)| JvmFrame {
                bci: 0,
                method_id: 16 + position as u64,
                symbol: symbol.to_string(),
            })
            .collect(),
    }
}

#[test]
fn an_interval_without_a_sample_is_shown() {
    assert_eq!(
        event_report(&event(None), &None, "2020-09-13 12:26:40", "unused"),
        "=== 2020-09-13 12:26:40 1600000000123 PID: 42, TID: unknown (LOCKER), \
         DURATION: 2500000 us\n\
         Native Stack:\n  \
         0: [0xffff8000] schedule\n  \
         1: [0x0] [user stack capture failed: -14]\n"
    );
}

#[test]
fn an_interval_with_a_sample_is_shown() {
    assert_eq!(
        event_report(
            &event(Some(19)),
            &Some(sample(&["java.lang.Object.wait", "Test.main"])),
            "a",
            "b"
        ),
        "=== a 1600000000123 PID: 42, TID: 19 (LOCKER), DURATION: 2500000 us\n\
         Native Stack:\n  \
         0: [0xffff8000] schedule\n  \
         1: [0x0] [user stack capture failed: -14]\n\
         --------------------------------------------------------------------------------\n\
         JVM Stack (took: b):\n  \
         0: [0x10] java.lang.Object.wait\n  \
         1: [0x11] Test.main"
    );
}

#[test]
fn stacks_are_collapsed_from_the_outermost_frame_in() {
    assert_eq!(
        collapsed_line(&event(Some(19)), &Some(sample(&["wait", "lock", "main"]))),
        "main;lock;wait 2500000"
    );
    assert_eq!(
        collapsed_line(&event(Some(19)), &Some(sample(&["run"]))),
        "run 2500000"
    );
}

#[test]
fn intervals_without_a_stack_keep_their_weight() {
    assert_eq!(
        collapsed_line(&event(None), &None),
        "[no JVM stack] 2500000"
    );
    assert_eq!(
        collapsed_line(&event(Some(19)), &Some(sample(&[]))),
        "[no JVM stack] 2500000"
    );
}

#[test]
fn the_weights_add_up_to_the_total_duration() {
    let mut total = 0;
    let mut lines = Vec::new();
    for (duration_us, sample) in [
        (0, None),
        (7, Some(sample(&["a b", "c"]))),
        (1_000_000, Some(sample(&[]))),
        (33, None),
    ] {
        let mut event = event(Some(19));
        event.duration_us = duration_us;
        total += duration_us;
        lines.push(collapsed_line(&event, &sample));
    }
    let weights: u64 = lines
        .iter()
        .map(|line| line.rsplit(' ').next().unwrap().parse::<u64>().unwrap())
        .sum();
    assert_eq!(weights, total);
}
