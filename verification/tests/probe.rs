use jbm::common::{CollectionStats, Config};
use jbm::probe::{jbm, record_switch_out, switch_out_code, Answer, Resume, PROFILING_SIGNAL};

const TARGET: u64 = 1234;

fn config() -> Config {
    Config {
        target_tgid: TARGET as u32,
        min_block_us: 1_000,
        max_block_us: 60_000,
        sample_threshold: 0x8000_0000,
        stack_storage_size: 10_240,
    }
}

fn resume(
    config: &Config,
    tgid: u64,
    answers: Vec<Answer>,
    stats: &mut CollectionStats,
) -> Vec<Resume> {
    let mut steps = vec![jbm(tgid << 32 | 77)];
    for answer in answers {
        let step = steps.last().unwrap().clone().step(config, answer, stats);
        steps.push(step);
    }
    steps
}

fn code(steps: &[Resume]) -> u32 {
    match steps.last().unwrap() {
        Resume::Return { code } => *code,
        other => panic!("{other:?}"),
    }
}

#[test]
fn only_threads_of_the_target_are_recorded() {
    assert_eq!(
        record_switch_out(&config(), TARGET << 32 | 77, 42),
        Some((77, 42))
    );
    assert_eq!(record_switch_out(&config(), 77 << 32 | TARGET, 42), None);
    assert_eq!(switch_out_code(Ok(())), 0);
    assert_eq!(switch_out_code(Err(-7)), 0xffff_fff9);
    assert_eq!(switch_out_code(Err(0x1_0000_0005)), 5);
}

#[test]
fn a_selected_interval_is_signalled_and_reported() {
    let mut stats = CollectionStats::default();
    let steps = resume(
        &config(),
        TARGET,
        vec![
            Answer::Start { t_start: Some(1_000_000) },
            Answer::End { t_end: 3_000_999, removed: Ok(()) },
            Answer::Random { value: 0x7fff_ffff },
            Answer::Captured {
                kernel_stack: Ok(5),
                user_stack: Ok(6),
                name: Some(*b"LOCKER\0\0\0\0\0\0\0\0\0\0"),
            },
            Answer::Signalled { result: 0 },
            Answer::Emitted,
        ],
        &mut stats,
    );
    assert!(matches!(steps[0], Resume::LookUpStart { pid: 77, tgid: 1234 }));
    assert!(matches!(steps[3], Resume::Capture { .. }));
    assert!(matches!(steps[4], Resume::Signal { .. }));
    assert_eq!(PROFILING_SIGNAL, 27);
    let Resume::Emit { event } = &steps[5] else {
        panic!("{:?}", steps[5]);
    };
    assert_eq!(event.pid, 77);
    assert_eq!(event.tgid, 1234);
    assert_eq!(event.kernel_stack_id, 5);
    assert_eq!(event.user_stack_id, 6);
    assert_eq!(&event.name, b"LOCKER\0\0\0\0\0\0\0\0\0\0");
    assert_eq!(event.offtime, 2_000);
    assert_eq!(event.t_start, 1_000_000);
    assert_eq!(event.t_end, 3_000_999);
    assert_eq!(event.signal_result, 0);
    assert_eq!(code(&steps), 0);
    assert_eq!(stats.eligible_intervals, 1);
    assert_eq!(stats.eligible_duration_us, 2_000);
    assert_eq!(stats.selected_intervals, 1);
    assert_eq!(stats.probability_rejections, 0);
    assert_eq!(stats.signal_failures, 0);
}

#[test]
fn failures_after_selection_do_not_suppress_the_event() {
    let mut stats = CollectionStats::default();
    let steps = resume(
        &config(),
        TARGET,
        vec![
            Answer::Start { t_start: Some(0) },
            Answer::End { t_end: 1_000_000, removed: Ok(()) },
            Answer::Random { value: 0 },
            Answer::Captured {
                kernel_stack: Err(-14),
                user_stack: Err(-17),
                name: None,
            },
            Answer::Signalled { result: -11 },
        ],
        &mut stats,
    );
    let Resume::Emit { event } = &steps[5] else {
        panic!("{:?}", steps[5]);
    };
    assert_eq!(event.kernel_stack_id, -14);
    assert_eq!(event.user_stack_id, -17);
    assert_eq!(event.name, [0; 16]);
    assert_eq!(event.signal_result, -11);
    assert_eq!(stats.kernel_stack_failures, 1);
    assert_eq!(stats.user_stack_failures, 1);
    assert_eq!(stats.signal_failures, 1);
    assert_eq!(stats.selected_intervals, 1);
}

#[test]
fn a_rejected_interval_is_counted_and_nothing_else() {
    let mut stats = CollectionStats::default();
    let steps = resume(
        &config(),
        TARGET,
        vec![
            Answer::Start { t_start: Some(0) },
            Answer::End { t_end: 60_000_999, removed: Ok(()) },
            Answer::Random { value: 0x8000_0000 },
        ],
        &mut stats,
    );
    assert_eq!(code(&steps), 0);
    assert_eq!(stats.eligible_intervals, 1);
    assert_eq!(stats.eligible_duration_us, 60_000);
    assert_eq!(stats.probability_rejections, 1);
    assert_eq!(stats.selected_intervals, 0);
}

#[test]
fn intervals_that_do_not_qualify_are_not_counted() {
    for (tgid, t_start, t_end) in [
        (TARGET, 0, 999_999),
        (TARGET, 0, 60_001_000),
        (TARGET, 2_000_001, 2_000_000),
        (TARGET + 1, 0, 2_000_000),
    ] {
        let mut stats = CollectionStats::default();
        let steps = resume(
            &config(),
            tgid,
            vec![
                Answer::Start { t_start: Some(t_start) },
                Answer::End { t_end, removed: Ok(()) },
            ],
            &mut stats,
        );
        assert_eq!(code(&steps), 0);
        assert_eq!(stats.eligible_intervals, 0);
        assert_eq!(stats.eligible_duration_us, 0);
    }
}

#[test]
fn a_thread_without_a_record_is_let_go() {
    let mut stats = CollectionStats::default();
    let steps = resume(
        &config(),
        TARGET,
        vec![Answer::Start { t_start: None }],
        &mut stats,
    );
    assert_eq!(code(&steps), 0);
    let steps = resume(
        &config(),
        TARGET,
        vec![
            Answer::Start { t_start: Some(0) },
            Answer::End { t_end: 2_000_000, removed: Err(-2) },
        ],
        &mut stats,
    );
    assert_eq!(code(&steps), 0xffff_fffe);
    assert_eq!(stats.eligible_intervals, 0);
}

#[test]
fn counts_turn_over() {
    let mut stats = CollectionStats {
        eligible_intervals: u64::MAX,
        eligible_duration_us: u64::MAX - 999,
        ..CollectionStats::default()
    };
    resume(
        &config(),
        TARGET,
        vec![
            Answer::Start { t_start: Some(0) },
            Answer::End { t_end: 1_001_000, removed: Ok(()) },
        ],
        &mut stats,
    );
    assert_eq!(stats.eligible_intervals, 0);
    assert_eq!(stats.eligible_duration_us, 1);
}

#[test]
fn the_counts_of_all_cpus_balance() {
    let mut cpus = vec![CollectionStats::default(); 3];
    let selected = |t_start: u64, t_end: u64| {
        vec![
            Answer::Start { t_start: Some(t_start) },
            Answer::End { t_end, removed: Ok(()) },
            Answer::Random { value: 0x7fff_ffff },
            Answer::Captured { kernel_stack: Ok(5), user_stack: Err(-17), name: None },
            Answer::Signalled { result: 0 },
            Answer::Emitted,
        ]
    };
    let rejected = |t_start: u64, t_end: u64| {
        vec![
            Answer::Start { t_start: Some(t_start) },
            Answer::End { t_end, removed: Ok(()) },
            Answer::Random { value: 0x8000_0000 },
        ]
    };
    let passed_over = |t_start: u64, t_end: u64, removed: Result<(), i64>| {
        vec![
            Answer::Start { t_start: Some(t_start) },
            Answer::End { t_end, removed },
        ]
    };
    let runs = vec![
        (0, selected(0, 1_000_000)),
        (2, rejected(5_000, 2_005_999)),
        (0, rejected(0, 60_000_000)),
        (1, passed_over(0, 999_999, Ok(()))),
        (1, vec![Answer::Start { t_start: None }]),
        (2, passed_over(0, 1_000_000, Err(-2))),
        (2, selected(1, 3_000_001)),
    ];
    for (cpu, answers) in runs {
        let steps = resume(&config(), TARGET, answers, &mut cpus[cpu]);
        assert!(matches!(steps.last(), Some(Resume::Return { .. })));
    }
    let stats = CollectionStats::sum(&cpus);
    assert_eq!(stats.eligible_intervals, 4);
    assert_eq!(stats.probability_rejections, 2);
    assert_eq!(stats.selected_intervals, 2);
    assert_eq!(stats.eligible_duration_us, 1_000 + 2_000 + 60_000 + 3_000);
    assert_eq!(cpus[1].eligible_intervals, 0);

    cpus[1].eligible_intervals = u64::MAX;
    cpus[1].probability_rejections = u64::MAX;
    cpus[1].eligible_duration_us = u64::MAX;
    let stats = CollectionStats::sum(&cpus);
    assert_eq!(stats.eligible_intervals, 3);
    assert_eq!(
        stats.eligible_intervals,
        stats.probability_rejections.wrapping_add(stats.selected_intervals)
    );
    assert_eq!(stats.eligible_duration_us, 65_999);
}
