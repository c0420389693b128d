use jbm::teardown::{time_is_up, Finding, Teardown};

fn readers(watermark_ns: u64, waited_ms: u64) -> Finding {
    Finding::Readers {
        watermark_ns,
        waited_ms,
    }
}

#[test]
fn readers_are_aborted_after_the_rings_have_drained() {
    let step = Teardown::begin(true, true);
    assert!(matches!(step, Teardown::DetachSwitchOut { .. }));
    let step = step.step(Finding::Done);
    assert!(matches!(step, Teardown::DetachResume));
    let step = step.step(Finding::Done);
    assert!(matches!(step, Teardown::ReadClock));
    let step = step.step(Finding::Clock { now_ns: 100 });
    assert!(matches!(step, Teardown::LookAtReaders { detached_at_ns: 100 }));
    let step = step.step(readers(99, 1_999));
    assert!(matches!(step, Teardown::Receive { detached_at_ns: 100 }));
    let step = step.step(Finding::Done);
    assert!(matches!(step, Teardown::LookAtReaders { detached_at_ns: 100 }));
    let step = step.step(readers(100, 2_000));
    assert!(matches!(step, Teardown::AbortReaders));
    let step = step.step(Finding::Done);
    assert!(matches!(step, Teardown::ReceiveRest));
    let step = step.step(Finding::Done);
    assert!(matches!(step, Teardown::Drained));
}

#[test]
fn what_is_not_attached_is_not_detached() {
    assert!(matches!(
        Teardown::begin(false, true),
        Teardown::DetachResume
    ));
    assert!(matches!(Teardown::begin(false, false), Teardown::ReadClock));
    assert!(matches!(
        Teardown::begin(true, false).step(Finding::Done),
        Teardown::ReadClock
    ));
}

#[test]
fn rings_that_do_not_drain_in_time_are_given_up() {
    let step = Teardown::LookAtReaders { detached_at_ns: 100 }.step(readers(99, 2_000));
    let Teardown::Failed { error } = step else {
        panic!("{step:?}");
    };
    assert_eq!(
        error,
        "timed out draining per-CPU perf readers after BPF detach"
    );
}

#[test]
fn a_failure_ends_the_teardown() {
    for step in [
        Teardown::begin(true, true),
        Teardown::DetachResume,
        Teardown::Receive { detached_at_ns: 1 },
        Teardown::ReceiveRest,
    ] {
        let next = step.step(Finding::Failed {
            error: "reader failed".to_string(),
        });
        assert!(matches!(next, Teardown::Failed { error } if error == "reader failed"));
    }
}

#[test]
fn rings_may_take_two_seconds_to_drain() {
    assert!(!time_is_up(0));
    assert!(!time_is_up(1_999));
    assert!(time_is_up(2_000));
    assert!(time_is_up(u64::MAX));
}
