use std::collections::BTreeMap;

use jbm::startup::{Outcome, Startup};

fn symbols() -> Outcome {
    Outcome::Symbols {
        symbols: BTreeMap::from([(1, "finish_task_switch.isra.0".to_string())]),
    }
}

fn outcome(step: &Startup, cpus: &[u32]) -> Outcome {
    match step {
        Startup::ReadKernelSymbols => symbols(),
        Startup::ListCpus { .. } => Outcome::Cpus { cpus: cpus.to_vec() },
        _ => Outcome::Done,
    }
}

fn name(step: &Startup) -> String {
    let shown = format!("{step:?}");
    shown.split(' ').next().unwrap().to_string()
}

fn failed(step: Startup) -> String {
    match step {
        Startup::Failed { error } => error,
        other => panic!("{other:?}"),
    }
}

#[test]
fn probes_are_attached_after_every_ring_has_a_reader() {
    let mut step = Startup::begin();
    let mut steps = Vec::new();
    let mut opened = Vec::new();
    loop {
        steps.push(name(&step));
        match &step {
            Startup::OpenReader { cpus, opened: at, .. } => opened.push(cpus[*at]),
            Startup::AttachResume { symbol, .. } => {
                assert_eq!(opened, vec![0, 2, 5]);
                assert_eq!(symbol, "finish_task_switch.isra.0");
            }
            Startup::Running { cpus } => {
                assert_eq!(*cpus, vec![0, 2, 5]);
                break;
            }
            _ => {}
        }
        let outcome = outcome(&step, &[0, 2, 5]);
        step = step.step(outcome);
    }
    assert_eq!(
        steps,
        vec![
            "LoadBpf",
            "ReadKernelSymbols",
            "GetResumeProbe",
            "LoadResumeProbe",
            "GetSwitchOutProbe",
            "LoadSwitchOutProbe",
            "OpenEvents",
            "ListCpus",
            "OpenReader",
            "OpenReader",
            "OpenReader",
            "AttachResume",
            "AttachSwitchOut",
            "Running",
        ]
    );
}

#[test]
fn each_step_fails_with_what_it_was_doing() {
    let mut step = Startup::begin();
    let mut errors = Vec::new();
    loop {
        if let Startup::Running { .. } = step {
            break;
        }
        let expected = outcome(&step, &[3]);
        let copy = match &step {
            Startup::LoadBpf => Startup::LoadBpf,
            Startup::ReadKernelSymbols => Startup::ReadKernelSymbols,
            Startup::GetResumeProbe { symbol } => Startup::GetResumeProbe { symbol: symbol.clone() },
            Startup::LoadResumeProbe { symbol } => Startup::LoadResumeProbe { symbol: symbol.clone() },
            Startup::GetSwitchOutProbe { symbol } => Startup::GetSwitchOutProbe { symbol: symbol.clone() },
            Startup::LoadSwitchOutProbe { symbol } => Startup::LoadSwitchOutProbe { symbol: symbol.clone() },
            Startup::OpenEvents { symbol } => Startup::OpenEvents { symbol: symbol.clone() },
            Startup::ListCpus { symbol } => Startup::ListCpus { symbol: symbol.clone() },
            Startup::OpenReader { symbol, cpus, opened } => Startup::OpenReader {
                symbol: symbol.clone(),
                cpus: cpus.clone(),
                opened: *opened,
            },
            Startup::AttachResume { symbol, cpus } => Startup::AttachResume {
                symbol: symbol.clone(),
                cpus: cpus.clone(),
            },
            Startup::AttachSwitchOut { cpus } => Startup::AttachSwitchOut { cpus: cpus.clone() },
            other => panic!("{other:?}"),
        };
        errors.push(failed(copy.step(Outcome::Failed { error: "no".to_string() })));
        step = step.step(expected);
    }
    assert_eq!(
        errors,
        vec![
            "load BPF program: no",
            "read kernel symbols: no",
            "get jbm kprobe program: no",
            "load finish_task_switch kprobe: no",
            "get sched_switch tracepoint program: no",
            "load sched_switch tracepoint program: no",
            "open BPF EVENTS map: no",
            "read online CPU list: no",
            "open BPF perf event buffer for CPU 3: no",
            "attach kprobe to finish_task_switch.isra.0: no",
            "attach sched_switch tracepoint program: no",
        ]
    );
}

#[test]
fn a_map_that_cannot_be_created_raises_the_memlock_limit_once() {
    let map_failed = || Outcome::MapFailed { error: "EPERM".to_string() };
    let raise = Startup::begin().step(map_failed());
    assert!(matches!(raise, Startup::RaiseMemlock { .. }));
    let again = raise.step(Outcome::Done);
    assert!(matches!(again, Startup::LoadBpfAgain));
    assert_eq!(
        failed(again.step(map_failed())),
        "load BPF program after raising memlock limit: EPERM"
    );
    let raise = Startup::begin().step(map_failed());
    assert_eq!(
        failed(raise.step(Outcome::Failed { error: "EACCES".to_string() })),
        "load BPF program and raise memlock limit: EPERM"
    );
    let again = Startup::LoadBpfAgain.step(Outcome::Done);
    assert!(matches!(again, Startup::ReadKernelSymbols));
}

#[test]
fn a_kernel_without_the_symbol_is_refused() {
    let step = Startup::ReadKernelSymbols.step(Outcome::Symbols { symbols: BTreeMap::new() });
    assert_eq!(
        failed(step),
        "cannot find finish_task_switch kernel symbol"
    );
}

#[test]
fn without_cpus_there_is_no_ring_to_open() {
    let step = Startup::ListCpus { symbol: "finish_task_switch".to_string() }
        .step(Outcome::Cpus { cpus: Vec::new() });
    assert!(matches!(step, Startup::AttachResume { .. }));
}
