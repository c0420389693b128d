use jbm::profiler::{check_exit, ProfilerSession};

fn session(library: Option<&str>) -> ProfilerSession {
    ProfilerSession::new(
        4321,
        library.map(str::to_string),
        "/tmp/jbm-ap-x".to_string(),
    )
}

#[test]
fn the_profiler_is_asked_to_accept_every_signal() {
    assert_eq!(
        session(None).profiler_arguments("start"),
        vec![
            "-e", "signal", "-o", "jsonl", "-f", "/tmp/jbm-ap-x", "-i", "1ns", "start", "4321"
        ]
    );
    assert_eq!(
        session(Some("/lib/libasyncProfiler.so")).profiler_arguments("stop"),
        vec![
            "-e",
            "signal",
            "-o",
            "jsonl",
            "-f",
            "/tmp/jbm-ap-x",
            "-i",
            "1ns",
            "--libpath",
            "/lib/libasyncProfiler.so",
            "stop",
            "4321"
        ]
    );
}

#[test]
fn an_exit_code_other_than_zero_is_an_error() {
    assert_eq!(check_exit(Some(0)), Ok(()));
    assert_eq!(
        check_exit(Some(3)),
        Err("async-profiler command exit with error: 3".to_string())
    );
    assert_eq!(
        check_exit(None),
        Err("async-profiler command exit with error: -1".to_string())
    );
}

#[test]
fn a_profiler_is_stopped_once() {
    let mut session = session(None);
    assert!(session.stop_arguments().is_some());
    assert!(session.stopped(Some(1)).is_err());
    assert!(session.active);
    assert_eq!(session.stopped(Some(0)), Ok(()));
    assert!(!session.active);
    assert!(session.stop_arguments().is_none());
    assert!(session.last_arguments(true).is_none());
}

#[test]
fn a_profiler_in_a_dead_process_need_not_be_stopped() {
    let session = session(None);
    assert!(session.last_arguments(false).is_none());
    assert_eq!(
        session.last_arguments(true),
        Some(session.profiler_arguments("stop"))
    );
}

#[test]
fn lines_are_taken_in_piece_by_piece() {
    let mut session = session(None);
    assert!(session.take_in(b"{\"ti".to_vec()).is_empty());
    assert_eq!(
        session.take_in(b"d\":1}\n{\"tid\":2}\n{".to_vec()),
        vec![b"{\"tid\":1}".to_vec(), b"{\"tid\":2}".to_vec()]
    );
    assert_eq!(session.pending, b"{");
}

#[test]
fn a_stop_is_tried_until_it_succeeds() {
    let mut session = session(None);
    let mut commands = 0;
    let mut results = Vec::new();
    let mut outcomes = vec![
        Err("No such file".to_string()),
        Ok(Some(2)),
        Ok(None),
        Ok(Some(0)),
    ]
    .into_iter();
    for _ in 0..6 {
        let run = session.stop_arguments().map(|_| {
            commands += 1;
            outcomes.next().unwrap()
        });
        results.push(session.stop_ended(run));
    }
    assert_eq!(commands, 4);
    assert_eq!(
        results,
        vec![
            Err("No such file".to_string()),
            Err("async-profiler command exit with error: 2".to_string()),
            Err("async-profiler command exit with error: -1".to_string()),
            Ok(()),
            Ok(()),
            Ok(()),
        ]
    );
    assert!(!session.active);
}
