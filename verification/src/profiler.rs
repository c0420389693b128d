//! A session of async-profiler in the target JVM.

use vstd::prelude::*;

use crate::lines;
use crate::text;

verus! {

/// The interval between samples that makes the profiler accept every signal.
pub const MINIMUM_SIGNAL_INTERVAL: &'static str = "1ns";

/// What is known of a session.
#[derive(Debug)]
pub struct ProfilerSession {
    /// The target process.
    pub pid: u32,
    /// The profiler's library as the target sees it, if it is not the one that
    /// comes with the command.
    pub library_path: Option<String>,
    /// Where the profiler writes samples.
    pub output_path: String,
    /// What was read of a line that is not complete yet.
    pub pending: Vec<u8>,
    /// The profiler has been started and not stopped.
    pub active: bool,
}

/// Texts by their characters.
pub open spec fn texts(strings: Seq<String>) -> Seq<Seq<char>> {
    strings.map_values(|string: String| string@)
}

/// The arguments of the profiler's command.
pub open spec fn arguments(
    output_path: Seq<char>,
    library_path: Option<String>,
    subcommand: Seq<char>,
    pid: u32,
) -> Seq<Seq<char>> {
    seq!["-e"@, "signal"@, "-o"@, "jsonl"@, "-f"@, output_path, "-i"@, MINIMUM_SIGNAL_INTERVAL@]
        + match library_path {
        Some(path) => seq!["--libpath"@, path@],
        None => seq![],
    } + seq![subcommand, text::decimal(pid as nat)]
}

/// The exit code of the profiler's command says that it succeeded.
pub open spec fn succeeded(code: Option<i32>) -> bool {
    code == Some(0i32)
}

/// Why the profiler's command failed. One that a signal has ended has no exit
/// code of its own.
pub open spec fn exit_error(code: Option<i32>) -> Seq<char> {
    "async-profiler command exit with error: "@ + text::signed_decimal(
        match code {
            Some(code) => code as int,
            None => -1,
        },
    )
}

/// Appends an argument.
fn push_argument(arguments: &mut Vec<String>, argument: &str)
    ensures
        texts(final(arguments)@) == texts(old(arguments)@).push(argument@),
{
    let ghost before = texts(arguments@);
    arguments.push(text::copied(argument));
    assert(texts(arguments@) =~= before.push(argument@));
}

/// Whether the profiler's command succeeded.
pub fn check_exit(code: Option<i32>) -> (result: Result<(), String>)
    ensures
        match result {
            Ok(_) => succeeded(code),
            Err(error) => !succeeded(code) && error@ == exit_error(code),
        },
{
    let code: i32 = match code {
        Some(code) => code,
        None => -1,
    };
    if code != 0 {
        let mut error = text::copied("async-profiler command exit with error: ");
        text::append_signed_decimal(&mut error, code as i64);
        return Err(error);
    }
    Ok(())
}

impl ProfilerSession {
    /// A session that is about to be started.
    pub fn new(pid: u32, library_path: Option<String>, output_path: String) -> (session:
        ProfilerSession)
        ensures
            session.pid == pid,
            session.library_path == library_path,
            session.output_path == output_path,
            session.pending@ == Seq::<u8>::empty(),
            session.active,
    {
        ProfilerSession { pid, library_path, output_path, pending: Vec::new(), active: true }
    }

    /// The arguments of the profiler's command.
    pub fn profiler_arguments(&self, subcommand: &str) -> (result: Vec<String>)
        ensures
            texts(result@) == arguments(
                self.output_path@,
                self.library_path,
                subcommand@,
                self.pid,
            ),
    {
        let mut args: Vec<String> = Vec::new();
        assert(texts(args@) =~= seq![]);
        push_argument(&mut args, "-e");
        push_argument(&mut args, "signal");
        push_argument(&mut args, "-o");
        push_argument(&mut args, "jsonl");
        push_argument(&mut args, "-f");
        push_argument(&mut args, self.output_path.as_str());
        push_argument(&mut args, "-i");
        push_argument(&mut args, MINIMUM_SIGNAL_INTERVAL);
        if let Some(library_path) = &self.library_path {
            push_argument(&mut args, "--libpath");
            push_argument(&mut args, library_path.as_str());
        }
        push_argument(&mut args, subcommand);
        let mut pid = String::new();
        text::append_decimal(&mut pid, self.pid as u64);
        assert(pid@ =~= text::decimal(self.pid as nat));
        push_argument(&mut args, pid.as_str());
        assert(texts(args@) =~= arguments(
            self.output_path@,
            self.library_path,
            subcommand@,
            self.pid,
        ));
        args
    }

    /// Takes in bytes that the profiler has written, and gives out the lines
    /// that they complete.
    pub fn take_in(&mut self, bytes: Vec<u8>) -> (complete: Vec<Vec<u8>>)
        ensures
            complete@.map_values(|line: Vec<u8>| line@) == lines::complete_lines(
                old(self).pending@ + bytes@,
            ),
            final(self).pending@ == lines::incomplete_line(old(self).pending@ + bytes@),
            *final(self) == (ProfilerSession { pending: final(self).pending, ..*old(self) }),
    {
        let mut bytes = bytes;
        self.pending.append(&mut bytes);
        lines::drain_complete_lines(&mut self.pending)
    }

    /// The arguments of the command that stops the profiler, if it is to be
    /// stopped.
    pub fn stop_arguments(&self) -> (result: Option<Vec<String>>)
        ensures
            match result {
                Some(args) => self.active && texts(args@) == arguments(
                    self.output_path@,
                    self.library_path,
                    "stop"@,
                    self.pid,
                ),
                None => !self.active,
            },
    {
        if self.active {
            Some(self.profiler_arguments("stop"))
        } else {
            None
        }
    }

    /// Notes how the command that stops the profiler has ended. A profiler that
    /// could not be stopped is still active.
    pub fn stopped(&mut self, code: Option<i32>) -> (result: Result<(), String>)
        ensures
            match result {
                Ok(_) => succeeded(code),
                Err(error) => !succeeded(code) && error@ == exit_error(code),
            },
            *final(self) == (ProfilerSession {
                active: old(self).active && !succeeded(code),
                ..*old(self)
            }),
    {
        let result = check_exit(code);
        if result.is_ok() {
            self.active = false;
        }
        result
    }

    /// Notes what came of stopping the profiler: nothing was run, the command could
    /// not be run, or it has ended. A profiler that is not active is stopped
    /// already, so that nothing is run and nothing fails.
    pub fn stop_ended(&mut self, run: Option<Result<Option<i32>, String>>) -> (result: Result<
        (),
        String,
    >)
        requires
            run is Some <==> old(self).active,
        ensures
            is_stop(*old(self), run, result, *final(self)),
    {
        match run {
            None => Ok(()),
            Some(Err(error)) => Err(error),
            Some(Ok(code)) => self.stopped(code),
        }
    }

    /// The arguments of the command that stops the profiler when the session is
    /// given up, if it is to be stopped: a target that has ended needs none.
    pub fn last_arguments(&self, target_is_alive: bool) -> (result: Option<Vec<String>>)
        ensures
            match result {
                Some(args) => self.active && target_is_alive && texts(args@) == arguments(
                    self.output_path@,
                    self.library_path,
                    "stop"@,
                    self.pid,
                ),
                None => !(self.active && target_is_alive),
            },
    {
        if target_is_alive {
            self.stop_arguments()
        } else {
            None
        }
    }
}

/// Running the command that stops the profiler stops it: the command could be run
/// and succeeded.
pub open spec fn stops(run: Result<Option<i32>, String>) -> bool {
    run matches Ok(code) && succeeded(code)
}

/// Whether a session is active after a stop, given what running the command gives
/// if it is run: an inactive session runs nothing and stays so, and one that could
/// not be stopped is still active.
pub open spec fn after_stop(active: bool, run: Result<Option<i32>, String>) -> bool {
    active && !stops(run)
}

/// Whether a session is active after some stops.
pub open spec fn after_stops(active: bool, runs: Seq<Result<Option<i32>, String>>) -> bool
    decreases runs.len(),
{
    if runs.len() == 0 {
        active
    } else {
        after_stop(after_stops(active, runs.drop_last()), runs.last())
    }
}

/// However often a profiler is stopped, a session is active as long as no stop has
/// succeeded: a stop that fails is tried again by the next, and after the first
/// that succeeds there is nothing left to run.
pub proof fn law_a_profiler_is_stopped_until_it_stops(
    active: bool,
    runs: Seq<Result<Option<i32>, String>>,
)
    ensures
        after_stops(active, runs) <==> active && forall|i: int|
            0 <= i < runs.len() ==> !stops(#[trigger] runs[i]),
    decreases runs.len(),
{
    if runs.len() > 0 {
        let before = runs.drop_last();
        law_a_profiler_is_stopped_until_it_stops(active, before);
        if after_stops(active, runs) {
            assert forall|i: int| 0 <= i < runs.len() implies !stops(#[trigger] runs[i]) by {
                if i < before.len() {
                    assert(runs[i] == before[i]);
                }
            }
        }
        if active && forall|i: int| 0 <= i < runs.len() ==> !stops(#[trigger] runs[i]) {
            assert forall|i: int| 0 <= i < before.len() implies !stops(#[trigger] before[i]) by {
                assert(before[i] == runs[i]);
            }
            assert(!stops(runs[runs.len() - 1]));
        }
    }
}

/// A stop of a session: what it ran, if it ran the command, what it returned, and
/// the session afterwards.
pub open spec fn is_stop(
    before: ProfilerSession,
    run: Option<Result<Option<i32>, String>>,
    result: Result<(), String>,
    after: ProfilerSession,
) -> bool {
    &&& run is Some <==> before.active
    &&& match run {
        None => result is Ok,
        Some(Err(error)) => result == Err::<(), String>(error),
        Some(Ok(code)) => match result {
            Ok(_) => succeeded(code),
            Err(error) => !succeeded(code) && error@ == exit_error(code),
        },
    }
    &&& after == (ProfilerSession {
        active: run is Some && after_stop(before.active, run->0),
        ..before
    })
}

/// Stops of a session, one after the other.
pub open spec fn are_stops(
    sessions: Seq<ProfilerSession>,
    runs: Seq<Option<Result<Option<i32>, String>>>,
    results: Seq<Result<(), String>>,
) -> bool {
    &&& sessions.len() == runs.len() + 1
    &&& results.len() == runs.len()
    &&& forall|i: int|
        0 <= i < runs.len() ==> is_stop(
            #[trigger] sessions[i],
            runs[i],
            results[i],
            sessions[i + 1],
        )
}

/// A session that is not active stays so, runs nothing and fails at nothing.
proof fn lemma_inactive_stays_so(
    sessions: Seq<ProfilerSession>,
    runs: Seq<Option<Result<Option<i32>, String>>>,
    results: Seq<Result<(), String>>,
    from: int,
    i: int,
)
    requires
        are_stops(sessions, runs, results),
        0 <= from <= i < sessions.len(),
        !sessions[from].active,
    ensures
        !sessions[i].active,
        i < runs.len() ==> runs[i] is None && results[i] is Ok,
    decreases i - from,
{
    if i > from {
        lemma_inactive_stays_so(sessions, runs, results, from, i - 1);
        assert(is_stop(sessions[i - 1], runs[i - 1], results[i - 1], sessions[i]));
    }
    if i < runs.len() {
        assert(is_stop(sessions[i], runs[i], results[i], sessions[i + 1]));
    }
}

/// However often a session is stopped, a stop runs the command if and only if the
/// session is active. One that fails leaves the session active, so that the next
/// tries again. After the first that does not fail the session is inactive, and
/// every later stop succeeds without running anything.
pub proof fn law_a_session_is_stopped_once(
    sessions: Seq<ProfilerSession>,
    runs: Seq<Option<Result<Option<i32>, String>>>,
    results: Seq<Result<(), String>>,
    i: int,
)
    requires
        are_stops(sessions, runs, results),
        0 <= i < runs.len(),
    ensures
        runs[i] is Some <==> sessions[i].active,
        results[i] is Err ==> sessions[i].active && sessions[i + 1].active,
        results[i] is Ok ==> forall|later: int|
            i < later < runs.len() ==> !(#[trigger] sessions[later]).active && runs[later] is None
                && results[later] is Ok,
        results[i] is Ok ==> !sessions[runs.len() as int].active,
{
    assert(is_stop(sessions[i], runs[i], results[i], sessions[i + 1]));
    if results[i] is Ok {
        assert(!sessions[i + 1].active);
        assert forall|later: int| i < later < runs.len() implies !(
        #[trigger] sessions[later]).active && runs[later] is None && results[later] is Ok by {
            lemma_inactive_stays_so(sessions, runs, results, i + 1, later);
        }
        lemma_inactive_stays_so(sessions, runs, results, i + 1, runs.len() as int);
    }
}

/// The profiler's command is asked to react to signals, as often as they come, and to
/// write samples as lines of JSON to the file of the session; then it is told the
/// library of the target, if there is one, what to do, and the process.
pub proof fn law_the_profiler_samples_every_signal(
    output_path: Seq<char>,
    library_path: Option<String>,
    subcommand: Seq<char>,
    pid: u32,
)
    ensures
        ({
            let given = arguments(output_path, library_path, subcommand, pid);
            let n = given.len() as int;
            &&& given.take(8) == seq![
                "-e"@,
                "signal"@,
                "-o"@,
                "jsonl"@,
                "-f"@,
                output_path,
                "-i"@,
                "1ns"@,
            ]
            &&& given[n - 2] == subcommand
            &&& given[n - 1] == text::decimal(pid as nat)
            &&& library_path is None ==> n == 10
            &&& library_path matches Some(path) ==> n == 12 && given[8] == "--libpath"@ && given[9]
                == path@
        }),
{
    let given = arguments(output_path, library_path, subcommand, pid);
    assert(given.take(8) =~= seq![
        "-e"@,
        "signal"@,
        "-o"@,
        "jsonl"@,
        "-f"@,
        output_path,
        "-i"@,
        "1ns"@,
    ]);
}

/// The command has succeeded if and only if it ended with code zero. Any other code is
/// shown, and minus one where there is none.
pub proof fn law_a_failed_command_shows_its_code(code: Option<i32>)
    ensures
        succeeded(code) <==> code == Some(0i32),
        exit_error(None) == "async-profiler command exit with error: -1"@,
        code matches Some(code) ==> exit_error(Some(code))
            == "async-profiler command exit with error: "@ + text::signed_decimal(code as int),
{
    reveal_strlit("async-profiler command exit with error: -1");
    reveal_strlit("async-profiler command exit with error: ");
    text::law_decimal_digits_stand_for_powers_of_ten(0, 1);
    text::law_a_minus_sign_stands_before_a_negative_number(1);
    assert(text::decimal(1) =~= seq!['1']);
    assert(exit_error(None) =~= "async-profiler command exit with error: -1"@);
}

/// Stopping a session runs the command if and only if the session is active, and fails
/// if and only if the command could not be run or ended otherwise than with code zero.
/// After a stop that fails the session is still active, after any other it is not; the
/// rest of the session stays as it was.
pub proof fn law_a_stop_fails_if_the_command_does(
    before: ProfilerSession,
    run: Option<Result<Option<i32>, String>>,
    result: Result<(), String>,
    after: ProfilerSession,
)
    requires
        is_stop(before, run, result, after),
    ensures
        run is Some <==> before.active,
        result is Ok <==> run is None || (run->0 matches Ok(code) && code == Some(0i32)),
        run matches Some(Err(error)) ==> result == Err::<(), String>(error),
        after.active <==> result is Err,
        after.pid == before.pid,
        after.library_path == before.library_path,
        after.output_path == before.output_path,
        after.pending == before.pending,
{
}

} // verus!
