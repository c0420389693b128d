//! What the kernel side decides when a thread leaves a CPU and when it resumes.
//!
//! The probes themselves can only call helpers of the kernel. What they ask for
//! and what they make of the answers is decided here: each step takes what was
//! observed and says what is needed next.

use vstd::prelude::*;

use crate::common::{BlockEvent, CollectionStats, Config, TASK_COMM_LEN};
use crate::counter;

verus! {

/// The signal that asks the JVM for a sample: `SIGPROF`.
pub const PROFILING_SIGNAL: u32 = 27;

/// A completed off-CPU interval of the target.
#[derive(Debug, Clone, Copy)]
pub struct Interval {
    pub pid: u32,
    pub tgid: u32,
    /// The length in whole microseconds.
    pub offtime: u64,
    pub t_start: u64,
    pub t_end: u64,
}

/// What the probe on a resuming thread needs next.
#[derive(Debug, Clone)]
pub enum Resume {
    /// When the thread left its CPU, if that was recorded.
    LookUpStart { pid: u32, tgid: u32 },
    /// The present time, and that the record of the thread is removed.
    TakeEnd { pid: u32, tgid: u32, t_start: u64 },
    /// A random number.
    Draw { interval: Interval },
    /// The stacks and the name of the thread.
    Capture { interval: Interval },
    /// That the thread is sent the profiling signal.
    Signal {
        interval: Interval,
        kernel_stack_id: i64,
        user_stack_id: i64,
        name: [u8; TASK_COMM_LEN],
    },
    /// That an event is output.
    Emit { event: BlockEvent },
    /// Nothing: the probe returns.
    Return { code: u32 },
}

/// What the kernel answers.
#[derive(Debug)]
pub enum Answer {
    Start { t_start: Option<u64> },
    End { t_end: u64, removed: Result<(), i64> },
    Random { value: u32 },
    Captured {
        kernel_stack: Result<i64, i64>,
        user_stack: Result<i64, i64>,
        name: Option<[u8; TASK_COMM_LEN]>,
    },
    Signalled { result: i64 },
    Emitted,
}

/// How much a step adds to each count.
pub struct Counts {
    pub eligible_intervals: nat,
    pub eligible_duration_us: nat,
    pub probability_rejections: nat,
    pub selected_intervals: nat,
    pub kernel_stack_failures: nat,
    pub user_stack_failures: nat,
    pub signal_failures: nat,
}

impl Counts {
    /// Nothing is added.
    pub open spec fn none() -> Counts {
        Counts {
            eligible_intervals: 0,
            eligible_duration_us: 0,
            probability_rejections: 0,
            selected_intervals: 0,
            kernel_stack_failures: 0,
            user_stack_failures: 0,
            signal_failures: 0,
        }
    }

    /// What two steps add together.
    pub open spec fn plus(self, other: Counts) -> Counts {
        Counts {
            eligible_intervals: self.eligible_intervals + other.eligible_intervals,
            eligible_duration_us: self.eligible_duration_us + other.eligible_duration_us,
            probability_rejections: self.probability_rejections + other.probability_rejections,
            selected_intervals: self.selected_intervals + other.selected_intervals,
            kernel_stack_failures: self.kernel_stack_failures + other.kernel_stack_failures,
            user_stack_failures: self.user_stack_failures + other.user_stack_failures,
            signal_failures: self.signal_failures + other.signal_failures,
        }
    }

    /// What the counts show afterwards.
    pub open spec fn added_to(self, stats: CollectionStats) -> CollectionStats {
        CollectionStats {
            eligible_intervals: counter::advanced(
                stats.eligible_intervals,
                self.eligible_intervals,
            ),
            eligible_duration_us: counter::advanced(
                stats.eligible_duration_us,
                self.eligible_duration_us,
            ),
            probability_rejections: counter::advanced(
                stats.probability_rejections,
                self.probability_rejections,
            ),
            selected_intervals: counter::advanced(
                stats.selected_intervals,
                self.selected_intervals,
            ),
            kernel_stack_failures: counter::advanced(
                stats.kernel_stack_failures,
                self.kernel_stack_failures,
            ),
            user_stack_failures: counter::advanced(
                stats.user_stack_failures,
                self.user_stack_failures,
            ),
            signal_failures: counter::advanced(stats.signal_failures, self.signal_failures),
        }
    }
}

/// The thread and the process in what the kernel gives as one number.
pub open spec fn pid_of(pid_tgid: u64) -> u32 {
    (pid_tgid % 0x1_0000_0000) as u32
}

pub open spec fn tgid_of(pid_tgid: u64) -> u32 {
    (pid_tgid / 0x1_0000_0000) as u32
}

/// The length of an interval in whole microseconds.
pub open spec fn offtime_us(t_start: u64, t_end: u64) -> u64 {
    ((t_end - t_start) / 1_000) as u64
}

/// An interval qualifies: it is of the target, time did not run backwards, and
/// its length is within the limits.
pub open spec fn qualifies(config: Config, tgid: u32, t_start: u64, t_end: u64) -> bool {
    &&& tgid == config.target_tgid
    &&& t_start <= t_end
    &&& config.min_block_us <= offtime_us(t_start, t_end) <= config.max_block_us
}

/// A random number selects the interval.
pub open spec fn selects(config: Config, random: u32) -> bool {
    random < config.sample_threshold
}

/// A stack's identifier, or the negative error in place of it.
pub open spec fn stack_id(stack: Result<i64, i64>) -> i64 {
    match stack {
        Ok(id) => id,
        Err(error) => error,
    }
}

/// What a probe returns for an error of the kernel: its low 32 bits.
pub open spec fn error_code(error: i64) -> u32 {
    (error as int % 0x1_0000_0000) as u32
}

/// The event that reports an interval.
pub open spec fn report(
    interval: Interval,
    kernel_stack_id: i64,
    user_stack_id: i64,
    name: [u8; TASK_COMM_LEN],
    signal_result: i64,
) -> BlockEvent {
    BlockEvent {
        pid: interval.pid,
        tgid: interval.tgid,
        user_stack_id,
        kernel_stack_id,
        name,
        offtime: interval.offtime,
        t_start: interval.t_start,
        t_end: interval.t_end,
        signal_result,
    }
}

impl Resume {
    /// An answer is to what was needed.
    pub open spec fn is_answered_by(self, answer: Answer) -> bool {
        match self {
            Resume::LookUpStart { .. } => answer is Start,
            Resume::TakeEnd { .. } => answer is End,
            Resume::Draw { .. } => answer is Random,
            Resume::Capture { .. } => answer is Captured,
            Resume::Signal { .. } => answer is Signalled,
            Resume::Emit { .. } => answer is Emitted,
            Resume::Return { .. } => false,
        }
    }

    /// What follows from an answer.
    pub open spec fn follows(self, config: Config, answer: Answer, next: Resume) -> bool {
        match (self, answer) {
            (Resume::LookUpStart { pid, tgid }, Answer::Start { t_start }) => match t_start {
                Some(t_start) => next == (Resume::TakeEnd { pid, tgid, t_start }),
                None => next == (Resume::Return { code: 0 }),
            },
            (
                Resume::TakeEnd { pid, tgid, t_start },
                Answer::End { t_end, removed },
            ) => match removed {
                Ok(_) => if qualifies(config, tgid, t_start, t_end) {
                    next == (Resume::Draw {
                        interval: Interval {
                            pid,
                            tgid,
                            offtime: offtime_us(t_start, t_end),
                            t_start,
                            t_end,
                        },
                    })
                } else {
                    next == (Resume::Return { code: 0 })
                },
                Err(error) => next == (Resume::Return { code: error_code(error) }),
            },
            (Resume::Draw { interval }, Answer::Random { value }) => if selects(config, value) {
                next == (Resume::Capture { interval })
            } else {
                next == (Resume::Return { code: 0 })
            },
            (
                Resume::Capture { interval },
                Answer::Captured { kernel_stack, user_stack, name },
            ) => {
                &&& next is Signal
                &&& next->Signal_interval == interval
                &&& next->Signal_kernel_stack_id == stack_id(kernel_stack)
                &&& next->Signal_user_stack_id == stack_id(user_stack)
                &&& match name {
                    Some(name) => next->Signal_name == name,
                    None => next->Signal_name@ == Seq::new(
                        TASK_COMM_LEN as nat,
                        |i: int| 0u8,
                    ),
                }
            },
            (
                Resume::Signal { interval, kernel_stack_id, user_stack_id, name },
                Answer::Signalled { result },
            ) => next == (Resume::Emit {
                event: report(interval, kernel_stack_id, user_stack_id, name, result),
            }),
            (Resume::Emit { .. }, Answer::Emitted) => next == (Resume::Return { code: 0 }),
            _ => false,
        }
    }

    /// What an answer adds to the counts.
    pub open spec fn counts(self, config: Config, answer: Answer) -> Counts {
        match (self, answer) {
            (
                Resume::TakeEnd { pid, tgid, t_start },
                Answer::End { t_end, removed },
            ) => if removed is Ok && qualifies(config, tgid, t_start, t_end) {
                Counts {
                    eligible_intervals: 1,
                    eligible_duration_us: offtime_us(t_start, t_end) as nat,
                    ..Counts::none()
                }
            } else {
                Counts::none()
            },
            (Resume::Draw { .. }, Answer::Random { value }) => if selects(config, value) {
                Counts { selected_intervals: 1, ..Counts::none() }
            } else {
                Counts { probability_rejections: 1, ..Counts::none() }
            },
            (
                Resume::Capture { .. },
                Answer::Captured { kernel_stack, user_stack, name },
            ) => Counts {
                kernel_stack_failures: if stack_id(kernel_stack) < 0 {
                    1
                } else {
                    0
                },
                user_stack_failures: if stack_id(user_stack) < 0 {
                    1
                } else {
                    0
                },
                ..Counts::none()
            },
            (Resume::Signal { .. }, Answer::Signalled { result }) => Counts {
                signal_failures: if result != 0 {
                    1
                } else {
                    0
                },
                ..Counts::none()
            },
            _ => Counts::none(),
        }
    }

    /// Takes an answer, keeps the counts, and says what is needed next.
    ///
    /// Selection comes before stacks are collected, the thread is signalled and
    /// an event is output. A stack that cannot be collected suppresses neither
    /// the event nor the signal: the event carries the negative error.
    pub fn step(self, config: &Config, answer: Answer, stats: &mut CollectionStats) -> (next:
        Resume)
        requires
            self.is_answered_by(answer),
        ensures
            self.follows(*config, answer, next),
            *final(stats) == self.counts(*config, answer).added_to(*old(stats)),
    {
        broadcast use counter::lemma_advanced_by_nothing;

        match (self, answer) {
            (Resume::LookUpStart { pid, tgid }, Answer::Start { t_start }) => match t_start {
                Some(t_start) => Resume::TakeEnd { pid, tgid, t_start },
                None => Resume::Return { code: 0 },
            },
            (Resume::TakeEnd { pid, tgid, t_start }, Answer::End { t_end, removed }) => {
                if let Err(error) = removed {
                    return Resume::Return { code: to_error_code(error) };
                }
                // The identifier of a thread of the target may since have been given to
                // a thread of another process.
                if tgid != config.target_tgid || t_start > t_end {
                    return Resume::Return { code: 0 };
                }
                let offtime = (t_end - t_start) / 1_000;
                if offtime < config.min_block_us || offtime > config.max_block_us {
                    return Resume::Return { code: 0 };
                }
                stats.eligible_intervals = counter::advance(stats.eligible_intervals, 1);
                stats.eligible_duration_us = counter::advance(stats.eligible_duration_us, offtime);
                Resume::Draw { interval: Interval { pid, tgid, offtime, t_start, t_end } }
            },
            (Resume::Draw { interval }, Answer::Random { value }) => {
                if (value as u64) < config.sample_threshold {
                    stats.selected_intervals = counter::advance(stats.selected_intervals, 1);
                    Resume::Capture { interval }
                } else {
                    stats.probability_rejections = counter::advance(
                        stats.probability_rejections,
                        1,
                    );
                    Resume::Return { code: 0 }
                }
            },
            (
                Resume::Capture { interval },
                Answer::Captured { kernel_stack, user_stack, name },
            ) => {
                let kernel_stack_id = match kernel_stack {
                    Ok(id) => id,
                    Err(error) => error,
                };
                let user_stack_id = match user_stack {
                    Ok(id) => id,
                    Err(error) => error,
                };
                if kernel_stack_id < 0 {
                    stats.kernel_stack_failures = counter::advance(stats.kernel_stack_failures, 1);
                }
                if user_stack_id < 0 {
                    stats.user_stack_failures = counter::advance(stats.user_stack_failures, 1);
                }
                let name = match name {
                    Some(name) => name,
                    None => {
                        let zeros: [u8; TASK_COMM_LEN] = [0;TASK_COMM_LEN];
                        assert(zeros@ =~= Seq::new(TASK_COMM_LEN as nat, |i: int| 0u8));
                        zeros
                    },
                };
                Resume::Signal { interval, kernel_stack_id, user_stack_id, name }
            },
            (
                Resume::Signal { interval, kernel_stack_id, user_stack_id, name },
                Answer::Signalled { result },
            ) => {
                if result != 0 {
                    stats.signal_failures = counter::advance(stats.signal_failures, 1);
                }
                Resume::Emit {
                    event: BlockEvent {
                        pid: interval.pid,
                        tgid: interval.tgid,
                        user_stack_id,
                        kernel_stack_id,
                        name,
                        offtime: interval.offtime,
                        t_start: interval.t_start,
                        t_end: interval.t_end,
                        signal_result: result,
                    },
                }
            },
            _ => Resume::Return { code: 0 },
        }
    }
}

/// The code that a probe returns for an error of the kernel.
fn to_error_code(error: i64) -> (code: u32)
    ensures
        code == error_code(error),
{
    let bits: u64 = if error < 0 {
        (error as i128 + 0x1_0000_0000_0000_0000i128) as u64
    } else {
        error as u64
    };
    (bits % 0x1_0000_0000) as u32
}

/// A thread leaves its CPU: its identifier and the time are to be recorded if
/// it is one of the target.
pub fn record_switch_out(config: &Config, pid_tgid: u64, now_ns: u64) -> (start: Option<(u32, u64)>)
    ensures
        start == (if tgid_of(pid_tgid) == config.target_tgid {
            Some((pid_of(pid_tgid), now_ns))
        } else {
            None
        }),
{
    let pid = (pid_tgid % 0x1_0000_0000) as u32;
    let tgid = (pid_tgid / 0x1_0000_0000) as u32;
    if tgid == config.target_tgid {
        Some((pid, now_ns))
    } else {
        None
    }
}

/// What the probe on a leaving thread returns, given whether the time could be
/// recorded.
pub fn switch_out_code(recorded: Result<(), i64>) -> (code: u32)
    ensures
        code == match recorded {
            Ok(_) => 0,
            Err(error) => error_code(error),
        },
{
    match recorded {
        Ok(_) => 0,
        Err(error) => to_error_code(error),
    }
}

/// A thread resumes.
pub fn jbm(pid_tgid: u64) -> (first: Resume)
    ensures
        first == (Resume::LookUpStart { pid: pid_of(pid_tgid), tgid: tgid_of(pid_tgid) }),
{
    Resume::LookUpStart {
        pid: (pid_tgid % 0x1_0000_0000) as u32,
        tgid: (pid_tgid / 0x1_0000_0000) as u32,
    }
}

/// The steps of a probe on a resuming thread, each with the answer to it.
pub open spec fn is_run(config: Config, steps: Seq<Resume>, answers: Seq<Answer>) -> bool {
    &&& steps.len() == answers.len() + 1
    &&& steps[0] is LookUpStart
    &&& forall|i: int|
        0 <= i < answers.len() ==> {
            &&& (#[trigger] steps[i]).is_answered_by(answers[i])
            &&& steps[i].follows(config, answers[i], steps[i + 1])
        }
}

/// What a run adds to the counts.
pub open spec fn run_counts(config: Config, steps: Seq<Resume>, answers: Seq<Answer>) -> Counts
    decreases answers.len(),
{
    if answers.len() == 0 {
        Counts::none()
    } else {
        run_counts(config, steps.drop_last(), answers.drop_last()).plus(
            steps[answers.len() - 1].counts(config, answers.last()),
        )
    }
}

/// The thread is sent the signal in a run.
pub open spec fn signals(steps: Seq<Resume>) -> bool {
    exists|i: int| 0 <= i < steps.len() && steps[i] is Signal
}

/// An event is output in a run.
pub open spec fn emits(steps: Seq<Resume>) -> bool {
    exists|i: int| 0 <= i < steps.len() && steps[i] is Emit
}

/// Where a run stands, by its last step.
spec fn stands(config: Config, steps: Seq<Resume>, answers: Seq<Answer>) -> bool {
    let counts = run_counts(config, steps, answers);
    match steps.last() {
        Resume::LookUpStart { .. } | Resume::TakeEnd { .. } => {
            &&& counts == Counts::none()
            &&& !signals(steps)
            &&& !emits(steps)
        },
        Resume::Draw { .. } => {
            &&& counts.eligible_intervals == 1
            &&& counts.selected_intervals == 0
            &&& counts.probability_rejections == 0
            &&& !signals(steps)
            &&& !emits(steps)
        },
        Resume::Capture { .. } | Resume::Signal { .. } | Resume::Emit { .. } => {
            &&& counts.eligible_intervals == 1
            &&& counts.selected_intervals == 1
            &&& counts.probability_rejections == 0
            &&& signals(steps) == !(steps.last() is Capture)
            &&& emits(steps) == (steps.last() is Emit)
        },
        Resume::Return { .. } => {
            &&& counts.eligible_intervals == counts.selected_intervals
                + counts.probability_rejections
            &&& counts.eligible_intervals <= 1
            &&& signals(steps) == (counts.selected_intervals == 1)
            &&& emits(steps) == (counts.selected_intervals == 1)
        },
    }
}

proof fn lemma_stands(config: Config, steps: Seq<Resume>, answers: Seq<Answer>)
    requires
        is_run(config, steps, answers),
    ensures
        stands(config, steps, answers),
    decreases answers.len(),
{
    if answers.len() > 0 {
        let fewer = steps.drop_last();
        let before = answers.drop_last();
        let i = answers.len() - 1;
        assert(is_run(config, fewer, before)) by {
            assert forall|k: int| 0 <= k < before.len() implies {
                &&& (#[trigger] fewer[k]).is_answered_by(before[k])
                &&& fewer[k].follows(config, before[k], fewer[k + 1])
            } by {
                assert(fewer[k] == steps[k]);
            }
        }
        lemma_stands(config, fewer, before);
        assert(steps[i].is_answered_by(answers[i]));
        assert(steps[i].follows(config, answers[i], steps[i + 1]));
        assert(fewer.last() == steps[i]);
        assert(signals(steps) == (signals(fewer) || steps.last() is Signal)) by {
            if signals(fewer) {
                let k = choose|k: int| 0 <= k < fewer.len() && fewer[k] is Signal;
                assert(steps[k] is Signal);
            }
            if signals(steps) {
                let k = choose|k: int| 0 <= k < steps.len() && steps[k] is Signal;
                if k < fewer.len() {
                    assert(fewer[k] is Signal);
                }
            }
            assert(steps.last() is Signal ==> steps[steps.len() - 1] is Signal);
        }
        assert(emits(steps) == (emits(fewer) || steps.last() is Emit)) by {
            if emits(fewer) {
                let k = choose|k: int| 0 <= k < fewer.len() && fewer[k] is Emit;
                assert(steps[k] is Emit);
            }
            if emits(steps) {
                let k = choose|k: int| 0 <= k < steps.len() && steps[k] is Emit;
                if k < fewer.len() {
                    assert(fewer[k] is Emit);
                }
            }
            assert(steps.last() is Emit ==> steps[steps.len() - 1] is Emit);
        }
    }
}

/// Every qualifying interval is counted, and counted once, as selected or as
/// rejected. The thread is signalled and an event is output if and only if the
/// interval was selected.
pub proof fn law_only_selected_intervals_are_signalled_and_reported(
    config: Config,
    steps: Seq<Resume>,
    answers: Seq<Answer>,
)
    requires
        is_run(config, steps, answers),
        steps.last() is Return,
    ensures
        ({
            let counts = run_counts(config, steps, answers);
            &&& counts.eligible_intervals <= 1
            &&& counts.eligible_intervals == counts.selected_intervals
                + counts.probability_rejections
            &&& signals(steps) <==> counts.selected_intervals == 1
            &&& emits(steps) <==> counts.selected_intervals == 1
        }),
{
    lemma_stands(config, steps, answers);
}

/// A selected interval is reported whatever fails after its selection: the
/// stacks, the name or the signal. The event says which did.
pub proof fn law_a_selected_interval_is_reported_whatever_fails(
    config: Config,
    steps: Seq<Resume>,
    answers: Seq<Answer>,
    pid: u32,
    tgid: u32,
    t_start: u64,
    t_end: u64,
    random: u32,
)
    requires
        is_run(config, steps, answers),
        steps[0] == (Resume::LookUpStart { pid, tgid }),
        answers.len() == 6,
        answers[0] == (Answer::Start { t_start: Some(t_start) }),
        answers[1] == (Answer::End { t_end, removed: Ok(()) }),
        qualifies(config, tgid, t_start, t_end),
        answers[2] == (Answer::Random { value: random }),
        selects(config, random),
    ensures
        steps[5] is Emit,
        ({
            let event = steps[5]->Emit_event;
            &&& event.pid == pid
            &&& event.tgid == tgid
            &&& event.t_start == t_start
            &&& event.t_end == t_end
            &&& event.offtime == offtime_us(t_start, t_end)
            &&& event.kernel_stack_id == stack_id(answers[3]->kernel_stack)
            &&& event.user_stack_id == stack_id(answers[3]->user_stack)
            &&& answers[3]->name is Some ==> event.name == answers[3]->name->0
            &&& event.signal_result == answers[4]->result
        }),
        steps[6] == (Resume::Return { code: 0 }),
{
    assert(steps[0].follows(config, answers[0], steps[1]));
    assert(steps[1].follows(config, answers[1], steps[2]));
    assert(steps[2].follows(config, answers[2], steps[3]));
    assert(steps[3].follows(config, answers[3], steps[4]));
    assert(steps[4].follows(config, answers[4], steps[5]));
    assert(steps[5].follows(config, answers[5], steps[6]));
}

/// The number that the kernel gives holds the process above the thread.
pub proof fn law_a_thread_and_its_process_make_up_the_number(pid: u32, tgid: u32, pid_tgid: u64)
    requires
        pid_tgid == tgid * 0x1_0000_0000 + pid,
    ensures
        pid_of(pid_tgid) == pid,
        tgid_of(pid_tgid) == tgid,
{
    vstd::arithmetic::div_mod::lemma_fundamental_div_mod_converse(
        pid_tgid as int,
        0x1_0000_0000,
        tgid as int,
        pid as int,
    );
}

/// The code for an error differs from it by a multiple of 2^32.
pub proof fn law_the_code_for_an_error_is_its_low_bits(error: i64)
    ensures
        (error - error_code(error)) % 0x1_0000_0000 == 0,
        0 <= error <= u32::MAX ==> error_code(error) == error,
        i32::MIN <= error < 0 ==> error_code(error) == 0x1_0000_0000 + error,
{
    let turn: int = 0x1_0000_0000;
    vstd::arithmetic::div_mod::lemma_fundamental_div_mod(error as int, turn);
    vstd::arithmetic::div_mod::lemma_mod_multiples_basic(error as int / turn, turn);
    if i32::MIN <= error < 0 {
        vstd::arithmetic::div_mod::lemma_fundamental_div_mod_converse(
            error as int,
            turn,
            -1,
            turn + error,
        );
    }
}

/// A thread of which it was not recorded when it left its CPU is let go; for another
/// the end is taken. Nothing is counted.
pub proof fn law_a_resuming_thread_needs_a_record(
    config: Config,
    pid: u32,
    tgid: u32,
    t_start: Option<u64>,
    next: Resume,
    stats: CollectionStats,
)
    requires
        (Resume::LookUpStart { pid, tgid }).follows(config, Answer::Start { t_start }, next),
    ensures
        t_start is None ==> next == (Resume::Return { code: 0 }),
        t_start matches Some(start) ==> next == (Resume::TakeEnd { pid, tgid, t_start: start }),
        (Resume::LookUpStart { pid, tgid }).counts(config, Answer::Start { t_start }).added_to(stats)
            == stats,
{
    broadcast use counter::lemma_advanced_by_nothing;

}

/// An interval is eligible if and only if it is of the target and its length, in
/// nanoseconds, is at least the minimum and less than a microsecond more than the
/// maximum. Then it goes on with its length in whole microseconds, rounded down, and
/// it and its length are counted. Otherwise the thread is let go and nothing is
/// counted.
pub proof fn law_an_interval_is_eligible_by_its_length(
    config: Config,
    pid: u32,
    tgid: u32,
    t_start: u64,
    t_end: u64,
    removed: Result<(), i64>,
    next: Resume,
    stats: CollectionStats,
)
    requires
        removed is Ok,
        (Resume::TakeEnd { pid, tgid, t_start }).follows(
            config,
            Answer::End { t_end, removed },
            next,
        ),
    ensures
        ({
            let eligible = tgid == config.target_tgid && config.min_block_us * 1_000 <= t_end
                - t_start < (config.max_block_us + 1) * 1_000 && t_start <= t_end;
            let after = (Resume::TakeEnd { pid, tgid, t_start }).counts(
                config,
                Answer::End { t_end, removed },
            ).added_to(stats);
            &&& eligible <==> next is Draw
            &&& eligible ==> {
                let interval = next->Draw_interval;
                &&& interval.pid == pid
                &&& interval.tgid == tgid
                &&& interval.t_start == t_start
                &&& interval.t_end == t_end
                &&& interval.offtime * 1_000 <= t_end - t_start
                &&& t_end - t_start < (interval.offtime + 1) * 1_000
                &&& after == (CollectionStats {
                    eligible_intervals: after.eligible_intervals,
                    eligible_duration_us: after.eligible_duration_us,
                    ..stats
                })
                &&& after.eligible_intervals == (stats.eligible_intervals + 1)
                    % 0x1_0000_0000_0000_0000
                &&& after.eligible_duration_us == (stats.eligible_duration_us + interval.offtime)
                    % 0x1_0000_0000_0000_0000
            }
            &&& !eligible ==> next == (Resume::Return { code: 0 }) && after == stats
        }),
{
    broadcast use counter::lemma_advanced_by_nothing;

    if t_start <= t_end {
        let length = t_end - t_start;
        let us = length / 1_000;
        assert(us * 1_000 <= length < (us + 1) * 1_000);
    }
}

/// Where the record cannot be removed, the thread is let go with the low bits of the
/// error, and nothing is counted.
pub proof fn law_a_record_that_stays_ends_the_probe(
    config: Config,
    pid: u32,
    tgid: u32,
    t_start: u64,
    t_end: u64,
    error: i64,
    next: Resume,
    stats: CollectionStats,
)
    requires
        (Resume::TakeEnd { pid, tgid, t_start }).follows(
            config,
            Answer::End { t_end, removed: Err(error) },
            next,
        ),
    ensures
        next is Return,
        (error - next->code) % 0x1_0000_0000 == 0,
        (Resume::TakeEnd { pid, tgid, t_start }).counts(
            config,
            Answer::End { t_end, removed: Err(error) },
        ).added_to(stats) == stats,
{
    broadcast use counter::lemma_advanced_by_nothing;

    law_the_code_for_an_error_is_its_low_bits(error);
}

/// A random number selects the interval if and only if it is less than the threshold,
/// and the interval is counted as selected or as rejected.
pub proof fn law_a_number_below_the_threshold_selects(
    config: Config,
    interval: Interval,
    value: u32,
    next: Resume,
    stats: CollectionStats,
)
    requires
        (Resume::Draw { interval }).follows(config, Answer::Random { value }, next),
    ensures
        ({
            let after = (Resume::Draw { interval }).counts(
                config,
                Answer::Random { value },
            ).added_to(stats);
            if (value as int) < config.sample_threshold as int {
                &&& next == (Resume::Capture { interval })
                &&& after == (CollectionStats {
                    selected_intervals: after.selected_intervals,
                    ..stats
                })
                &&& after.selected_intervals == (stats.selected_intervals + 1)
                    % 0x1_0000_0000_0000_0000
            } else {
                &&& next == (Resume::Return { code: 0 })
                &&& after == (CollectionStats {
                    probability_rejections: after.probability_rejections,
                    ..stats
                })
                &&& after.probability_rejections == (stats.probability_rejections + 1)
                    % 0x1_0000_0000_0000_0000
            }
        }),
{
    broadcast use counter::lemma_advanced_by_nothing;

}

/// The random numbers that lead from a draw to the capture of the stacks.
pub open spec fn selecting_numbers(config: Config, interval: Interval) -> Set<int> {
    Set::new(
        |value: int|
            0 <= value < 0x1_0000_0000 && (Resume::Draw { interval }).follows(
                config,
                Answer::Random { value: value as u32 },
                Resume::Capture { interval },
            ),
    )
}

/// Of all 32-bit numbers as many select an interval as the threshold says.
pub proof fn law_as_many_numbers_select_as_the_threshold_says(config: Config, interval: Interval)
    requires
        config.sample_threshold <= 0x1_0000_0000,
    ensures
        selecting_numbers(config, interval).finite(),
        selecting_numbers(config, interval).len() == config.sample_threshold,
        forall|value: u32|
            selecting_numbers(config, interval).contains(value as int) <==> (value as int)
                < config.sample_threshold as int,
{
    let threshold = config.sample_threshold as int;
    vstd::set_lib::lemma_int_range(0, threshold);
    assert(selecting_numbers(config, interval) =~= vstd::set_lib::set_int_range(0, threshold));
}

/// Stacks and name go on as they were captured: a stack that could not be captured as
/// the error in place of its identifier, a name that could not as zeros. Negative
/// identifiers are counted.
pub proof fn law_what_was_captured_goes_on(
    config: Config,
    interval: Interval,
    kernel_stack: Result<i64, i64>,
    user_stack: Result<i64, i64>,
    name: Option<[u8; TASK_COMM_LEN]>,
    next: Resume,
    stats: CollectionStats,
)
    requires
        (Resume::Capture { interval }).follows(
            config,
            Answer::Captured { kernel_stack, user_stack, name },
            next,
        ),
    ensures
        ({
            let after = (Resume::Capture { interval }).counts(
                config,
                Answer::Captured { kernel_stack, user_stack, name },
            ).added_to(stats);
            let kernel_id = next->Signal_kernel_stack_id;
            let user_id = next->Signal_user_stack_id;
            &&& next is Signal
            &&& next->Signal_interval == interval
            &&& kernel_stack == Ok::<i64, i64>(kernel_id) || kernel_stack == Err::<i64, i64>(
                kernel_id,
            )
            &&& user_stack == Ok::<i64, i64>(user_id) || user_stack == Err::<i64, i64>(user_id)
            &&& name matches Some(name) ==> next->Signal_name == name
            &&& name is None ==> next->Signal_name@.len() == 16 && forall|i: int|
                0 <= i < 16 ==> next->Signal_name@[i] == 0
            &&& after == (CollectionStats {
                kernel_stack_failures: after.kernel_stack_failures,
                user_stack_failures: after.user_stack_failures,
                ..stats
            })
            &&& after.kernel_stack_failures == (stats.kernel_stack_failures + if kernel_id < 0 {
                1int
            } else {
                0int
            }) % 0x1_0000_0000_0000_0000
            &&& after.user_stack_failures == (stats.user_stack_failures + if user_id < 0 {
                1int
            } else {
                0int
            }) % 0x1_0000_0000_0000_0000
        }),
{
    broadcast use counter::lemma_advanced_by_nothing;

}

/// Once the thread was signalled an event is output, with all that is known of the
/// interval and with the outcome of the signal, and then the probe returns. A signal
/// that failed is counted.
pub proof fn law_a_signalled_interval_is_output(
    config: Config,
    interval: Interval,
    kernel_stack_id: i64,
    user_stack_id: i64,
    name: [u8; TASK_COMM_LEN],
    result: i64,
    next: Resume,
    last: Resume,
    stats: CollectionStats,
)
    requires
        (Resume::Signal { interval, kernel_stack_id, user_stack_id, name }).follows(
            config,
            Answer::Signalled { result },
            next,
        ),
        next.follows(config, Answer::Emitted, last),
    ensures
        next == (Resume::Emit {
            event: BlockEvent {
                pid: interval.pid,
                tgid: interval.tgid,
                user_stack_id,
                kernel_stack_id,
                name,
                offtime: interval.offtime,
                t_start: interval.t_start,
                t_end: interval.t_end,
                signal_result: result,
            },
        }),
        last == (Resume::Return { code: 0 }),
        next.counts(config, Answer::Emitted).added_to(stats) == stats,
        ({
            let after = (Resume::Signal {
                interval,
                kernel_stack_id,
                user_stack_id,
                name,
            }).counts(config, Answer::Signalled { result }).added_to(stats);
            &&& after == (CollectionStats { signal_failures: after.signal_failures, ..stats })
            &&& after.signal_failures == (stats.signal_failures + if result != 0 {
                1int
            } else {
                0int
            }) % 0x1_0000_0000_0000_0000
        }),
{
    broadcast use counter::lemma_advanced_by_nothing;

}

/// A run ends in an event if and only if it was recorded when the thread left its
/// CPU, the record could be removed, the interval is of the target and of a length
/// within the limits, and the random number was below the threshold. The event holds
/// the thread, the times, the length in whole microseconds, rounded down, and what
/// was captured.
pub proof fn law_a_block_within_the_limits_is_reported(
    config: Config,
    steps: Seq<Resume>,
    answers: Seq<Answer>,
    pid: u32,
    tgid: u32,
)
    requires
        is_run(config, steps, answers),
        steps.last() is Return,
        steps[0] == (Resume::LookUpStart { pid, tgid }),
    ensures
        ({
            let start = answers[0]->t_start->0;
            let end = answers[1]->t_end;
            let reported = {
                &&& answers.len() >= 3
                &&& answers[0]->t_start is Some
                &&& answers[1] is End
                &&& answers[1]->removed is Ok
                &&& tgid == config.target_tgid
                &&& start <= end
                &&& config.min_block_us * 1_000 <= end - start
                &&& end - start < (config.max_block_us + 1) * 1_000
                &&& answers[2] is Random
                &&& (answers[2]->value as int) < config.sample_threshold as int
            };
            &&& emits(steps) <==> reported
            &&& reported ==> {
                let event = steps[5]->Emit_event;
                &&& answers.len() == 6
                &&& steps[5] is Emit
                &&& event.pid == pid
                &&& event.tgid == tgid
                &&& event.t_start == start
                &&& event.t_end == end
                &&& event.offtime * 1_000 <= end - start
                &&& end - start < (event.offtime + 1) * 1_000
                &&& answers[3]->kernel_stack == Ok::<i64, i64>(event.kernel_stack_id)
                    || answers[3]->kernel_stack == Err::<i64, i64>(event.kernel_stack_id)
                &&& answers[3]->user_stack == Ok::<i64, i64>(event.user_stack_id)
                    || answers[3]->user_stack == Err::<i64, i64>(event.user_stack_id)
                &&& answers[3]->name matches Some(name) ==> event.name == name
                &&& event.signal_result == answers[4]->result
            }
        }),
{
    let n = answers.len() as int;
    assert forall|i: int| 0 <= i < n implies !(#[trigger] steps[i] is Return) by {
        assert(steps[i].is_answered_by(answers[i]));
    }
    assert(n > 0);
    assert(steps[0].is_answered_by(answers[0]));
    assert(steps[0].follows(config, answers[0], steps[1]));
    if steps[1] is Return {
        assert(n == 1);
    } else {
        assert(steps[1].is_answered_by(answers[1]));
        assert(steps[1].follows(config, answers[1], steps[2]));
        if answers[1]->removed is Ok {
            let stats = CollectionStats {
                eligible_intervals: 0,
                eligible_duration_us: 0,
                probability_rejections: 0,
                selected_intervals: 0,
                kernel_stack_failures: 0,
                user_stack_failures: 0,
                signal_failures: 0,
            };
            law_an_interval_is_eligible_by_its_length(
                config,
                pid,
                tgid,
                answers[0]->t_start->0,
                answers[1]->t_end,
                answers[1]->removed,
                steps[2],
                stats,
            );
        }
        if steps[2] is Return {
            assert(n == 2);
        } else {
            assert(steps[2].is_answered_by(answers[2]));
            assert(steps[2].follows(config, answers[2], steps[3]));
            if steps[3] is Return {
                assert(n == 3);
            } else {
                assert(steps[3].is_answered_by(answers[3]));
                assert(steps[3].follows(config, answers[3], steps[4]));
                assert(steps[4].is_answered_by(answers[4]));
                assert(steps[4].follows(config, answers[4], steps[5]));
                assert(steps[5].is_answered_by(answers[5]));
                assert(steps[5].follows(config, answers[5], steps[6]));
                assert(n == 6);
            }
        }
    }
}

} // verus!
