//! The order in which the monitor is set up.
//!
//! Each step says what is to be done next, given how the last one turned out.

use std::collections::BTreeMap;

use vstd::prelude::*;

use crate::symbols;
use crate::text;

verus! {

/// What is to be done next.
#[derive(Debug)]
pub enum Startup {
    /// Load the kernel side.
    LoadBpf,
    /// Raise the limit on locked memory, for want of which a map could not be
    /// created.
    RaiseMemlock { error: String },
    /// Load the kernel side once more.
    LoadBpfAgain,
    ReadKernelSymbols,
    GetResumeProbe { symbol: String },
    LoadResumeProbe { symbol: String },
    GetSwitchOutProbe { symbol: String },
    LoadSwitchOutProbe { symbol: String },
    /// Open the array of per-CPU rings.
    OpenEvents { symbol: String },
    ListCpus { symbol: String },
    /// Open the ring of the CPU that is next in the list, and start its reader.
    OpenReader { symbol: String, cpus: Vec<u32>, opened: usize },
    /// Attach the probe on resuming threads to a symbol of the kernel.
    AttachResume { symbol: String, cpus: Vec<u32> },
    /// Attach the probe on leaving threads.
    AttachSwitchOut { cpus: Vec<u32> },
    /// Nothing: the monitor is set up for these CPUs.
    Running { cpus: Vec<u32> },
    /// Nothing: the monitor could not be set up.
    Failed { error: String },
}

/// How a step turned out.
#[derive(Debug)]
pub enum Outcome {
    Done,
    Symbols { symbols: BTreeMap<u64, String> },
    Cpus { cpus: Vec<u32> },
    /// The kernel side could not be loaded because a map could not be created.
    MapFailed { error: String },
    Failed { error: String },
}

/// What was being done when a step failed, and why it did.
pub open spec fn in_context(context: Seq<char>, error: Seq<char>) -> Seq<char> {
    context + ": "@ + error
}

/// Why a step failed.
pub open spec fn error_of(outcome: Outcome) -> Seq<char> {
    match outcome {
        Outcome::MapFailed { error } => error@,
        Outcome::Failed { error } => error@,
        _ => seq![],
    }
}

impl Startup {
    /// Where a ring is to be opened, there is one left to open.
    pub open spec fn is_valid(self) -> bool {
        self matches Startup::OpenReader { cpus, opened, .. } ==> opened < cpus@.len()
    }

    /// An outcome is one that the step can have.
    pub open spec fn can_turn_out(self, outcome: Outcome) -> bool {
        match self {
            Startup::ReadKernelSymbols => outcome is Symbols || outcome is Failed,
            Startup::ListCpus { .. } => outcome is Cpus || outcome is Failed,
            Startup::LoadBpf | Startup::LoadBpfAgain => outcome is Done || outcome is MapFailed
                || outcome is Failed,
            Startup::Running { .. } | Startup::Failed { .. } => false,
            _ => outcome is Done || outcome is Failed,
        }
    }

    /// What is being done.
    pub open spec fn context(self) -> Seq<char> {
        match self {
            Startup::LoadBpf => "load BPF program"@,
            Startup::RaiseMemlock { .. } => "load BPF program and raise memlock limit"@,
            Startup::LoadBpfAgain => "load BPF program after raising memlock limit"@,
            Startup::ReadKernelSymbols => "read kernel symbols"@,
            Startup::GetResumeProbe { .. } => "get jbm kprobe program"@,
            Startup::LoadResumeProbe { .. } => "load finish_task_switch kprobe"@,
            Startup::GetSwitchOutProbe { .. } => "get sched_switch tracepoint program"@,
            Startup::LoadSwitchOutProbe { .. } => "load sched_switch tracepoint program"@,
            Startup::OpenEvents { .. } => "open BPF EVENTS map"@,
            Startup::ListCpus { .. } => "read online CPU list"@,
            Startup::OpenReader { cpus, opened, .. } => "open BPF perf event buffer for CPU "@
                + text::decimal(cpus@[opened as int] as nat),
            Startup::AttachResume { symbol, .. } => "attach kprobe to "@ + symbol@,
            Startup::AttachSwitchOut { .. } => "attach sched_switch tracepoint program"@,
            _ => seq![],
        }
    }

    /// The step fails for a reason.
    pub open spec fn fails(self, reason: Seq<char>, next: Startup) -> bool {
        next matches Startup::Failed { error } && error@ == in_context(self.context(), reason)
    }

    /// The rings of the CPUs from one on are to be opened, and then the probes
    /// are to be attached.
    pub open spec fn opens_or_attaches(
        next: Startup,
        symbol: String,
        cpus: Vec<u32>,
        opened: int,
    ) -> bool {
        next == if opened < cpus@.len() {
            Startup::OpenReader { symbol, cpus, opened: opened as usize }
        } else {
            Startup::AttachResume { symbol, cpus }
        }
    }

    /// What follows from how a step turned out.
    pub open spec fn follows(self, outcome: Outcome, next: Startup) -> bool {
        if outcome is Failed || (outcome is MapFailed && !(self is LoadBpf)) {
            match self {
                Startup::RaiseMemlock { error } => self.fails(error@, next),
                _ => self.fails(error_of(outcome), next),
            }
        } else {
            match (self, outcome) {
                (Startup::LoadBpf, Outcome::MapFailed { error }) => next
                    == (Startup::RaiseMemlock { error }),
                (Startup::LoadBpf, _) => next == Startup::ReadKernelSymbols,
                (Startup::RaiseMemlock { .. }, _) => next == Startup::LoadBpfAgain,
                (Startup::LoadBpfAgain, _) => next == Startup::ReadKernelSymbols,
                (Startup::ReadKernelSymbols, Outcome::Symbols { symbols }) => match next {
                    Startup::GetResumeProbe { symbol } => symbols::is_resume_symbol(
                        symbols@,
                        Some(symbol@),
                    ),
                    Startup::Failed { error } => symbols::is_resume_symbol(symbols@, None)
                        && error@ == "cannot find finish_task_switch kernel symbol"@,
                    _ => false,
                },
                (Startup::GetResumeProbe { symbol }, _) => next
                    == (Startup::LoadResumeProbe { symbol }),
                (Startup::LoadResumeProbe { symbol }, _) => next
                    == (Startup::GetSwitchOutProbe { symbol }),
                (Startup::GetSwitchOutProbe { symbol }, _) => next
                    == (Startup::LoadSwitchOutProbe { symbol }),
                (Startup::LoadSwitchOutProbe { symbol }, _) => next
                    == (Startup::OpenEvents { symbol }),
                (Startup::OpenEvents { symbol }, _) => next == (Startup::ListCpus { symbol }),
                (Startup::ListCpus { symbol }, Outcome::Cpus { cpus }) => Self::opens_or_attaches(
                    next,
                    symbol,
                    cpus,
                    0,
                ),
                (Startup::OpenReader { symbol, cpus, opened }, _) => Self::opens_or_attaches(
                    next,
                    symbol,
                    cpus,
                    opened + 1,
                ),
                (Startup::AttachResume { symbol, cpus }, _) => next
                    == (Startup::AttachSwitchOut { cpus }),
                (Startup::AttachSwitchOut { cpus }, _) => next == (Startup::Running { cpus }),
                _ => false,
            }
        }
    }

    /// The failure of a step that was doing something, for a reason.
    fn failed(context: &str, reason: &str) -> (next: Startup)
        ensures
            next matches Startup::Failed { error } && error@ == in_context(context@, reason@),
    {
        let mut error = text::copied(context);
        text::append(&mut error, ": ");
        text::append(&mut error, reason);
        Startup::Failed { error }
    }

    /// The failure of a step, for a reason.
    fn fail(self, reason: &str) -> (next: Startup)
        requires
            self.is_valid(),
            !(self is Running || self is Failed),
        ensures
            self.fails(reason@, next),
    {
        match self {
            Startup::LoadBpf => Self::failed("load BPF program", reason),
            Startup::RaiseMemlock { .. } => Self::failed(
                "load BPF program and raise memlock limit",
                reason,
            ),
            Startup::LoadBpfAgain => Self::failed(
                "load BPF program after raising memlock limit",
                reason,
            ),
            Startup::ReadKernelSymbols => Self::failed("read kernel symbols", reason),
            Startup::GetResumeProbe { .. } => Self::failed("get jbm kprobe program", reason),
            Startup::LoadResumeProbe { .. } => Self::failed(
                "load finish_task_switch kprobe",
                reason,
            ),
            Startup::GetSwitchOutProbe { .. } => Self::failed(
                "get sched_switch tracepoint program",
                reason,
            ),
            Startup::LoadSwitchOutProbe { .. } => Self::failed(
                "load sched_switch tracepoint program",
                reason,
            ),
            Startup::OpenEvents { .. } => Self::failed("open BPF EVENTS map", reason),
            Startup::ListCpus { .. } => Self::failed("read online CPU list", reason),
            Startup::OpenReader { cpus, opened, .. } => {
                let mut context = text::copied("open BPF perf event buffer for CPU ");
                text::append_decimal(&mut context, cpus[opened] as u64);
                Self::failed(context.as_str(), reason)
            },
            Startup::AttachResume { symbol, .. } => {
                let mut context = text::copied("attach kprobe to ");
                text::append(&mut context, symbol.as_str());
                Self::failed(context.as_str(), reason)
            },
            _ => Self::failed("attach sched_switch tracepoint program", reason),
        }
    }

    /// What is to be done first.
    pub fn begin() -> (first: Startup)
        ensures
            first == Startup::LoadBpf,
    {
        Startup::LoadBpf
    }

    /// Takes how a step turned out, and says what is to be done next.
    ///
    /// The probes are attached only after every per-CPU ring has a reader, so
    /// that no interval is selected before user space can receive it.
    pub fn step(self, outcome: Outcome) -> (next: Startup)
        requires
            self.is_valid(),
            self.can_turn_out(outcome),
        ensures
            self.follows(outcome, next),
            next.is_valid(),
    {
        match (self, outcome) {
            (Startup::LoadBpf, Outcome::MapFailed { error }) => Startup::RaiseMemlock { error },
            (Startup::RaiseMemlock { error }, Outcome::Failed { .. }) => Self::failed(
                "load BPF program and raise memlock limit",
                error.as_str(),
            ),
            (step, Outcome::Failed { error }) => step.fail(error.as_str()),
            (step, Outcome::MapFailed { error }) => step.fail(error.as_str()),
            (Startup::LoadBpf, _) => Startup::ReadKernelSymbols,
            (Startup::RaiseMemlock { .. }, _) => Startup::LoadBpfAgain,
            (Startup::LoadBpfAgain, _) => Startup::ReadKernelSymbols,
            (
                Startup::ReadKernelSymbols,
                Outcome::Symbols { symbols },
            ) => match symbols::find_finish_task_switch(&symbols) {
                Some(symbol) => Startup::GetResumeProbe { symbol: text::copied(symbol) },
                None => Startup::Failed {
                    error: text::copied("cannot find finish_task_switch kernel symbol"),
                },
            },
            (Startup::GetResumeProbe { symbol }, _) => Startup::LoadResumeProbe { symbol },
            (Startup::LoadResumeProbe { symbol }, _) => Startup::GetSwitchOutProbe { symbol },
            (Startup::GetSwitchOutProbe { symbol }, _) => Startup::LoadSwitchOutProbe { symbol },
            (Startup::LoadSwitchOutProbe { symbol }, _) => Startup::OpenEvents { symbol },
            (Startup::OpenEvents { symbol }, _) => Startup::ListCpus { symbol },
            (Startup::ListCpus { symbol }, Outcome::Cpus { cpus }) => {
                if cpus.len() > 0 {
                    Startup::OpenReader { symbol, cpus, opened: 0 }
                } else {
                    Startup::AttachResume { symbol, cpus }
                }
            },
            (Startup::OpenReader { symbol, cpus, opened }, _) => {
                let count = cpus.len();
                if opened + 1 < count {
                    Startup::OpenReader { symbol, cpus, opened: opened + 1 }
                } else {
                    Startup::AttachResume { symbol, cpus }
                }
            },
            (Startup::AttachResume { cpus, .. }, _) => Startup::AttachSwitchOut { cpus },
            (Startup::AttachSwitchOut { cpus }, _) => Startup::Running { cpus },
            (step, _) => step,
        }
    }
}

/// The steps of setting up, each with how it turned out.
pub open spec fn is_run(steps: Seq<Startup>, outcomes: Seq<Outcome>) -> bool {
    &&& steps.len() == outcomes.len() + 1
    &&& steps[0] is LoadBpf
    &&& forall|i: int|
        0 <= i < outcomes.len() ==> {
            &&& (#[trigger] steps[i]).can_turn_out(outcomes[i])
            &&& steps[i].is_valid()
            &&& steps[i].follows(outcomes[i], steps[i + 1])
        }
}

/// The ring of a CPU was opened, and its reader started, before a step.
pub open spec fn has_reader(
    steps: Seq<Startup>,
    outcomes: Seq<Outcome>,
    before: int,
    cpu: u32,
) -> bool {
    exists|i: int|
        {
            &&& 0 <= i < before
            &&& (#[trigger] steps[i]) is OpenReader
            &&& steps[i]->OpenReader_cpus@[steps[i]->OpenReader_opened as int] == cpu
            &&& outcomes[i] is Done
        }
}

/// The CPUs that a step has to do with.
pub open spec fn cpus_of(step: Startup) -> Seq<u32> {
    match step {
        Startup::OpenReader { cpus, .. } => cpus@,
        Startup::AttachResume { cpus, .. } => cpus@,
        Startup::AttachSwitchOut { cpus } => cpus@,
        Startup::Running { cpus } => cpus@,
        _ => seq![],
    }
}

/// How many of the CPUs of a step have a reader.
spec fn readers(step: Startup) -> int {
    match step {
        Startup::OpenReader { opened, .. } => opened as int,
        _ => cpus_of(step).len() as int,
    }
}

proof fn lemma_readers(steps: Seq<Startup>, outcomes: Seq<Outcome>, at: int, k: int)
    requires
        is_run(steps, outcomes),
        0 <= at < steps.len(),
        0 <= k < readers(steps[at]),
        readers(steps[at]) <= cpus_of(steps[at]).len(),
    ensures
        has_reader(steps, outcomes, at, cpus_of(steps[at])[k]),
    decreases at,
{
    if at > 0 {
        let before = steps[at - 1];
        let outcome = outcomes[at - 1];
        assert(before.can_turn_out(outcome));
        assert(before.is_valid());
        assert(before.follows(outcome, steps[at]));
        let cpu = cpus_of(steps[at])[k];
        if before is OpenReader && k == before->OpenReader_opened {
            assert(steps[at - 1] is OpenReader);
        } else {
            lemma_readers(steps, outcomes, at - 1, k);
            let i = choose|i: int|
                {
                    &&& 0 <= i < at - 1
                    &&& (#[trigger] steps[i]) is OpenReader
                    &&& steps[i]->OpenReader_cpus@[steps[i]->OpenReader_opened as int] == cpu
                    &&& outcomes[i] is Done
                };
            assert(steps[i] is OpenReader);
        }
    }
}

/// Producers are enabled only after every per-CPU ring has a reader: when a
/// probe is to be attached, and when the monitor is set up, the reader of every
/// CPU has been started.
pub proof fn law_producers_start_after_every_reader(
    steps: Seq<Startup>,
    outcomes: Seq<Outcome>,
    at: int,
    cpu: u32,
)
    requires
        is_run(steps, outcomes),
        0 <= at < steps.len(),
        steps[at] is AttachResume || steps[at] is AttachSwitchOut || steps[at] is Running,
        cpus_of(steps[at]).contains(cpu),
    ensures
        has_reader(steps, outcomes, at, cpu),
{
    let k = choose|k: int| 0 <= k < cpus_of(steps[at]).len() && cpus_of(steps[at])[k] == cpu;
    lemma_readers(steps, outcomes, at, k);
}

/// A run in which nothing has failed.
#[verifier::opaque]
spec fn succeeds(steps: Seq<Startup>, outcomes: Seq<Outcome>) -> bool {
    &&& is_run(steps, outcomes)
    &&& forall|i: int|
        0 <= i < outcomes.len() ==> !((#[trigger] outcomes[i]) is Failed)
            && !(outcomes[i] is MapFailed)
}

/// A step of a run in which nothing has failed.
proof fn lemma_success(steps: Seq<Startup>, outcomes: Seq<Outcome>, i: int)
    requires
        succeeds(steps, outcomes),
        0 <= i < outcomes.len(),
    ensures
        steps.len() == outcomes.len() + 1,
        steps[0] is LoadBpf,
        steps[i].can_turn_out(outcomes[i]),
        steps[i].follows(outcomes[i], steps[i + 1]),
        !(outcomes[i] is Failed),
        !(outcomes[i] is MapFailed),
{
    reveal(succeeds);
    assert(!(outcomes[i] is Failed));
    assert(steps[i].can_turn_out(outcomes[i]));
}

/// Readers are opened in the order in which the CPUs are listed.
proof fn lemma_readers_are_opened_in_order(
    steps: Seq<Startup>,
    outcomes: Seq<Outcome>,
    symbol: String,
    cpus: Vec<u32>,
    k: int,
)
    requires
        succeeds(steps, outcomes),
        8 + k <= outcomes.len(),
        0 <= k <= cpus@.len(),
        steps[7] == (Startup::ListCpus { symbol }),
        outcomes[7] == (Outcome::Cpus { cpus }),
    ensures
        k < cpus@.len() ==> steps[8 + k] == (Startup::OpenReader {
            symbol,
            cpus,
            opened: k as usize,
        }),
        k == cpus@.len() ==> steps[8 + k] == (Startup::AttachResume { symbol, cpus }),
    decreases k,
{
    assert(cpus.len() == cpus@.len());
    lemma_success(steps, outcomes, 7 + k);
    if k > 0 {
        lemma_readers_are_opened_in_order(steps, outcomes, symbol, cpus, k - 1);
    }
}

/// The steps of setting up up to a point: the kernel side is loaded, the symbol by
/// which threads resume is found, both probes are loaded, the rings are opened, the
/// reader of every CPU is started in the order in which the CPUs are listed, the probe
/// on resuming threads is attached to the symbol, the probe on leaving threads is
/// attached, and then the monitor runs for those CPUs. This ends early only if there is
/// no such symbol.
pub open spec fn goes_through_every_step(steps: Seq<Startup>, outcomes: Seq<Outcome>) -> bool {
    let symbol = steps[2]->GetResumeProbe_symbol;
    let cpus = outcomes[7]->Cpus_cpus;
    let n = cpus@.len() as int;
    &&& steps[0] is LoadBpf
    &&& steps.len() > 1 ==> steps[1] is ReadKernelSymbols
    &&& steps.len() > 2 ==> outcomes[1] is Symbols
    &&& steps.len() > 2 && !(steps[2] is GetResumeProbe) ==> {
        &&& steps[2] is Failed
        &&& steps[2]->Failed_error@ == "cannot find finish_task_switch kernel symbol"@
        &&& steps.len() == 3
        &&& symbols::is_resume_symbol(outcomes[1]->symbols@, None)
    }
    &&& steps.len() > 2 && steps[2] is GetResumeProbe ==> {
        &&& symbols::is_resume_symbol(outcomes[1]->symbols@, Some(symbol@))
        &&& steps.len() > 3 ==> steps[3] == (Startup::LoadResumeProbe { symbol })
        &&& steps.len() > 4 ==> steps[4] == (Startup::GetSwitchOutProbe { symbol })
        &&& steps.len() > 5 ==> steps[5] == (Startup::LoadSwitchOutProbe { symbol })
        &&& steps.len() > 6 ==> steps[6] == (Startup::OpenEvents { symbol })
        &&& steps.len() > 7 ==> steps[7] == (Startup::ListCpus { symbol })
        &&& steps.len() > 8 ==> {
            &&& outcomes[7] is Cpus
            &&& forall|k: int|
                8 <= k < 8 + n && k < steps.len() ==> #[trigger] steps[k] == (Startup::OpenReader {
                    symbol,
                    cpus,
                    opened: (k - 8) as usize,
                })
            &&& steps.len() > 8 + n ==> steps[8 + n] == (Startup::AttachResume { symbol, cpus })
            &&& steps.len() > 9 + n ==> steps[9 + n] == (Startup::AttachSwitchOut { cpus })
            &&& steps.len() > 10 + n ==> steps[10 + n] == (Startup::Running { cpus })
            &&& steps.len() <= 11 + n
        }
    }
}

proof fn lemma_goes_through_every_step(steps: Seq<Startup>, outcomes: Seq<Outcome>)
    requires
        succeeds(steps, outcomes),
        steps.len() == outcomes.len() + 1,
        steps[0] is LoadBpf,
    ensures
        goes_through_every_step(steps, outcomes),
{
    let count = outcomes.len() as int;
    if count > 0 {
        lemma_success(steps, outcomes, 0);
    }
    if count > 1 {
        lemma_success(steps, outcomes, 1);
    }
    if count > 2 {
        lemma_success(steps, outcomes, 2);
    }
    if count > 3 {
        lemma_success(steps, outcomes, 3);
    }
    if count > 4 {
        lemma_success(steps, outcomes, 4);
    }
    if count > 5 {
        lemma_success(steps, outcomes, 5);
    }
    if count > 6 {
        lemma_success(steps, outcomes, 6);
    }
    if count > 7 {
        lemma_success(steps, outcomes, 7);
        let symbol = steps[2]->GetResumeProbe_symbol;
        let cpus = outcomes[7]->Cpus_cpus;
        let n = cpus@.len() as int;
        assert forall|k: int| 8 <= k < 8 + n && k < steps.len() implies #[trigger] steps[k] == (
        Startup::OpenReader { symbol, cpus, opened: (k - 8) as usize }) by {
            lemma_readers_are_opened_in_order(steps, outcomes, symbol, cpus, k - 8);
        }
        if count >= 8 + n {
            lemma_readers_are_opened_in_order(steps, outcomes, symbol, cpus, n);
        }
        if count > 8 + n {
            lemma_success(steps, outcomes, 8 + n);
        }
        if count > 9 + n {
            lemma_success(steps, outcomes, 9 + n);
        }
        if count > 10 + n {
            lemma_success(steps, outcomes, 10 + n);
        }
    }
}

/// A startup in which nothing fails goes through every step.
pub proof fn law_a_startup_without_failures_runs(steps: Seq<Startup>, outcomes: Seq<Outcome>)
    requires
        is_run(steps, outcomes),
        forall|i: int|
            0 <= i < outcomes.len() ==> !((#[trigger] outcomes[i]) is Failed)
                && !(outcomes[i] is MapFailed),
    ensures
        goes_through_every_step(steps, outcomes),
{
    assert(succeeds(steps, outcomes)) by {
        reveal(succeeds);
    }
    lemma_goes_through_every_step(steps, outcomes);
}

/// A step that fails ends the startup with an error that says what was being done and
/// why it failed. Where the limit on locked memory could not be raised, the reason is
/// that for which it was to be raised.
pub proof fn law_a_failed_step_ends_the_startup(step: Startup, outcome: Outcome, next: Startup)
    requires
        step.can_turn_out(outcome),
        step.follows(outcome, next),
        outcome is Failed || (outcome is MapFailed && !(step is LoadBpf)),
    ensures
        ({
            let doing = match step {
                Startup::LoadBpf => "load BPF program"@,
                Startup::RaiseMemlock { .. } => "load BPF program and raise memlock limit"@,
                Startup::LoadBpfAgain => "load BPF program after raising memlock limit"@,
                Startup::ReadKernelSymbols => "read kernel symbols"@,
                Startup::GetResumeProbe { .. } => "get jbm kprobe program"@,
                Startup::LoadResumeProbe { .. } => "load finish_task_switch kprobe"@,
                Startup::GetSwitchOutProbe { .. } => "get sched_switch tracepoint program"@,
                Startup::LoadSwitchOutProbe { .. } => "load sched_switch tracepoint program"@,
                Startup::OpenEvents { .. } => "open BPF EVENTS map"@,
                Startup::ListCpus { .. } => "read online CPU list"@,
                Startup::OpenReader { cpus, opened, .. } => "open BPF perf event buffer for CPU "@
                    + text::decimal(cpus@[opened as int] as nat),
                Startup::AttachResume { symbol, .. } => "attach kprobe to "@ + symbol@,
                Startup::AttachSwitchOut { .. } => "attach sched_switch tracepoint program"@,
                _ => seq![],
            };
            let reason = match (step, outcome) {
                (Startup::RaiseMemlock { error }, _) => error@,
                (_, Outcome::MapFailed { error }) => error@,
                (_, Outcome::Failed { error }) => error@,
                _ => seq![],
            };
            next matches Startup::Failed { error } && error@ == doing + ": "@ + reason
        }),
{
}

/// Where a map could not be created, the limit on locked memory is raised and the
/// kernel side is loaded once more, and once only.
pub proof fn law_loading_is_tried_again_with_more_memory(
    error: String,
    raise: Startup,
    again: Startup,
    next: Startup,
    outcome: Outcome,
)
    requires
        (Startup::LoadBpf).follows(Outcome::MapFailed { error }, raise),
        raise.follows(Outcome::Done, again),
        again.can_turn_out(outcome),
        again.follows(outcome, next),
    ensures
        raise == (Startup::RaiseMemlock { error }),
        again is LoadBpfAgain,
        outcome is Done ==> next is ReadKernelSymbols,
        !(outcome is Done) ==> next is Failed,
{
}

} // verus!
