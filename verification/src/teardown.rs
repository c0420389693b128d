//! The order in which the monitor is taken down.
//!
//! Each step says what is to be done next, given how the last one turned out.

use vstd::prelude::*;

use crate::text;

verus! {

/// How long the rings may take to drain, in milliseconds.
pub const PERF_SHUTDOWN_DRAIN_TIMEOUT_MS: u64 = 2_000;

/// What is to be done next.
#[derive(Debug)]
pub enum Teardown {
    /// Detach the probe on leaving threads.
    DetachSwitchOut { resume_attached: bool },
    /// Detach the probe on resuming threads.
    DetachResume,
    /// Read the monotonic clock.
    ReadClock,
    /// Look how far the readers have come, and how long that has taken.
    LookAtReaders { detached_at_ns: u64 },
    /// Take in what the readers report for a while.
    Receive { detached_at_ns: u64 },
    AbortReaders,
    /// Take in what the readers have still reported.
    ReceiveRest,
    /// Nothing: every interval has been taken in, and the monitor may end.
    Drained,
    /// Nothing: the monitor could not be taken down.
    Failed { error: String },
}

/// How a step turned out.
#[derive(Debug)]
pub enum Finding {
    Done,
    Failed { error: String },
    Clock { now_ns: u64 },
    /// How far the readers have come, and how many milliseconds have passed since
    /// the clock was read.
    Readers { watermark_ns: u64, waited_ms: u64 },
}

impl Teardown {
    /// A finding is one that the step can make.
    pub open spec fn can_find(self, finding: Finding) -> bool {
        match self {
            Teardown::DetachSwitchOut { .. } => finding is Done || finding is Failed,
            Teardown::DetachResume => finding is Done || finding is Failed,
            Teardown::ReadClock => finding is Clock,
            Teardown::LookAtReaders { .. } => finding is Readers,
            Teardown::Receive { .. } => finding is Done || finding is Failed,
            Teardown::AbortReaders => finding is Done,
            Teardown::ReceiveRest => finding is Done || finding is Failed,
            Teardown::Drained => false,
            Teardown::Failed { .. } => false,
        }
    }

    /// What follows from a finding.
    pub open spec fn follows(self, finding: Finding, next: Teardown) -> bool {
        match finding {
            Finding::Failed { error } => next == (Teardown::Failed { error }),
            Finding::Clock { now_ns } => next == (Teardown::LookAtReaders {
                detached_at_ns: now_ns,
            }),
            Finding::Readers { watermark_ns, waited_ms } => {
                let detached_at_ns = self->LookAtReaders_detached_at_ns;
                if watermark_ns >= detached_at_ns {
                    next == Teardown::AbortReaders
                } else if waited_ms >= PERF_SHUTDOWN_DRAIN_TIMEOUT_MS {
                    next matches Teardown::Failed { error } && error@
                        == "timed out draining per-CPU perf readers after BPF detach"@
                } else {
                    next == (Teardown::Receive { detached_at_ns })
                }
            },
            Finding::Done => match self {
                Teardown::DetachSwitchOut { resume_attached } => next == if resume_attached {
                    Teardown::DetachResume
                } else {
                    Teardown::ReadClock
                },
                Teardown::DetachResume => next == Teardown::ReadClock,
                Teardown::Receive { detached_at_ns } => next == (Teardown::LookAtReaders {
                    detached_at_ns,
                }),
                Teardown::AbortReaders => next == Teardown::ReceiveRest,
                _ => next == Teardown::Drained,
            },
        }
    }

    /// What is to be done first, given which probes are attached.
    pub fn begin(switch_out_attached: bool, resume_attached: bool) -> (first: Teardown)
        ensures
            first == first_step(switch_out_attached, resume_attached),
    {
        if switch_out_attached {
            Teardown::DetachSwitchOut { resume_attached }
        } else if resume_attached {
            Teardown::DetachResume
        } else {
            Teardown::ReadClock
        }
    }

    /// Takes how a step turned out, and says what is to be done next.
    pub fn step(self, finding: Finding) -> (next: Teardown)
        requires
            self.can_find(finding),
        ensures
            self.follows(finding, next),
    {
        match (self, finding) {
            (_, Finding::Failed { error }) => Teardown::Failed { error },
            (_, Finding::Clock { now_ns }) => Teardown::LookAtReaders { detached_at_ns: now_ns },
            (
                Teardown::LookAtReaders { detached_at_ns },
                Finding::Readers { watermark_ns, waited_ms },
            ) => {
                if watermark_ns >= detached_at_ns {
                    Teardown::AbortReaders
                } else if time_is_up(waited_ms) {
                    Teardown::Failed {
                        error: text::copied(
                            "timed out draining per-CPU perf readers after BPF detach",
                        ),
                    }
                } else {
                    Teardown::Receive { detached_at_ns }
                }
            },
            (Teardown::DetachSwitchOut { resume_attached }, _) => {
                if resume_attached {
                    Teardown::DetachResume
                } else {
                    Teardown::ReadClock
                }
            },
            (Teardown::DetachResume, _) => Teardown::ReadClock,
            (Teardown::Receive { detached_at_ns }, _) => Teardown::LookAtReaders { detached_at_ns },
            (Teardown::AbortReaders, _) => Teardown::ReceiveRest,
            _ => Teardown::Drained,
        }
    }
}

/// Whether the rings have taken too long to drain.
pub fn time_is_up(waited_ms: u64) -> (is_up: bool)
    ensures
        is_up == (waited_ms >= PERF_SHUTDOWN_DRAIN_TIMEOUT_MS),
        is_up <==> waited_ms >= 2_000,
{
    waited_ms >= PERF_SHUTDOWN_DRAIN_TIMEOUT_MS
}

/// What is to be done first, given which probes are attached.
pub open spec fn first_step(switch_out_attached: bool, resume_attached: bool) -> Teardown {
    if switch_out_attached {
        Teardown::DetachSwitchOut { resume_attached }
    } else if resume_attached {
        Teardown::DetachResume
    } else {
        Teardown::ReadClock
    }
}

/// The steps of taking down, each with how it turned out.
pub open spec fn is_run(
    switch_out_attached: bool,
    resume_attached: bool,
    steps: Seq<Teardown>,
    findings: Seq<Finding>,
) -> bool {
    &&& steps.len() == findings.len() + 1
    &&& steps[0] == first_step(switch_out_attached, resume_attached)
    &&& forall|i: int|
        0 <= i < findings.len() ==> {
            &&& (#[trigger] steps[i]).can_find(findings[i])
            &&& steps[i].follows(findings[i], steps[i + 1])
        }
}

/// A step is to detach the probe on leaving threads, or that on resuming ones.
pub open spec fn detaches(step: Teardown, switch_out: bool) -> bool {
    if switch_out {
        step is DetachSwitchOut
    } else {
        step is DetachResume
    }
}

/// A probe was detached before a step.
pub open spec fn detached(
    steps: Seq<Teardown>,
    findings: Seq<Finding>,
    before: int,
    switch_out: bool,
) -> bool {
    exists|i: int|
        0 <= i < before && detaches(#[trigger] steps[i], switch_out) && findings[i] is Done
}

/// The clock showed a time at a step before another.
pub open spec fn clock_showed(
    steps: Seq<Teardown>,
    findings: Seq<Finding>,
    at: int,
    before: int,
    now_ns: u64,
) -> bool {
    &&& 0 <= at < before
    &&& steps[at] is ReadClock
    &&& findings[at] == (Finding::Clock { now_ns })
}

/// Every reader had come as far as a time at a step before another.
pub open spec fn readers_reached(
    steps: Seq<Teardown>,
    findings: Seq<Finding>,
    at: int,
    before: int,
    time_ns: u64,
) -> bool {
    &&& 0 <= at < before
    &&& steps[at] is LookAtReaders
    &&& findings[at] is Readers
    &&& findings[at]->watermark_ns >= time_ns
}

/// Where a run stands at a step.
spec fn stands(
    switch_out_attached: bool,
    resume_attached: bool,
    steps: Seq<Teardown>,
    findings: Seq<Finding>,
    at: int,
) -> bool {
    let off = (switch_out_attached ==> detached(steps, findings, at, true)) && (resume_attached
        ==> detached(steps, findings, at, false));
    match steps[at] {
        Teardown::DetachSwitchOut { resume_attached: other } => other == resume_attached,
        Teardown::DetachResume => switch_out_attached ==> detached(steps, findings, at, true),
        Teardown::ReadClock => off,
        Teardown::LookAtReaders { detached_at_ns } => is_off_since(
            switch_out_attached,
            resume_attached,
            steps,
            findings,
            at,
            detached_at_ns,
        ),
        Teardown::Receive { detached_at_ns } => is_off_since(
            switch_out_attached,
            resume_attached,
            steps,
            findings,
            at,
            detached_at_ns,
        ),
        Teardown::AbortReaders => is_drained(
            switch_out_attached,
            resume_attached,
            steps,
            findings,
            at,
        ),
        Teardown::ReceiveRest => is_drained(
            switch_out_attached,
            resume_attached,
            steps,
            findings,
            at,
        ),
        Teardown::Drained => is_drained(
            switch_out_attached,
            resume_attached,
            steps,
            findings,
            at,
        ),
        Teardown::Failed { .. } => true,
    }
}

/// The clock showed a time when every probe had been detached.
pub open spec fn is_off_since(
    switch_out_attached: bool,
    resume_attached: bool,
    steps: Seq<Teardown>,
    findings: Seq<Finding>,
    before: int,
    time_ns: u64,
) -> bool {
    exists|read: int|
        {
            &&& #[trigger] clock_showed(steps, findings, read, before, time_ns)
            &&& switch_out_attached ==> detached(steps, findings, read, true)
            &&& resume_attached ==> detached(steps, findings, read, false)
        }
}

/// Every reader had come as far as a time at which every probe had been
/// detached.
pub open spec fn is_drained(
    switch_out_attached: bool,
    resume_attached: bool,
    steps: Seq<Teardown>,
    findings: Seq<Finding>,
    before: int,
) -> bool {
    exists|time_ns: u64, looked: int|
        {
            &&& #[trigger] readers_reached(steps, findings, looked, before, time_ns)
            &&& is_off_since(
                switch_out_attached,
                resume_attached,
                steps,
                findings,
                looked,
                time_ns,
            )
        }
}

proof fn lemma_stands(
    switch_out_attached: bool,
    resume_attached: bool,
    steps: Seq<Teardown>,
    findings: Seq<Finding>,
    at: int,
)
    requires
        is_run(switch_out_attached, resume_attached, steps, findings),
        0 <= at < steps.len(),
    ensures
        stands(switch_out_attached, resume_attached, steps, findings, at),
    decreases at,
{
    if at > 0 {
        let i = at - 1;
        lemma_stands(switch_out_attached, resume_attached, steps, findings, i);
        let before = steps[i];
        let finding = findings[i];
        assert(before.can_find(finding));
        assert(before.follows(finding, steps[at]));
        lemma_detached_stays(steps, findings, i);
        match before {
            Teardown::ReadClock => {
                assert(clock_showed(steps, findings, i, at, finding->now_ns));
            },
            Teardown::LookAtReaders { detached_at_ns } => {
                if steps[at] is AbortReaders {
                    assert(readers_reached(steps, findings, i, at, detached_at_ns));
                } else if steps[at] is Receive {
                    let read = choose|read: int|
                        {
                            &&& #[trigger] clock_showed(steps, findings, read, i, detached_at_ns)
                            &&& switch_out_attached ==> detached(steps, findings, read, true)
                            &&& resume_attached ==> detached(steps, findings, read, false)
                        };
                    assert(clock_showed(steps, findings, read, at, detached_at_ns));
                }
            },
            Teardown::Receive { detached_at_ns } => {
                if steps[at] is LookAtReaders {
                    let read = choose|read: int|
                        {
                            &&& #[trigger] clock_showed(steps, findings, read, i, detached_at_ns)
                            &&& switch_out_attached ==> detached(steps, findings, read, true)
                            &&& resume_attached ==> detached(steps, findings, read, false)
                        };
                    assert(clock_showed(steps, findings, read, at, detached_at_ns));
                }
            },
            Teardown::AbortReaders | Teardown::ReceiveRest => {
                if !(steps[at] is Failed) {
                    let (time_ns, looked) = choose|time_ns: u64, looked: int|
                        {
                            &&& #[trigger] readers_reached(steps, findings, looked, i, time_ns)
                            &&& is_off_since(
                                switch_out_attached,
                                resume_attached,
                                steps,
                                findings,
                                looked,
                                time_ns,
                            )
                        };
                    assert(readers_reached(steps, findings, looked, at, time_ns));
                }
            },
            _ => {},
        }
    }
}

/// What was detached stays so, and what a step detaches is so afterwards.
proof fn lemma_detached_stays(steps: Seq<Teardown>, findings: Seq<Finding>, i: int)
    requires
        0 <= i < findings.len(),
    ensures
        detached(steps, findings, i, true) ==> detached(steps, findings, i + 1, true),
        detached(steps, findings, i, false) ==> detached(steps, findings, i + 1, false),
        steps[i] is DetachSwitchOut && findings[i] is Done ==> detached(
            steps,
            findings,
            i + 1,
            true,
        ),
        steps[i] is DetachResume && findings[i] is Done ==> detached(steps, findings, i + 1, false),
{
    if detached(steps, findings, i, true) {
        let k = choose|k: int|
            0 <= k < i && detaches(#[trigger] steps[k], true) && findings[k] is Done;
        assert(detaches(steps[k], true));
    }
    if detached(steps, findings, i, false) {
        let k = choose|k: int|
            0 <= k < i && detaches(#[trigger] steps[k], false) && findings[k] is Done;
        assert(detaches(steps[k], false));
    }
}

/// No interval is lost when the monitor is taken down: the readers are aborted,
/// and the monitor ends, only after every reader has come as far as a time at
/// which no probe was attached any more.
pub proof fn law_readers_end_after_every_producer(
    switch_out_attached: bool,
    resume_attached: bool,
    steps: Seq<Teardown>,
    findings: Seq<Finding>,
    at: int,
)
    requires
        is_run(switch_out_attached, resume_attached, steps, findings),
        0 <= at < steps.len(),
        steps[at] is AbortReaders || steps[at] is Drained,
    ensures
        is_drained(switch_out_attached, resume_attached, steps, findings, at),
{
    lemma_stands(switch_out_attached, resume_attached, steps, findings, at);
}

/// Rings that have not drained in time end the teardown: if, when the limit has
/// passed, a reader has not come as far as the time at which no probe was attached
/// any more, the next step is a failure that says so, and it is the last. The probes
/// are then detached, and the monitor has not been told to end.
pub proof fn law_rings_that_drain_too_slowly_end_the_teardown(
    switch_out_attached: bool,
    resume_attached: bool,
    steps: Seq<Teardown>,
    findings: Seq<Finding>,
    at: int,
    detached_at_ns: u64,
    watermark_ns: u64,
    waited_ms: u64,
)
    requires
        is_run(switch_out_attached, resume_attached, steps, findings),
        0 <= at < findings.len(),
        steps[at] == (Teardown::LookAtReaders { detached_at_ns }),
        findings[at] == (Finding::Readers { watermark_ns, waited_ms }),
        watermark_ns < detached_at_ns,
        waited_ms >= PERF_SHUTDOWN_DRAIN_TIMEOUT_MS,
    ensures
        steps.len() == at + 2,
        steps.last() matches Teardown::Failed { error } && error@
            == "timed out draining per-CPU perf readers after BPF detach"@,
        is_off_since(
            switch_out_attached,
            resume_attached,
            steps,
            findings,
            at,
            detached_at_ns,
        ),
        forall|i: int| 0 <= i < steps.len() ==> !((#[trigger] steps[i]) is Drained),
{
    lemma_stands(switch_out_attached, resume_attached, steps, findings, at);
    assert(steps[at].follows(findings[at], steps[at + 1]));
    if at + 1 < findings.len() {
        assert(steps[at + 1].can_find(findings[at + 1]));
    }
    assert forall|i: int| 0 <= i < steps.len() implies !((#[trigger] steps[i]) is Drained) by {
        if i < findings.len() {
            assert(steps[i].can_find(findings[i]));
        }
    }
}

/// The probes that are attached are detached first, that on leaving threads before
/// that on resuming ones, and then the clock is read.
pub proof fn law_attached_probes_are_detached_first(
    switch_out_attached: bool,
    resume_attached: bool,
    steps: Seq<Teardown>,
    findings: Seq<Finding>,
    now_ns: u64,
)
    requires
        is_run(switch_out_attached, resume_attached, steps, findings),
        forall|i: int| 0 <= i < findings.len() ==> !((#[trigger] findings[i]) is Failed),
    ensures
        ({
            let switch_outs: int = if switch_out_attached {
                1
            } else {
                0
            };
            let resumes: int = if resume_attached {
                1
            } else {
                0
            };
            let read = switch_outs + resumes;
            &&& switch_out_attached ==> steps[0] is DetachSwitchOut
            &&& resume_attached && switch_outs < steps.len() ==> steps[switch_outs] is DetachResume
            &&& read < steps.len() ==> steps[read] is ReadClock
            &&& read < findings.len() && findings[read] == (Finding::Clock { now_ns })
                ==> steps[read + 1] == (Teardown::LookAtReaders { detached_at_ns: now_ns })
        }),
{
    assert forall|i: int| 0 <= i < findings.len() implies {
        &&& (#[trigger] steps[i]).can_find(findings[i])
        &&& steps[i].follows(findings[i], steps[i + 1])
        &&& !(findings[i] is Failed)
    } by {
        assert(!(findings[i] is Failed));
    }
    if findings.len() > 0 {
        assert(steps[0].follows(findings[0], steps[1]));
    }
    if findings.len() > 1 {
        assert(steps[1].follows(findings[1], steps[2]));
    }
    if findings.len() > 2 {
        assert(steps[2].follows(findings[2], steps[3]));
    }
}

/// Once every reader has come as far as the time at which the probes were detached, the
/// readers are aborted, what they have still reported is taken in, and the monitor may
/// end. Until then their reports are taken in and they are looked at again, for two
/// seconds at most.
pub proof fn law_a_teardown_ends_when_the_rings_are_drained(
    switch_out_attached: bool,
    resume_attached: bool,
    steps: Seq<Teardown>,
    findings: Seq<Finding>,
    at: int,
    detached_at_ns: u64,
    watermark_ns: u64,
    waited_ms: u64,
)
    requires
        is_run(switch_out_attached, resume_attached, steps, findings),
        0 <= at < findings.len(),
        steps[at] == (Teardown::LookAtReaders { detached_at_ns }),
        findings[at] == (Finding::Readers { watermark_ns, waited_ms }),
    ensures
        watermark_ns >= detached_at_ns ==> {
            &&& steps[at + 1] is AbortReaders
            &&& at + 1 < findings.len() ==> steps[at + 2] is ReceiveRest
            &&& at + 2 < findings.len() && findings[at + 2] is Done ==> steps[at + 3] is Drained
                && steps.len() == at + 4
        },
        watermark_ns < detached_at_ns && waited_ms < 2_000 ==> {
            &&& steps[at + 1] == (Teardown::Receive { detached_at_ns })
            &&& at + 1 < findings.len() && findings[at + 1] is Done ==> steps[at + 2] == (
            Teardown::LookAtReaders { detached_at_ns })
        },
        watermark_ns < detached_at_ns && waited_ms >= 2_000 ==> steps[at + 1] is Failed,
{
    assert(steps[at].follows(findings[at], steps[at + 1]));
    if at + 1 < findings.len() {
        assert(steps[at + 1].can_find(findings[at + 1]));
        assert(steps[at + 1].follows(findings[at + 1], steps[at + 2]));
    }
    if at + 2 < findings.len() {
        assert(steps[at + 2].can_find(findings[at + 2]));
        assert(steps[at + 2].follows(findings[at + 2], steps[at + 3]));
    }
    if at + 3 < findings.len() {
        assert(steps[at + 3].can_find(findings[at + 3]));
    }
}

/// A step that fails ends the teardown with its error.
pub proof fn law_a_failed_step_ends_the_teardown(
    switch_out_attached: bool,
    resume_attached: bool,
    steps: Seq<Teardown>,
    findings: Seq<Finding>,
    at: int,
    error: String,
)
    requires
        is_run(switch_out_attached, resume_attached, steps, findings),
        0 <= at < findings.len(),
        findings[at] == (Finding::Failed { error }),
    ensures
        steps.len() == at + 2,
        steps.last() == (Teardown::Failed { error }),
{
    assert(steps[at].can_find(findings[at]));
    assert(steps[at].follows(findings[at], steps[at + 1]));
    if at + 1 < findings.len() {
        assert(steps[at + 1].can_find(findings[at + 1]));
    }
}

} // verus!
