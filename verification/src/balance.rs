//! What the counts of all CPUs say of all probe runs together.

use vstd::prelude::*;

use crate::common;
use crate::common::{CollectionStats, Config};
use crate::counter;
use crate::probe;
use crate::probe::{Answer, Counts, Resume};

verus! {

/// A run of the probe on a resuming thread, on a CPU.
pub struct Run {
    pub cpu: int,
    pub steps: Seq<Resume>,
    pub answers: Seq<Answer>,
}

/// What the counts of a CPU show after the steps of a run.
pub open spec fn stats_after(
    config: Config,
    steps: Seq<Resume>,
    answers: Seq<Answer>,
    stats: CollectionStats,
) -> CollectionStats
    decreases answers.len(),
{
    if answers.len() == 0 {
        stats
    } else {
        steps[answers.len() - 1].counts(config, answers.last()).added_to(
            stats_after(config, steps.drop_last(), answers.drop_last(), stats),
        )
    }
}

/// What the counts of each CPU show after some runs, one after the other; at first
/// they are all zero.
pub open spec fn stats_of_cpus(config: Config, cpus: nat, runs: Seq<Run>) -> Seq<CollectionStats>
    decreases runs.len(),
{
    if runs.len() == 0 {
        Seq::new(cpus, |cpu: int| common::totals(seq![]))
    } else {
        let before = stats_of_cpus(config, cpus, runs.drop_last());
        let run = runs.last();
        before.update(run.cpu, stats_after(config, run.steps, run.answers, before[run.cpu]))
    }
}

/// A run has come to its end, on one of the CPUs.
pub open spec fn is_complete(config: Config, cpus: nat, run: Run) -> bool {
    &&& 0 <= run.cpu < cpus
    &&& probe::is_run(config, run.steps, run.answers)
    &&& run.steps.last() is Return
}

/// The thread of a run was off its CPU for an interval that qualifies.
pub open spec fn is_eligible(config: Config, run: Run) -> bool {
    &&& run.answers.len() >= 2
    &&& run.answers[0] is Start
    &&& run.answers[0]->t_start is Some
    &&& run.answers[1] is End
    &&& run.answers[1]->removed is Ok
    &&& probe::qualifies(
        config,
        run.steps[0]->LookUpStart_tgid,
        run.answers[0]->t_start->0,
        run.answers[1]->t_end,
    )
}

/// For how many microseconds the thread of a run was off its CPU, if the interval
/// qualifies.
pub open spec fn off_cpu_us(config: Config, run: Run) -> nat {
    if is_eligible(config, run) {
        probe::offtime_us(run.answers[0]->t_start->0, run.answers[1]->t_end) as nat
    } else {
        0
    }
}

/// How many runs are of an interval that qualifies.
pub open spec fn eligible_runs(config: Config, runs: Seq<Run>) -> nat
    decreases runs.len(),
{
    if runs.len() == 0 {
        0
    } else {
        eligible_runs(config, runs.drop_last()) + if is_eligible(config, runs.last()) {
            1nat
        } else {
            0nat
        }
    }
}

/// The off-CPU time of all runs.
pub open spec fn total_off_cpu_us(config: Config, runs: Seq<Run>) -> nat
    decreases runs.len(),
{
    if runs.len() == 0 {
        0
    } else {
        total_off_cpu_us(config, runs.drop_last()) + off_cpu_us(config, runs.last())
    }
}

/// What all runs add to the counts.
spec fn all_counts(config: Config, runs: Seq<Run>) -> Counts
    decreases runs.len(),
{
    if runs.len() == 0 {
        Counts::none()
    } else {
        all_counts(config, runs.drop_last()).plus(
            probe::run_counts(config, runs.last().steps, runs.last().answers),
        )
    }
}

/// Adding twice is adding the sum.
proof fn lemma_added_twice(first: Counts, second: Counts, stats: CollectionStats)
    ensures
        second.added_to(first.added_to(stats)) == first.plus(second).added_to(stats),
{
    counter::lemma_advanced_twice(
        stats.eligible_intervals,
        first.eligible_intervals,
        second.eligible_intervals,
    );
    counter::lemma_advanced_twice(
        stats.eligible_duration_us,
        first.eligible_duration_us,
        second.eligible_duration_us,
    );
    counter::lemma_advanced_twice(
        stats.probability_rejections,
        first.probability_rejections,
        second.probability_rejections,
    );
    counter::lemma_advanced_twice(
        stats.selected_intervals,
        first.selected_intervals,
        second.selected_intervals,
    );
    counter::lemma_advanced_twice(
        stats.kernel_stack_failures,
        first.kernel_stack_failures,
        second.kernel_stack_failures,
    );
    counter::lemma_advanced_twice(
        stats.user_stack_failures,
        first.user_stack_failures,
        second.user_stack_failures,
    );
    counter::lemma_advanced_twice(
        stats.signal_failures,
        first.signal_failures,
        second.signal_failures,
    );
}

/// The steps of a run add what the run adds.
proof fn lemma_stats_after(
    config: Config,
    steps: Seq<Resume>,
    answers: Seq<Answer>,
    stats: CollectionStats,
)
    ensures
        stats_after(config, steps, answers, stats) == probe::run_counts(
            config,
            steps,
            answers,
        ).added_to(stats),
    decreases answers.len(),
{
    broadcast use counter::lemma_advanced_by_nothing;

    if answers.len() > 0 {
        lemma_stats_after(config, steps.drop_last(), answers.drop_last(), stats);
        lemma_added_twice(
            probe::run_counts(config, steps.drop_last(), answers.drop_last()),
            steps[answers.len() - 1].counts(config, answers.last()),
            stats,
        );
    }
}

/// After the second step a run takes no times any more.
proof fn lemma_later_steps(config: Config, steps: Seq<Resume>, answers: Seq<Answer>, i: int)
    requires
        probe::is_run(config, steps, answers),
        1 <= i < steps.len(),
    ensures
        !(steps[i] is LookUpStart),
        i >= 2 ==> !(steps[i] is TakeEnd),
    decreases i,
{
    assert(steps[i - 1].is_answered_by(answers[i - 1]));
    assert(steps[i - 1].follows(config, answers[i - 1], steps[i]));
    if i >= 2 {
        lemma_later_steps(config, steps, answers, i - 1);
    }
}

/// What a run adds to the counts of intervals that qualify.
proof fn lemma_eligible_counts(config: Config, run: Run)
    requires
        probe::is_run(config, run.steps, run.answers),
    ensures
        ({
            let counts = probe::run_counts(config, run.steps, run.answers);
            &&& counts.eligible_duration_us == off_cpu_us(config, run)
            &&& counts.eligible_intervals == if is_eligible(config, run) {
                1nat
            } else {
                0nat
            }
        }),
    decreases run.answers.len(),
{
    let n = run.answers.len() as int;
    if n > 0 {
        let fewer = Run {
            cpu: run.cpu,
            steps: run.steps.drop_last(),
            answers: run.answers.drop_last(),
        };
        assert forall|k: int| 0 <= k < fewer.answers.len() implies {
            &&& (#[trigger] fewer.steps[k]).is_answered_by(fewer.answers[k])
            &&& fewer.steps[k].follows(config, fewer.answers[k], fewer.steps[k + 1])
        } by {
            assert(fewer.steps[k] == run.steps[k]);
        }
        assert(probe::is_run(config, fewer.steps, fewer.answers));
        lemma_eligible_counts(config, fewer);
        assert(run.steps[n - 1].is_answered_by(run.answers[n - 1]));
        assert(run.steps[n - 1].follows(config, run.answers[n - 1], run.steps[n]));
        if n >= 2 {
            lemma_later_steps(config, run.steps, run.answers, n - 1);
            assert(run.steps[0].is_answered_by(run.answers[0]));
            assert(run.steps[0].follows(config, run.answers[0], run.steps[1]));
            assert(run.steps[1].is_answered_by(run.answers[1]));
        }
    }
}

/// The sum over all CPUs when the count of one changes.
proof fn lemma_total_with_other(
    values: Seq<CollectionStats>,
    cpu: int,
    value: CollectionStats,
    count: spec_fn(CollectionStats) -> u64,
)
    requires
        0 <= cpu < values.len(),
    ensures
        common::total(values.update(cpu, value), count) == common::total(values, count) - count(
            values[cpu],
        ) + count(value),
    decreases values.len(),
{
    let other = values.update(cpu, value);
    if cpu == values.len() - 1 {
        assert(other.drop_last() =~= values.drop_last());
    } else {
        lemma_total_with_other(values.drop_last(), cpu, value, count);
        assert(other.drop_last() =~= values.drop_last().update(cpu, value));
    }
}

/// What is added to the count of one CPU is added to the sum over all.
proof fn lemma_total_advances(
    values: Seq<CollectionStats>,
    cpu: int,
    value: CollectionStats,
    count: spec_fn(CollectionStats) -> u64,
    by: nat,
)
    requires
        0 <= cpu < values.len(),
        count(value) == counter::advanced(count(values[cpu]), by),
    ensures
        counter::advanced(0, common::total(values.update(cpu, value), count)) == counter::advanced(
            0,
            common::total(values, count) + by,
        ),
{
    lemma_total_with_other(values, cpu, value, count);
    let t = counter::turn() as int;
    let old_count = count(values[cpu]) as int;
    let sum = old_count + by;
    let turns = sum / t;
    vstd::arithmetic::div_mod::lemma_fundamental_div_mod(sum, t);
    let total = common::total(values, count) as int;
    let after = common::total(values.update(cpu, value), count) as int;
    assert(after == total + by - t * turns);
    vstd::arithmetic::div_mod::lemma_mod_multiples_vanish(turns, after, t);
}

/// What is added to all counts of one CPU is added to the sums over all.
proof fn lemma_totals_advance(values: Seq<CollectionStats>, cpu: int, counts: Counts)
    requires
        0 <= cpu < values.len(),
    ensures
        common::totals(values.update(cpu, counts.added_to(values[cpu]))) == counts.added_to(
            common::totals(values),
        ),
{
    let value = counts.added_to(values[cpu]);
    let other = values.update(cpu, value);
    let f0 = |stats: CollectionStats| stats.eligible_intervals;
    let f1 = |stats: CollectionStats| stats.eligible_duration_us;
    let f2 = |stats: CollectionStats| stats.probability_rejections;
    let f3 = |stats: CollectionStats| stats.selected_intervals;
    let f4 = |stats: CollectionStats| stats.kernel_stack_failures;
    let f5 = |stats: CollectionStats| stats.user_stack_failures;
    let f6 = |stats: CollectionStats| stats.signal_failures;
    lemma_total_advances(values, cpu, value, f0, counts.eligible_intervals);
    lemma_total_advances(values, cpu, value, f1, counts.eligible_duration_us);
    lemma_total_advances(values, cpu, value, f2, counts.probability_rejections);
    lemma_total_advances(values, cpu, value, f3, counts.selected_intervals);
    lemma_total_advances(values, cpu, value, f4, counts.kernel_stack_failures);
    lemma_total_advances(values, cpu, value, f5, counts.user_stack_failures);
    lemma_total_advances(values, cpu, value, f6, counts.signal_failures);
    counter::lemma_advanced_twice(0, common::total(values, f0), counts.eligible_intervals);
    counter::lemma_advanced_twice(0, common::total(values, f1), counts.eligible_duration_us);
    counter::lemma_advanced_twice(0, common::total(values, f2), counts.probability_rejections);
    counter::lemma_advanced_twice(0, common::total(values, f3), counts.selected_intervals);
    counter::lemma_advanced_twice(0, common::total(values, f4), counts.kernel_stack_failures);
    counter::lemma_advanced_twice(0, common::total(values, f5), counts.user_stack_failures);
    counter::lemma_advanced_twice(0, common::total(values, f6), counts.signal_failures);
}

/// Counts of CPUs that have counted nothing add up to nothing.
proof fn lemma_zeros(cpus: nat)
    ensures
        common::totals(Seq::new(cpus, |cpu: int| common::totals(seq![]))) == common::totals(
            seq![],
        ),
    decreases cpus,
{
    let zeros = Seq::new(cpus, |cpu: int| common::totals(seq![]));
    if cpus > 0 {
        let fewer = Seq::new((cpus - 1) as nat, |cpu: int| common::totals(seq![]));
        lemma_zeros((cpus - 1) as nat);
        assert(zeros.drop_last() =~= fewer);
        assert(zeros.last() == common::totals(seq![]));
    } else {
        assert(zeros =~= seq![]);
    }
}

/// The counts of all CPUs together are what all runs add.
proof fn lemma_totals_of_runs(config: Config, cpus: nat, runs: Seq<Run>)
    requires
        forall|i: int| 0 <= i < runs.len() ==> is_complete(config, cpus, #[trigger] runs[i]),
    ensures
        stats_of_cpus(config, cpus, runs).len() == cpus,
        common::totals(stats_of_cpus(config, cpus, runs)) == all_counts(config, runs).added_to(
            common::totals(seq![]),
        ),
        all_counts(config, runs).eligible_intervals == eligible_runs(config, runs),
        all_counts(config, runs).eligible_duration_us == total_off_cpu_us(config, runs),
        all_counts(config, runs).eligible_intervals == all_counts(
            config,
            runs,
        ).probability_rejections + all_counts(config, runs).selected_intervals,
    decreases runs.len(),
{
    broadcast use counter::lemma_advanced_by_nothing;

    if runs.len() == 0 {
        lemma_zeros(cpus);
    } else {
        let fewer = runs.drop_last();
        let run = runs.last();
        assert forall|i: int| 0 <= i < fewer.len() implies is_complete(
            config,
            cpus,
            #[trigger] fewer[i],
        ) by {
            assert(fewer[i] == runs[i]);
        }
        assert(is_complete(config, cpus, runs[runs.len() - 1]));
        lemma_totals_of_runs(config, cpus, fewer);
        let before = stats_of_cpus(config, cpus, fewer);
        let counts = probe::run_counts(config, run.steps, run.answers);
        lemma_stats_after(config, run.steps, run.answers, before[run.cpu]);
        lemma_totals_advance(before, run.cpu, counts);
        lemma_added_twice(all_counts(config, fewer), counts, common::totals(seq![]));
        lemma_eligible_counts(config, run);
        probe::law_only_selected_intervals_are_signalled_and_reported(
            config,
            run.steps,
            run.answers,
        );
    }
}

/// Over any number of runs on any number of CPUs, the counts of all CPUs together
/// balance, modulo a turn of the counters: the eligible intervals are the rejected
/// and the selected ones, they are as many as there are runs of an interval that
/// qualifies, and the eligible duration is the off-CPU time of those runs.
pub proof fn law_the_counts_of_all_cpus_balance(config: Config, cpus: nat, runs: Seq<Run>)
    requires
        forall|i: int| 0 <= i < runs.len() ==> is_complete(config, cpus, #[trigger] runs[i]),
    ensures
        ({
            let stats = common::totals(stats_of_cpus(config, cpus, runs));
            &&& stats.eligible_intervals == counter::advanced(
                stats.probability_rejections,
                stats.selected_intervals as nat,
            )
            &&& stats.eligible_intervals == counter::advanced(0, eligible_runs(config, runs))
            &&& stats.eligible_duration_us == counter::advanced(0, total_off_cpu_us(config, runs))
        }),
{
    broadcast use counter::lemma_advanced_by_nothing;

    lemma_totals_of_runs(config, cpus, runs);
    let counts = all_counts(config, runs);
    let t = counter::turn() as int;
    let rejected = counts.probability_rejections as int;
    let selected = counts.selected_intervals as int;
    vstd::arithmetic::div_mod::lemma_add_mod_noop(rejected, selected, t);
}

} // verus!
