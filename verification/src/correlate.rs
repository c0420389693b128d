//! What a sweep over the queues of one thread does.
//!
//! A thread has a queue of intervals and a queue of samples. A sweep takes
//! intervals from the front of the first for as long as their fate is known,
//! and pairs each with the sample at the front of the second or with none.

use vstd::prelude::*;

use crate::events::{BpfEvent, JvmEvent};

verus! {

/// A sample this many nanoseconds after the end of an interval is too late to
/// belong to it.
pub const EVENT_MATCH_TIME_THRESHOLD_NS: u64 = 1_000_000_000;

/// An interval that ended this many nanoseconds ago no longer waits for a sample.
pub const EVENT_MATCH_GIVEUP_TIME_NS: u64 = 30_000_000_000;

/// What a sweep leaves of one thread and what it gives out.
#[verifier::ext_equal]
pub struct ThreadSweep {
    /// Intervals that stay queued.
    pub bpf: Seq<BpfEvent>,
    /// Samples that stay queued.
    pub jvm: Seq<JvmEvent>,
    /// Intervals that leave, each with its sample if it has one.
    pub results: Seq<(BpfEvent, Option<JvmEvent>)>,
    /// Samples that leave without an interval.
    pub discarded: Seq<JvmEvent>,
}

/// A sample belongs to an interval when it was taken no earlier than the end
/// of the interval and less than the threshold after it.
pub open spec fn matches(end_ns: u64, sample_ns: u64) -> bool {
    end_ns <= sample_ns && sample_ns - end_ns < EVENT_MATCH_TIME_THRESHOLD_NS
}

/// The interval has waited long enough for a sample.
pub open spec fn expired(end_ns: u64, now_ns: u64) -> bool {
    now_ns - end_ns >= EVENT_MATCH_GIVEUP_TIME_NS
}

/// A sample older than the interval, which may be dropped because every CPU
/// has reported past it.
pub open spec fn stale(sample: JvmEvent, end_ns: u64, watermark_ns: u64) -> bool {
    sample.monotonic_timestamp_ns <= watermark_ns && sample.monotonic_timestamp_ns < end_ns
}

/// How many samples at the front of the queue are stale.
pub open spec fn stale_len(jvm: Seq<JvmEvent>, end_ns: u64, watermark_ns: u64) -> nat
    decreases jvm.len(),
{
    if jvm.len() > 0 && stale(jvm[0], end_ns, watermark_ns) {
        1 + stale_len(jvm.skip(1), end_ns, watermark_ns)
    } else {
        0
    }
}

/// The samples that remain candidates for an interval.
pub open spec fn candidates(jvm: Seq<JvmEvent>, end_ns: u64, watermark_ns: u64) -> Seq<JvmEvent> {
    jvm.skip(stale_len(jvm, end_ns, watermark_ns) as int)
}

/// What becomes of the interval at the front of the queue.
pub enum Verdict {
    /// It stays: a sample past the watermark or a sample yet to come decides.
    Wait,
    /// It leaves without a sample.
    Unmatched,
    /// It leaves with the sample at the front.
    Matched,
}

/// The fate of the front interval, given the candidate samples.
pub open spec fn verdict(
    bpf: Seq<BpfEvent>,
    jvm: Seq<JvmEvent>,
    watermark_ns: u64,
    now_ns: u64,
) -> Verdict {
    let end_ns = bpf[0].end_monotonic_ns;
    if jvm.len() == 0 {
        if bpf[0].signal_result != 0 || expired(end_ns, now_ns) {
            Verdict::Unmatched
        } else {
            Verdict::Wait
        }
    } else if jvm[0].monotonic_timestamp_ns > watermark_ns {
        Verdict::Wait
    } else if bpf[0].signal_result == 0 && matches(end_ns, jvm[0].monotonic_timestamp_ns)
        && !(bpf.len() > 1 && bpf[1].end_monotonic_ns <= jvm[0].monotonic_timestamp_ns) {
        Verdict::Matched
    } else {
        Verdict::Unmatched
    }
}

/// The sweep of one thread.
pub open spec fn sweep_thread(
    bpf: Seq<BpfEvent>,
    jvm: Seq<JvmEvent>,
    watermark_ns: u64,
    now_ns: u64,
) -> ThreadSweep
    decreases bpf.len(),
{
    if bpf.len() == 0 {
        ThreadSweep { bpf, jvm, results: seq![], discarded: seq![] }
    } else {
        let end_ns = bpf[0].end_monotonic_ns;
        let dropped = jvm.take(stale_len(jvm, end_ns, watermark_ns) as int);
        let rest = candidates(jvm, end_ns, watermark_ns);
        match verdict(bpf, rest, watermark_ns, now_ns) {
            Verdict::Wait => ThreadSweep { bpf, jvm: rest, results: seq![], discarded: dropped },
            Verdict::Unmatched => {
                let next = sweep_thread(bpf.skip(1), rest, watermark_ns, now_ns);
                ThreadSweep {
                    results: seq![(bpf[0], None::<JvmEvent>)] + next.results,
                    discarded: dropped + next.discarded,
                    ..next
                }
            },
            Verdict::Matched => {
                let next = sweep_thread(bpf.skip(1), rest.skip(1), watermark_ns, now_ns);
                ThreadSweep {
                    results: seq![(bpf[0], Some(rest[0]))] + next.results,
                    discarded: dropped + next.discarded,
                    ..next
                }
            },
        }
    }
}

/// The samples that were given to intervals, in order.
pub open spec fn matched_samples(results: Seq<(BpfEvent, Option<JvmEvent>)>) -> Seq<JvmEvent>
    decreases results.len(),
{
    if results.len() == 0 {
        seq![]
    } else {
        match results[0].1 {
            Some(sample) => seq![sample] + matched_samples(results.skip(1)),
            None => matched_samples(results.skip(1)),
        }
    }
}

/// The intervals of some results, in order.
pub open spec fn intervals_of(results: Seq<(BpfEvent, Option<JvmEvent>)>) -> Seq<BpfEvent> {
    results.map_values(|result: (BpfEvent, Option<JvmEvent>)| result.0)
}

/// Intervals stand in the order in which they ended.
pub open spec fn chronological(bpf: Seq<BpfEvent>) -> bool {
    forall|i: int, j: int|
        0 <= i < j < bpf.len() ==> bpf[i].end_monotonic_ns <= bpf[j].end_monotonic_ns
}

pub proof fn lemma_stale_prefix(jvm: Seq<JvmEvent>, end_ns: u64, watermark_ns: u64)
    ensures
        stale_len(jvm, end_ns, watermark_ns) <= jvm.len(),
        forall|i: int|
            0 <= i < stale_len(jvm, end_ns, watermark_ns) ==> stale(
                #[trigger] jvm[i],
                end_ns,
                watermark_ns,
            ),
        stale_len(jvm, end_ns, watermark_ns) < jvm.len() ==> !stale(
            jvm[stale_len(jvm, end_ns, watermark_ns) as int],
            end_ns,
            watermark_ns,
        ),
    decreases jvm.len(),
{
    if jvm.len() > 0 && stale(jvm[0], end_ns, watermark_ns) {
        lemma_stale_prefix(jvm.skip(1), end_ns, watermark_ns);
        assert forall|i: int| 0 <= i < stale_len(jvm, end_ns, watermark_ns) implies stale(
            #[trigger] jvm[i],
            end_ns,
            watermark_ns,
        ) by {
            if i > 0 {
                assert(jvm[i] == jvm.skip(1)[i - 1]);
            }
        }
    }
}

/// No interval is lost, duplicated or overtaken: those that a sweep gives out,
/// followed by those that stay, are those that were queued.
pub proof fn law_intervals_leave_in_order(
    bpf: Seq<BpfEvent>,
    jvm: Seq<JvmEvent>,
    watermark_ns: u64,
    now_ns: u64,
)
    ensures
        intervals_of(sweep_thread(bpf, jvm, watermark_ns, now_ns).results) + sweep_thread(
            bpf,
            jvm,
            watermark_ns,
            now_ns,
        ).bpf == bpf,
    decreases bpf.len(),
{
    let swept = sweep_thread(bpf, jvm, watermark_ns, now_ns);
    if bpf.len() > 0 {
        let rest = candidates(jvm, bpf[0].end_monotonic_ns, watermark_ns);
        let tail = match verdict(bpf, rest, watermark_ns, now_ns) {
            Verdict::Matched => rest.skip(1),
            _ => rest,
        };
        law_intervals_leave_in_order(bpf.skip(1), tail, watermark_ns, now_ns);
        let next = sweep_thread(bpf.skip(1), tail, watermark_ns, now_ns);
        if verdict(bpf, rest, watermark_ns, now_ns) is Wait {
            assert(intervals_of(swept.results) + swept.bpf =~= bpf);
        } else {
            assert(intervals_of(swept.results) =~= seq![bpf[0]] + intervals_of(next.results));
            assert(bpf =~= seq![bpf[0]] + bpf.skip(1));
            assert(intervals_of(swept.results) + swept.bpf =~= seq![bpf[0]] + (intervals_of(
                next.results,
            ) + next.bpf));
        }
    } else {
        assert(intervals_of(swept.results) + swept.bpf =~= bpf);
    }
}

/// Samples leave from the front, and only samples that every CPU has reported
/// past: one beyond the watermark is neither given to an interval nor dropped.
pub proof fn law_samples_wait_for_the_watermark(
    bpf: Seq<BpfEvent>,
    jvm: Seq<JvmEvent>,
    watermark_ns: u64,
    now_ns: u64,
)
    ensures
        ({
            let swept = sweep_thread(bpf, jvm, watermark_ns, now_ns);
            let consumed = jvm.len() - swept.jvm.len();
            &&& 0 <= consumed
            &&& swept.jvm == jvm.skip(consumed)
            &&& forall|i: int|
                0 <= i < consumed ==> (#[trigger] jvm[i]).monotonic_timestamp_ns <= watermark_ns
        }),
    decreases bpf.len(),
{
    let swept = sweep_thread(bpf, jvm, watermark_ns, now_ns);
    if bpf.len() > 0 {
        let end_ns = bpf[0].end_monotonic_ns;
        let count = stale_len(jvm, end_ns, watermark_ns) as int;
        lemma_stale_prefix(jvm, end_ns, watermark_ns);
        let rest = candidates(jvm, end_ns, watermark_ns);
        let taken = verdict(bpf, rest, watermark_ns, now_ns) is Matched;
        let tail = if taken {
            rest.skip(1)
        } else {
            rest
        };
        if !(verdict(bpf, rest, watermark_ns, now_ns) is Wait) {
            law_samples_wait_for_the_watermark(bpf.skip(1), tail, watermark_ns, now_ns);
            let gone = count + (if taken {
                1int
            } else {
                0int
            });
            assert(tail =~= jvm.skip(gone));
            let consumed = jvm.len() - swept.jvm.len();
            assert(swept.jvm =~= jvm.skip(consumed));
            assert forall|i: int| 0 <= i < consumed implies (
            #[trigger] jvm[i]).monotonic_timestamp_ns <= watermark_ns by {
                if i >= gone {
                    assert(jvm[i] == tail[i - gone]);
                }
            }
        }
    } else {
        assert(swept.jvm =~= jvm.skip(0));
    }
}

/// What holds of an interval and the sample it was given: the sample was taken
/// within the threshold after the interval ended, every CPU had reported past
/// it, and the signal that asks for a sample had been delivered.
pub open spec fn fits(interval: BpfEvent, sample: JvmEvent, watermark_ns: u64) -> bool {
    &&& matches(interval.end_monotonic_ns, sample.monotonic_timestamp_ns)
    &&& sample.monotonic_timestamp_ns <= watermark_ns
    &&& interval.signal_result == 0
}

/// The sample given to the interval at a position of the queue, if one was
/// given, comes from the queue of the same thread, fits the interval, and
/// precedes the end of every later interval.
pub open spec fn rightly_given(
    bpf: Seq<BpfEvent>,
    jvm: Seq<JvmEvent>,
    position: int,
    given: Option<JvmEvent>,
    watermark_ns: u64,
) -> bool {
    given matches Some(sample) ==> {
        &&& jvm.contains(sample)
        &&& fits(bpf[position], sample, watermark_ns)
        &&& forall|later: int|
            position < later < bpf.len() ==> sample.monotonic_timestamp_ns < (
            #[trigger] bpf[later]).end_monotonic_ns
    }
}

/// Every sample that is given to an interval fits it and comes from the queue
/// of the same thread; and where several intervals precede a sample, it goes
/// to the latest of them.
pub proof fn law_a_sample_goes_to_the_latest_preceding_interval(
    bpf: Seq<BpfEvent>,
    jvm: Seq<JvmEvent>,
    watermark_ns: u64,
    now_ns: u64,
)
    requires
        chronological(bpf),
    ensures
        ({
            let results = sweep_thread(bpf, jvm, watermark_ns, now_ns).results;
            &&& results.len() <= bpf.len()
            &&& forall|i: int|
                0 <= i < results.len() ==> (#[trigger] results[i]).0 == bpf[i] && rightly_given(
                    bpf,
                    jvm,
                    i,
                    results[i].1,
                    watermark_ns,
                )
        }),
    decreases bpf.len(),
{
    if bpf.len() > 0 {
        let end_ns = bpf[0].end_monotonic_ns;
        lemma_stale_prefix(jvm, end_ns, watermark_ns);
        let rest = candidates(jvm, end_ns, watermark_ns);
        let outcome = verdict(bpf, rest, watermark_ns, now_ns);
        if !(outcome is Wait) {
            let tail = if outcome is Matched {
                rest.skip(1)
            } else {
                rest
            };
            let bpf1 = bpf.skip(1);
            law_a_sample_goes_to_the_latest_preceding_interval(bpf1, tail, watermark_ns, now_ns);
            let results = sweep_thread(bpf, jvm, watermark_ns, now_ns).results;
            let later = sweep_thread(bpf1, tail, watermark_ns, now_ns).results;
            let gone = jvm.len() - tail.len();
            assert(tail =~= jvm.skip(gone));
            assert forall|i: int| 0 <= i < results.len() implies (#[trigger] results[i]).0
                == bpf[i] && rightly_given(bpf, jvm, i, results[i].1, watermark_ns) by {
                if i > 0 {
                    assert(results[i] == later[i - 1]);
                    assert(bpf[i] == bpf1[i - 1]);
                    if let Some(sample) = results[i].1 {
                        let k = choose|k: int| 0 <= k < tail.len() && tail[k] == sample;
                        assert(jvm[k + gone] == sample);
                        assert forall|j: int| i < j < bpf.len() implies
                            sample.monotonic_timestamp_ns < (
                        #[trigger] bpf[j]).end_monotonic_ns by {
                            assert(bpf[j] == bpf1[j - 1]);
                        }
                    }
                } else if outcome is Matched {
                    assert(rest[0] == jvm[jvm.len() - rest.len()]);
                }
            }
        }
    }
}

/// Each sample that leaves does so once: it is given to one interval or it is
/// dropped.
pub proof fn law_each_sample_is_used_at_most_once(
    bpf: Seq<BpfEvent>,
    jvm: Seq<JvmEvent>,
    watermark_ns: u64,
    now_ns: u64,
)
    ensures
        ({
            let swept = sweep_thread(bpf, jvm, watermark_ns, now_ns);
            matched_samples(swept.results).to_multiset().add(swept.discarded.to_multiset()).add(
                swept.jvm.to_multiset(),
            ) == jvm.to_multiset()
        }),
    decreases bpf.len(),
{
    broadcast use vstd::multiset::group_multiset_axioms;

    let swept = sweep_thread(bpf, jvm, watermark_ns, now_ns);
    let none = Seq::<JvmEvent>::empty();
    none.to_multiset_ensures();
    assert(none.to_multiset() =~= vstd::multiset::Multiset::<JvmEvent>::empty());
    if bpf.len() == 0 {
        assert(matched_samples(swept.results).to_multiset().add(
            swept.discarded.to_multiset(),
        ).add(swept.jvm.to_multiset()) =~= jvm.to_multiset());
    } else {
        let end_ns = bpf[0].end_monotonic_ns;
        lemma_stale_prefix(jvm, end_ns, watermark_ns);
        let count = stale_len(jvm, end_ns, watermark_ns) as int;
        let dropped = jvm.take(count);
        let rest = candidates(jvm, end_ns, watermark_ns);
        assert(jvm =~= dropped + rest);
        vstd::seq_lib::lemma_multiset_commutative(dropped, rest);
        match verdict(bpf, rest, watermark_ns, now_ns) {
            Verdict::Wait => {
                assert(matched_samples(swept.results).to_multiset().add(
                    swept.discarded.to_multiset(),
                ).add(swept.jvm.to_multiset()) =~= jvm.to_multiset());
            },
            Verdict::Unmatched => {
                let next = sweep_thread(bpf.skip(1), rest, watermark_ns, now_ns);
                law_each_sample_is_used_at_most_once(bpf.skip(1), rest, watermark_ns, now_ns);
                vstd::seq_lib::lemma_multiset_commutative(dropped, next.discarded);
                assert(swept.results.skip(1) =~= next.results);
                assert(matched_samples(swept.results).to_multiset().add(
                    swept.discarded.to_multiset(),
                ).add(swept.jvm.to_multiset()) =~= jvm.to_multiset());
            },
            Verdict::Matched => {
                let tail = rest.skip(1);
                let next = sweep_thread(bpf.skip(1), tail, watermark_ns, now_ns);
                law_each_sample_is_used_at_most_once(bpf.skip(1), tail, watermark_ns, now_ns);
                vstd::seq_lib::lemma_multiset_commutative(dropped, next.discarded);
                let first = seq![rest[0]];
                assert(rest =~= first + tail);
                vstd::seq_lib::lemma_multiset_commutative(first, tail);
                vstd::seq_lib::lemma_multiset_commutative(first, matched_samples(next.results));
                assert(swept.results.skip(1) =~= next.results);
                assert(matched_samples(swept.results).to_multiset().add(
                    swept.discarded.to_multiset(),
                ).add(swept.jvm.to_multiset()) =~= jvm.to_multiset());
            },
        }
    }
}

/// A sweep leaves nothing that it could decide: sweeping again, at a watermark that
/// is no higher and a time that is no later, changes nothing.
pub proof fn law_a_sweep_is_complete(
    bpf: Seq<BpfEvent>,
    jvm: Seq<JvmEvent>,
    watermark_ns: u64,
    now_ns: u64,
    again_watermark_ns: u64,
    again_now_ns: u64,
)
    requires
        again_watermark_ns <= watermark_ns,
        again_now_ns <= now_ns,
    ensures
        ({
            let swept = sweep_thread(bpf, jvm, watermark_ns, now_ns);
            sweep_thread(swept.bpf, swept.jvm, again_watermark_ns, again_now_ns) == (ThreadSweep {
                results: seq![],
                discarded: seq![],
                ..swept
            })
        }),
    decreases bpf.len(),
{
    let swept = sweep_thread(bpf, jvm, watermark_ns, now_ns);
    let again = sweep_thread(swept.bpf, swept.jvm, again_watermark_ns, again_now_ns);
    if bpf.len() > 0 {
        let end_ns = bpf[0].end_monotonic_ns;
        lemma_stale_prefix(jvm, end_ns, watermark_ns);
        let rest = candidates(jvm, end_ns, watermark_ns);
        let tail = match verdict(bpf, rest, watermark_ns, now_ns) {
            Verdict::Matched => rest.skip(1),
            _ => rest,
        };
        if verdict(bpf, rest, watermark_ns, now_ns) is Wait {
            assert(stale_len(rest, end_ns, again_watermark_ns) == 0);
            assert(candidates(rest, end_ns, again_watermark_ns) =~= rest);
            assert(again.discarded =~= seq![]);
        } else {
            law_a_sweep_is_complete(
                bpf.skip(1),
                tail,
                watermark_ns,
                now_ns,
                again_watermark_ns,
                again_now_ns,
            );
        }
    }
}

/// Once every CPU has reported everything, an interval that stays has no sample
/// left to wait with.
pub proof fn law_without_a_watermark_only_intervals_without_samples_stay(
    bpf: Seq<BpfEvent>,
    jvm: Seq<JvmEvent>,
    now_ns: u64,
)
    ensures
        sweep_thread(bpf, jvm, u64::MAX, now_ns).bpf.len() > 0 ==> sweep_thread(
            bpf,
            jvm,
            u64::MAX,
            now_ns,
        ).jvm.len() == 0,
    decreases bpf.len(),
{
    if bpf.len() > 0 {
        let rest = candidates(jvm, bpf[0].end_monotonic_ns, u64::MAX);
        law_without_a_watermark_only_intervals_without_samples_stay(bpf.skip(1), rest, now_ns);
        law_without_a_watermark_only_intervals_without_samples_stay(
            bpf.skip(1),
            rest.skip(1),
            now_ns,
        );
    }
}

/// Intervals that ended at the same monotonic times, with the same signals.
pub open spec fn same_ends(bpf: Seq<BpfEvent>, other: Seq<BpfEvent>) -> bool {
    &&& bpf.len() == other.len()
    &&& forall|i: int|
        0 <= i < bpf.len() ==> (#[trigger] bpf[i]).end_monotonic_ns == (
        #[trigger] other[i]).end_monotonic_ns && bpf[i].signal_result == other[i].signal_result
}

/// Samples that were taken at the same monotonic times.
pub open spec fn same_times(jvm: Seq<JvmEvent>, other: Seq<JvmEvent>) -> bool {
    &&& jvm.len() == other.len()
    &&& forall|i: int|
        0 <= i < jvm.len() ==> (#[trigger] jvm[i]).monotonic_timestamp_ns == (
        #[trigger] other[i]).monotonic_timestamp_ns
}

proof fn lemma_same_stale_len(
    jvm: Seq<JvmEvent>,
    other: Seq<JvmEvent>,
    end_ns: u64,
    watermark_ns: u64,
)
    requires
        same_times(jvm, other),
    ensures
        stale_len(jvm, end_ns, watermark_ns) == stale_len(other, end_ns, watermark_ns),
    decreases jvm.len(),
{
    if jvm.len() > 0 {
        assert(jvm[0].monotonic_timestamp_ns == other[0].monotonic_timestamp_ns);
        lemma_same_times_later(jvm, other, 1);
        lemma_same_stale_len(jvm.skip(1), other.skip(1), end_ns, watermark_ns);
    }
}

proof fn lemma_same_times_later(jvm: Seq<JvmEvent>, other: Seq<JvmEvent>, count: int)
    requires
        same_times(jvm, other),
        0 <= count <= jvm.len(),
    ensures
        same_times(jvm.skip(count), other.skip(count)),
{
    let rest = jvm.skip(count);
    let rest_of_other = other.skip(count);
    assert forall|i: int| 0 <= i < rest.len() implies (#[trigger] rest[i]).monotonic_timestamp_ns
        == (#[trigger] rest_of_other[i]).monotonic_timestamp_ns by {
        assert(rest[i] == jvm[count + i]);
        assert(rest_of_other[i] == other[count + i]);
    }
}

/// Only monotonic times and signals decide: whatever else intervals and samples
/// hold, wall-clock timestamps above all, they leave alike and are paired alike.
pub proof fn law_only_monotonic_times_and_signals_decide(
    bpf: Seq<BpfEvent>,
    jvm: Seq<JvmEvent>,
    other_bpf: Seq<BpfEvent>,
    other_jvm: Seq<JvmEvent>,
    watermark_ns: u64,
    now_ns: u64,
)
    requires
        same_ends(bpf, other_bpf),
        same_times(jvm, other_jvm),
    ensures
        ({
            let swept = sweep_thread(bpf, jvm, watermark_ns, now_ns);
            let other = sweep_thread(other_bpf, other_jvm, watermark_ns, now_ns);
            &&& swept.bpf.len() == other.bpf.len()
            &&& swept.jvm.len() == other.jvm.len()
            &&& swept.discarded.len() == other.discarded.len()
            &&& swept.results.len() == other.results.len()
            &&& forall|i: int|
                0 <= i < swept.results.len() ==> paired_alike(
                    #[trigger] swept.results[i],
                    #[trigger] other.results[i],
                )
        }),
    decreases bpf.len(),
{
    let swept = sweep_thread(bpf, jvm, watermark_ns, now_ns);
    let other = sweep_thread(other_bpf, other_jvm, watermark_ns, now_ns);
    if bpf.len() > 0 {
        let end_ns = bpf[0].end_monotonic_ns;
        assert(end_ns == other_bpf[0].end_monotonic_ns);
        assert(bpf.len() > 1 ==> bpf[1].end_monotonic_ns == other_bpf[1].end_monotonic_ns);
        let count = stale_len(jvm, end_ns, watermark_ns) as int;
        lemma_same_stale_len(jvm, other_jvm, end_ns, watermark_ns);
        lemma_stale_prefix(jvm, end_ns, watermark_ns);
        lemma_same_times_later(jvm, other_jvm, count);
        let rest = candidates(jvm, end_ns, watermark_ns);
        let other_rest = candidates(other_jvm, end_ns, watermark_ns);
        assert(rest.len() > 0 ==> rest[0].monotonic_timestamp_ns
            == other_rest[0].monotonic_timestamp_ns);
        let outcome = verdict(bpf, rest, watermark_ns, now_ns);
        assert(verdict(other_bpf, other_rest, watermark_ns, now_ns) == outcome);
        if !(outcome is Wait) {
            let bpf1 = bpf.skip(1);
            let other_bpf1 = other_bpf.skip(1);
            assert forall|i: int| 0 <= i < bpf1.len() implies (
            #[trigger] bpf1[i]).end_monotonic_ns == (#[trigger] other_bpf1[i]).end_monotonic_ns
                && bpf1[i].signal_result == other_bpf1[i].signal_result by {
                assert(bpf1[i] == bpf[i + 1]);
                assert(other_bpf1[i] == other_bpf[i + 1]);
            }
            let (tail, other_tail) = if outcome is Matched {
                lemma_same_times_later(rest, other_rest, 1);
                (rest.skip(1), other_rest.skip(1))
            } else {
                (rest, other_rest)
            };
            law_only_monotonic_times_and_signals_decide(
                bpf1,
                tail,
                other_bpf1,
                other_tail,
                watermark_ns,
                now_ns,
            );
            let next = sweep_thread(bpf1, tail, watermark_ns, now_ns);
            let other_next = sweep_thread(other_bpf1, other_tail, watermark_ns, now_ns);
            assert forall|i: int| 0 <= i < swept.results.len() implies paired_alike(
                #[trigger] swept.results[i],
                #[trigger] other.results[i],
            ) by {
                if i > 0 {
                    assert(swept.results[i] == next.results[i - 1]);
                    assert(other.results[i] == other_next.results[i - 1]);
                }
            }
        }
    }
}

/// Both have a sample of the same monotonic time, or neither has one.
pub open spec fn paired_alike(
    result: (BpfEvent, Option<JvmEvent>),
    other: (BpfEvent, Option<JvmEvent>),
) -> bool {
    match (result.1, other.1) {
        (Some(sample), Some(of_other)) => sample.monotonic_timestamp_ns
            == of_other.monotonic_timestamp_ns,
        (None, None) => true,
        _ => false,
    }
}

/// Intervals without a sample.
pub open spec fn without_samples(bpf: Seq<BpfEvent>) -> Seq<(BpfEvent, Option<JvmEvent>)> {
    bpf.map_values(|event: BpfEvent| (event, None::<JvmEvent>))
}

/// Every interval has waited long enough for a sample.
pub open spec fn all_expired(bpf: Seq<BpfEvent>, now_ns: u64) -> bool {
    forall|i: int| 0 <= i < bpf.len() ==> expired((#[trigger] bpf[i]).end_monotonic_ns, now_ns)
}

proof fn lemma_expired_intervals_leave_without_samples(bpf: Seq<BpfEvent>, now_ns: u64)
    requires
        all_expired(bpf, now_ns),
    ensures
        sweep_thread(bpf, seq![], u64::MAX, now_ns).results == without_samples(bpf),
        sweep_thread(bpf, seq![], u64::MAX, now_ns).bpf.len() == 0,
    decreases bpf.len(),
{
    let none = Seq::<JvmEvent>::empty();
    let swept = sweep_thread(bpf, none, u64::MAX, now_ns);
    if bpf.len() > 0 {
        let later = bpf.skip(1);
        assert forall|i: int| 0 <= i < later.len() implies expired(
            (#[trigger] later[i]).end_monotonic_ns,
            now_ns,
        ) by {
            assert(later[i] == bpf[i + 1]);
        }
        lemma_expired_intervals_leave_without_samples(later, now_ns);
        assert(candidates(none, bpf[0].end_monotonic_ns, u64::MAX) =~= none);
        assert(expired(bpf[0].end_monotonic_ns, now_ns));
        assert(swept.results =~= without_samples(bpf));
    }
    assert(swept.results =~= without_samples(bpf));
}

/// When no more is to come, nothing need be waited for: what leaves at once,
/// followed by what is left, without samples, is what would leave once every
/// interval had waited long enough.
pub proof fn law_giving_up_at_once_pairs_as_waiting_would(
    bpf: Seq<BpfEvent>,
    jvm: Seq<JvmEvent>,
    now_ns: u64,
    expired_ns: u64,
)
    requires
        all_expired(bpf, expired_ns),
    ensures
        ({
            let swept = sweep_thread(bpf, jvm, u64::MAX, now_ns);
            let waited = sweep_thread(bpf, jvm, u64::MAX, expired_ns);
            &&& waited.results == swept.results + without_samples(swept.bpf)
            &&& waited.bpf.len() == 0
        }),
    decreases bpf.len(),
{
    let swept = sweep_thread(bpf, jvm, u64::MAX, now_ns);
    let waited = sweep_thread(bpf, jvm, u64::MAX, expired_ns);
    if bpf.len() > 0 {
        let end_ns = bpf[0].end_monotonic_ns;
        let rest = candidates(jvm, end_ns, u64::MAX);
        let later = bpf.skip(1);
        assert(expired(end_ns, expired_ns));
        assert forall|i: int| 0 <= i < later.len() implies expired(
            (#[trigger] later[i]).end_monotonic_ns,
            expired_ns,
        ) by {
            assert(later[i] == bpf[i + 1]);
        }
        let outcome = verdict(bpf, rest, u64::MAX, now_ns);
        if outcome is Wait {
            assert(rest =~= seq![]);
            lemma_expired_intervals_leave_without_samples(later, expired_ns);
            assert(waited.results =~= swept.results + without_samples(swept.bpf));
        } else {
            let tail = if outcome is Matched {
                rest.skip(1)
            } else {
                rest
            };
            law_giving_up_at_once_pairs_as_waiting_would(later, tail, now_ns, expired_ns);
            assert(waited.results =~= swept.results + without_samples(swept.bpf));
        }
    } else {
        assert(waited.results =~= swept.results + without_samples(swept.bpf));
    }
}

/// The samples at the front that are stale, counted otherwise.
proof fn lemma_stale_len(jvm: Seq<JvmEvent>, end_ns: u64, watermark_ns: u64, older: int)
    requires
        0 <= older <= jvm.len(),
        forall|k: int|
            0 <= k < older ==> (#[trigger] jvm[k]).monotonic_timestamp_ns < end_ns
                && jvm[k].monotonic_timestamp_ns <= watermark_ns,
        older < jvm.len() ==> jvm[older].monotonic_timestamp_ns >= end_ns
            || jvm[older].monotonic_timestamp_ns > watermark_ns,
    ensures
        stale_len(jvm, end_ns, watermark_ns) == older,
{
    lemma_stale_prefix(jvm, end_ns, watermark_ns);
    let count = stale_len(jvm, end_ns, watermark_ns) as int;
    if count < older {
        assert(jvm[count].monotonic_timestamp_ns < end_ns);
    } else if older < count {
        assert(stale(jvm[older], end_ns, watermark_ns));
    }
}

/// What a sweep does about the interval at the front of the queue of a thread.
/// Samples before its end that every CPU has reported past are dropped. The first
/// sample that is left decides: one past the watermark makes the interval wait, one
/// less than a second after its end and before the end of the next interval is given
/// to it if the signal was delivered, and otherwise the interval leaves alone. With
/// no sample left it waits for 30 seconds after its end, or not at all if the signal
/// was not delivered. Where the interval leaves, the rest of the queues is swept.
pub proof fn law_the_first_sample_after_its_end_decides_about_an_interval(
    bpf: Seq<BpfEvent>,
    jvm: Seq<JvmEvent>,
    watermark_ns: u64,
    now_ns: u64,
    older: int,
)
    requires
        bpf.len() > 0,
        0 <= older <= jvm.len(),
        forall|k: int|
            0 <= k < older ==> (#[trigger] jvm[k]).monotonic_timestamp_ns < bpf[0].end_monotonic_ns
                && jvm[k].monotonic_timestamp_ns <= watermark_ns,
        older < jvm.len() ==> jvm[older].monotonic_timestamp_ns >= bpf[0].end_monotonic_ns
            || jvm[older].monotonic_timestamp_ns > watermark_ns,
    ensures
        ({
            let swept = sweep_thread(bpf, jvm, watermark_ns, now_ns);
            let alone = sweep_thread(bpf.skip(1), jvm.skip(older), watermark_ns, now_ns);
            let paired = sweep_thread(bpf.skip(1), jvm.skip(older + 1), watermark_ns, now_ns);
            let end_ns = bpf[0].end_monotonic_ns;
            let waits = swept == (ThreadSweep {
                bpf,
                jvm: jvm.skip(older),
                results: seq![],
                discarded: jvm.take(older),
            });
            let leaves_alone = swept == (ThreadSweep {
                bpf: alone.bpf,
                jvm: alone.jvm,
                results: seq![(bpf[0], None::<JvmEvent>)] + alone.results,
                discarded: jvm.take(older) + alone.discarded,
            });
            let leaves_paired = swept == (ThreadSweep {
                bpf: paired.bpf,
                jvm: paired.jvm,
                results: seq![(bpf[0], Some(jvm[older]))] + paired.results,
                discarded: jvm.take(older) + paired.discarded,
            });
            let sample_ns = jvm[older].monotonic_timestamp_ns;
            if older == jvm.len() {
                if bpf[0].signal_result == 0 && now_ns < end_ns + 30_000_000_000 {
                    waits
                } else {
                    leaves_alone
                }
            } else if sample_ns > watermark_ns {
                waits
            } else if bpf[0].signal_result == 0 && sample_ns < end_ns + 1_000_000_000 && (bpf.len()
                > 1 ==> sample_ns < bpf[1].end_monotonic_ns) {
                leaves_paired
            } else {
                leaves_alone
            }
        }),
{
    lemma_stale_len(jvm, bpf[0].end_monotonic_ns, watermark_ns, older);
    assert(older < jvm.len() ==> jvm.skip(older).skip(1) =~= jvm.skip(older + 1));
}

/// Pairing is complete. An interval whose signal was delivered leaves with the first
/// sample that was taken no earlier than its end, if every CPU has reported past that
/// sample, it was taken less than a second after the end, and the next interval of
/// the thread ended after it.
pub proof fn law_an_interval_is_given_the_sample_that_its_signal_caused(
    bpf: Seq<BpfEvent>,
    jvm: Seq<JvmEvent>,
    watermark_ns: u64,
    now_ns: u64,
    i: int,
    j: int,
)
    requires
        chronological(bpf),
        0 <= i < bpf.len(),
        0 <= j < jvm.len(),
        bpf[i].signal_result == 0,
        jvm[j].monotonic_timestamp_ns <= watermark_ns,
        bpf[i].end_monotonic_ns <= jvm[j].monotonic_timestamp_ns,
        jvm[j].monotonic_timestamp_ns < bpf[i].end_monotonic_ns + 1_000_000_000,
        i + 1 < bpf.len() ==> jvm[j].monotonic_timestamp_ns < bpf[i + 1].end_monotonic_ns,
        forall|k: int|
            0 <= k < j ==> (#[trigger] jvm[k]).monotonic_timestamp_ns < bpf[i].end_monotonic_ns,
    ensures
        ({
            let results = sweep_thread(bpf, jvm, watermark_ns, now_ns).results;
            &&& i < results.len()
            &&& results[i] == (bpf[i], Some(jvm[j]))
        }),
    decreases i,
{
    let results = sweep_thread(bpf, jvm, watermark_ns, now_ns).results;
    if i == 0 {
        lemma_stale_len(jvm, bpf[0].end_monotonic_ns, watermark_ns, j);
        assert(results[0] == (bpf[0], Some(jvm[j])));
    } else {
        let end_ns = bpf[0].end_monotonic_ns;
        assert(end_ns <= bpf[i].end_monotonic_ns);
        assert(bpf[1].end_monotonic_ns <= bpf[i].end_monotonic_ns);
        lemma_stale_prefix(jvm, end_ns, watermark_ns);
        let count = stale_len(jvm, end_ns, watermark_ns) as int;
        if j < count {
            assert(stale(jvm[j], end_ns, watermark_ns));
        }
        let rest = candidates(jvm, end_ns, watermark_ns);
        assert(rest[0] == jvm[count]);
        let outcome = verdict(bpf, rest, watermark_ns, now_ns);
        assert(!(outcome is Wait));
        let tail = if outcome is Matched {
            rest.skip(1)
        } else {
            rest
        };
        let gone = jvm.len() - tail.len();
        assert(tail =~= jvm.skip(gone));
        let later = bpf.skip(1);
        assert forall|a: int, b: int| 0 <= a < b < later.len() implies later[a].end_monotonic_ns
            <= later[b].end_monotonic_ns by {
            assert(later[a] == bpf[a + 1] && later[b] == bpf[b + 1]);
        }
        assert forall|k: int| 0 <= k < j - gone implies (#[trigger] tail[k]).monotonic_timestamp_ns
            < later[i - 1].end_monotonic_ns by {
            assert(tail[k] == jvm[gone + k]);
        }
        law_an_interval_is_given_the_sample_that_its_signal_caused(
            later,
            tail,
            watermark_ns,
            now_ns,
            i - 1,
            j - gone,
        );
        let next = sweep_thread(later, tail, watermark_ns, now_ns).results;
        assert(results[i] == next[i - 1]);
    }
}

/// Pairing is sound. The sample that an interval leaves with is one of the thread's,
/// every CPU has reported past it, it was taken no earlier than the end of the
/// interval and less than a second after it, and the signal was delivered.
pub proof fn law_a_given_sample_follows_the_interval_within_a_second(
    bpf: Seq<BpfEvent>,
    jvm: Seq<JvmEvent>,
    watermark_ns: u64,
    now_ns: u64,
    i: int,
)
    requires
        0 <= i < sweep_thread(bpf, jvm, watermark_ns, now_ns).results.len(),
    ensures
        i < bpf.len(),
        ({
            let result = sweep_thread(bpf, jvm, watermark_ns, now_ns).results[i];
            &&& result.0 == bpf[i]
            &&& result.1 matches Some(sample) ==> {
                &&& jvm.contains(sample)
                &&& sample.monotonic_timestamp_ns <= watermark_ns
                &&& bpf[i].end_monotonic_ns <= sample.monotonic_timestamp_ns
                &&& sample.monotonic_timestamp_ns < bpf[i].end_monotonic_ns + 1_000_000_000
                &&& i + 1 < bpf.len() ==> sample.monotonic_timestamp_ns
                    < bpf[i + 1].end_monotonic_ns
                &&& bpf[i].signal_result == 0
            }
        }),
    decreases i,
{
    let results = sweep_thread(bpf, jvm, watermark_ns, now_ns).results;
    let end_ns = bpf[0].end_monotonic_ns;
    lemma_stale_prefix(jvm, end_ns, watermark_ns);
    let count = stale_len(jvm, end_ns, watermark_ns) as int;
    let rest = candidates(jvm, end_ns, watermark_ns);
    let outcome = verdict(bpf, rest, watermark_ns, now_ns);
    if i == 0 {
        if outcome is Matched {
            assert(rest[0] == jvm[count]);
            assert(results[0].1 == Some(jvm[count]));
        }
    } else {
        let tail = if outcome is Matched {
            rest.skip(1)
        } else {
            rest
        };
        let gone = jvm.len() - tail.len();
        assert(tail =~= jvm.skip(gone));
        let next = sweep_thread(bpf.skip(1), tail, watermark_ns, now_ns).results;
        assert(results[i] == next[i - 1]);
        law_a_given_sample_follows_the_interval_within_a_second(
            bpf.skip(1),
            tail,
            watermark_ns,
            now_ns,
            i - 1,
        );
        if let Some(sample) = results[i].1 {
            let k = choose|k: int| 0 <= k < tail.len() && tail[k] == sample;
            assert(jvm[gone + k] == sample);
        }
    }
}

/// An interval whose signal was delivered stays for 30 seconds after its end if no
/// sample was taken since.
pub proof fn law_an_interval_waits_half_a_minute_for_its_sample(
    bpf: Seq<BpfEvent>,
    jvm: Seq<JvmEvent>,
    watermark_ns: u64,
    now_ns: u64,
    i: int,
)
    requires
        0 <= i < bpf.len(),
        bpf[i].signal_result == 0,
        now_ns < bpf[i].end_monotonic_ns + 30_000_000_000,
        forall|k: int|
            0 <= k < jvm.len() ==> (#[trigger] jvm[k]).monotonic_timestamp_ns
                < bpf[i].end_monotonic_ns,
    ensures
        sweep_thread(bpf, jvm, watermark_ns, now_ns).results.len() <= i,
    decreases i,
{
    let end_ns = bpf[0].end_monotonic_ns;
    lemma_stale_prefix(jvm, end_ns, watermark_ns);
    let count = stale_len(jvm, end_ns, watermark_ns) as int;
    let rest = candidates(jvm, end_ns, watermark_ns);
    if i == 0 {
        if rest.len() > 0 {
            assert(rest[0] == jvm[count]);
            assert(!stale(jvm[count], end_ns, watermark_ns));
        }
    } else if !(verdict(bpf, rest, watermark_ns, now_ns) is Wait) {
        let tail = if verdict(bpf, rest, watermark_ns, now_ns) is Matched {
            rest.skip(1)
        } else {
            rest
        };
        let gone = jvm.len() - tail.len();
        assert(tail =~= jvm.skip(gone));
        assert forall|k: int| 0 <= k < tail.len() implies (#[trigger] tail[k]).monotonic_timestamp_ns
            < bpf[i].end_monotonic_ns by {
            assert(tail[k] == jvm[gone + k]);
        }
        law_an_interval_waits_half_a_minute_for_its_sample(
            bpf.skip(1),
            tail,
            watermark_ns,
            now_ns,
            i - 1,
        );
    }
}

/// An interval stays, whatever the time and the signal, while a sample waits for the
/// watermark and so does every sample that was taken no earlier than its end.
pub proof fn law_an_interval_waits_for_every_cpu(
    bpf: Seq<BpfEvent>,
    jvm: Seq<JvmEvent>,
    watermark_ns: u64,
    now_ns: u64,
    i: int,
    j: int,
)
    requires
        0 <= i < bpf.len(),
        0 <= j < jvm.len(),
        jvm[j].monotonic_timestamp_ns > watermark_ns,
        forall|k: int|
            0 <= k < jvm.len() && (#[trigger] jvm[k]).monotonic_timestamp_ns
                >= bpf[i].end_monotonic_ns ==> jvm[k].monotonic_timestamp_ns > watermark_ns,
    ensures
        sweep_thread(bpf, jvm, watermark_ns, now_ns).results.len() <= i,
    decreases i,
{
    let end_ns = bpf[0].end_monotonic_ns;
    lemma_stale_prefix(jvm, end_ns, watermark_ns);
    let count = stale_len(jvm, end_ns, watermark_ns) as int;
    if j < count {
        assert(stale(jvm[j], end_ns, watermark_ns));
    }
    let rest = candidates(jvm, end_ns, watermark_ns);
    assert(rest[0] == jvm[count]);
    if i > 0 && !(verdict(bpf, rest, watermark_ns, now_ns) is Wait) {
        let tail = if verdict(bpf, rest, watermark_ns, now_ns) is Matched {
            rest.skip(1)
        } else {
            rest
        };
        let gone = jvm.len() - tail.len();
        assert(tail =~= jvm.skip(gone));
        assert(tail[j - gone] == jvm[j]);
        assert forall|k: int|
            0 <= k < tail.len() && (#[trigger] tail[k]).monotonic_timestamp_ns >= bpf.skip(1)[i
                - 1].end_monotonic_ns implies tail[k].monotonic_timestamp_ns > watermark_ns by {
            assert(tail[k] == jvm[gone + k]);
        }
        law_an_interval_waits_for_every_cpu(
            bpf.skip(1),
            tail,
            watermark_ns,
            now_ns,
            i - 1,
            j - gone,
        );
    }
}

/// An interval leaves, with a sample or without, once every CPU has reported past
/// every sample and it and those before it ended 30 seconds ago or could not be
/// signalled.
pub proof fn law_an_interval_leaves_after_half_a_minute(
    bpf: Seq<BpfEvent>,
    jvm: Seq<JvmEvent>,
    watermark_ns: u64,
    now_ns: u64,
    i: int,
)
    requires
        0 <= i < bpf.len(),
        forall|k: int|
            0 <= k < jvm.len() ==> (#[trigger] jvm[k]).monotonic_timestamp_ns <= watermark_ns,
        forall|k: int|
            0 <= k <= i ==> (#[trigger] bpf[k]).signal_result != 0 || now_ns
                >= bpf[k].end_monotonic_ns + 30_000_000_000,
    ensures
        i < sweep_thread(bpf, jvm, watermark_ns, now_ns).results.len(),
    decreases i,
{
    let end_ns = bpf[0].end_monotonic_ns;
    lemma_stale_prefix(jvm, end_ns, watermark_ns);
    let count = stale_len(jvm, end_ns, watermark_ns) as int;
    let rest = candidates(jvm, end_ns, watermark_ns);
    assert(rest.len() > 0 ==> rest[0] == jvm[count]);
    assert(bpf[0].signal_result != 0 || now_ns >= end_ns + 30_000_000_000);
    let outcome = verdict(bpf, rest, watermark_ns, now_ns);
    assert(!(outcome is Wait));
    if i > 0 {
        let tail = if outcome is Matched {
            rest.skip(1)
        } else {
            rest
        };
        let gone = jvm.len() - tail.len();
        assert(tail =~= jvm.skip(gone));
        let later = bpf.skip(1);
        assert forall|k: int| 0 <= k < tail.len() implies (#[trigger] tail[k]).monotonic_timestamp_ns
            <= watermark_ns by {
            assert(tail[k] == jvm[gone + k]);
        }
        assert forall|k: int| 0 <= k <= i - 1 implies (#[trigger] later[k]).signal_result != 0
            || now_ns >= later[k].end_monotonic_ns + 30_000_000_000 by {
            assert(later[k] == bpf[k + 1]);
        }
        law_an_interval_leaves_after_half_a_minute(later, tail, watermark_ns, now_ns, i - 1);
    }
}

/// A sample is dropped only if every CPU has reported past it and an interval of the
/// thread ended after it.
pub proof fn law_only_samples_before_the_end_of_an_interval_are_dropped(
    bpf: Seq<BpfEvent>,
    jvm: Seq<JvmEvent>,
    watermark_ns: u64,
    now_ns: u64,
    j: int,
)
    requires
        0 <= j < sweep_thread(bpf, jvm, watermark_ns, now_ns).discarded.len(),
    ensures
        ({
            let sample = sweep_thread(bpf, jvm, watermark_ns, now_ns).discarded[j];
            &&& jvm.contains(sample)
            &&& sample.monotonic_timestamp_ns <= watermark_ns
            &&& exists|i: int|
                0 <= i < bpf.len() && sample.monotonic_timestamp_ns < (
                #[trigger] bpf[i]).end_monotonic_ns
        }),
    decreases bpf.len(),
{
    let swept = sweep_thread(bpf, jvm, watermark_ns, now_ns);
    let sample = swept.discarded[j];
    let end_ns = bpf[0].end_monotonic_ns;
    lemma_stale_prefix(jvm, end_ns, watermark_ns);
    let count = stale_len(jvm, end_ns, watermark_ns) as int;
    let rest = candidates(jvm, end_ns, watermark_ns);
    if j < count {
        assert(sample == jvm[j]);
        assert(stale(jvm[j], end_ns, watermark_ns));
        assert(sample.monotonic_timestamp_ns < bpf[0].end_monotonic_ns);
    } else {
        let tail = if verdict(bpf, rest, watermark_ns, now_ns) is Matched {
            rest.skip(1)
        } else {
            rest
        };
        let gone = jvm.len() - tail.len();
        assert(tail =~= jvm.skip(gone));
        let later = bpf.skip(1);
        let next = sweep_thread(later, tail, watermark_ns, now_ns);
        assert(sample == next.discarded[j - count]);
        law_only_samples_before_the_end_of_an_interval_are_dropped(
            later,
            tail,
            watermark_ns,
            now_ns,
            j - count,
        );
        let k = choose|k: int| 0 <= k < tail.len() && tail[k] == sample;
        assert(jvm[gone + k] == sample);
        let i = choose|i: int|
            0 <= i < later.len() && sample.monotonic_timestamp_ns < (
            #[trigger] later[i]).end_monotonic_ns;
        assert(bpf[i + 1] == later[i]);
    }
}

} // verus!
