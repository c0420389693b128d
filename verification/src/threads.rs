//! What holds of the threads of a stream.

use vstd::prelude::*;

use crate::arrival;
use crate::common::BlockEvent;
use crate::correlate;
use crate::correlate::ThreadSweep;
use crate::events::{BpfEvent, JvmEvent};
use crate::ingest;
use crate::ingest::Observed;
use crate::order;
use crate::provider;
use crate::stream::{EventStream, StreamView};

verus! {

/// An interval and the sample that it was given, if it was given one.
pub type Paired = (BpfEvent, Option<JvmEvent>);

/// The results of a thread, or those of threads without a known ID.
pub open spec fn results_of(results: Seq<Paired>, tid: Option<u32>) -> Seq<Paired> {
    results.filter(|result: Paired| result.0.tid == tid)
}

/// Intervals are of a thread.
pub open spec fn are_of_thread(intervals: Seq<BpfEvent>, tid: Option<u32>) -> bool {
    forall|i: int| 0 <= i < intervals.len() ==> (#[trigger] intervals[i]).tid == tid
}

/// Samples are of a thread.
pub open spec fn are_samples_of_thread(samples: Seq<JvmEvent>, tid: u32) -> bool {
    forall|i: int| 0 <= i < samples.len() ==> (#[trigger] samples[i]).tid == tid
}

/// What holds of a stream at any time: what is queued for a thread is of that
/// thread, what has no known thread is queued apart, and the intervals of a
/// thread stand in the order in which they ended.
pub open spec fn is_sound(stream: StreamView) -> bool {
    &&& stream.bpf.dom().finite()
    &&& forall|tid: u32| #[trigger]
        stream.bpf.contains_key(tid) ==> are_of_thread(stream.bpf[tid], Some(tid))
            && correlate::chronological(stream.bpf[tid])
    &&& forall|tid: u32| #[trigger]
        stream.jvm.contains_key(tid) ==> are_samples_of_thread(stream.jvm[tid], tid)
    &&& are_of_thread(stream.unmatched, None)
}

/// A sweep of one thread keeps what holds of it.
proof fn lemma_thread_stays_sound(
    bpf: Seq<BpfEvent>,
    jvm: Seq<JvmEvent>,
    tid: u32,
    watermark_ns: u64,
    now_ns: u64,
)
    requires
        are_of_thread(bpf, Some(tid)),
        are_samples_of_thread(jvm, tid),
        correlate::chronological(bpf),
    ensures
        ({
            let swept = correlate::sweep_thread(bpf, jvm, watermark_ns, now_ns);
            &&& are_of_thread(swept.bpf, Some(tid))
            &&& correlate::chronological(swept.bpf)
            &&& are_samples_of_thread(swept.jvm, tid)
            &&& forall|i: int|
                0 <= i < swept.results.len() ==> (#[trigger] swept.results[i]).0.tid == Some(tid)
                    && (swept.results[i].1 matches Some(sample) ==> sample.tid == tid)
        }),
{
    let swept = correlate::sweep_thread(bpf, jvm, watermark_ns, now_ns);
    correlate::law_intervals_leave_in_order(bpf, jvm, watermark_ns, now_ns);
    correlate::law_samples_wait_for_the_watermark(bpf, jvm, watermark_ns, now_ns);
    correlate::law_a_sample_goes_to_the_latest_preceding_interval(bpf, jvm, watermark_ns, now_ns);
    let left = correlate::intervals_of(swept.results);
    assert forall|i: int| 0 <= i < swept.bpf.len() implies swept.bpf[i] == #[trigger] bpf[left.len()
        + i] by {
        assert((left + swept.bpf)[left.len() + i] == swept.bpf[i]);
    }
    assert forall|i: int| 0 <= i < swept.bpf.len() implies (#[trigger] swept.bpf[i]).tid == Some(
        tid,
    ) by {
        assert(swept.bpf[i] == bpf[left.len() + i]);
    }
    assert forall|i: int, j: int| 0 <= i < j < swept.bpf.len() implies swept.bpf[i].end_monotonic_ns
        <= swept.bpf[j].end_monotonic_ns by {
        assert(swept.bpf[i] == bpf[left.len() + i]);
        assert(swept.bpf[j] == bpf[left.len() + j]);
    }
    let consumed = jvm.len() - swept.jvm.len();
    assert forall|i: int| 0 <= i < swept.jvm.len() implies (#[trigger] swept.jvm[i]).tid == tid by {
        assert(swept.jvm[i] == jvm[consumed + i]);
    }
    assert forall|i: int| 0 <= i < swept.results.len() implies (
    #[trigger] swept.results[i]).0.tid == Some(tid) && (swept.results[i].1 matches Some(sample)
        ==> sample.tid == tid) by {
        assert(swept.results[i].0 == bpf[i]);
        assert(correlate::rightly_given(bpf, jvm, i, swept.results[i].1, watermark_ns));
        if let Some(sample) = swept.results[i].1 {
            let k = choose|k: int| 0 <= k < jvm.len() && jvm[k] == sample;
            assert(jvm[k].tid == tid);
        }
    }
}

/// A new stream is sound.
pub proof fn law_an_empty_stream_is_sound()
    ensures
        is_sound(
            StreamView {
                bpf: Map::empty(),
                jvm: Map::empty(),
                unmatched: seq![],
                discarded: seq![],
            },
        ),
{
}

/// A stream stays sound when an interval is queued for its thread.
pub proof fn law_a_queued_interval_keeps_a_stream_sound(
    stream: StreamView,
    tid: u32,
    event: BpfEvent,
)
    requires
        is_sound(stream),
        event.tid == Some(tid),
    ensures
        is_sound(stream.with_interval(tid, event)),
{
    let queue = stream.intervals(tid);
    let longer = arrival::arrived(queue, event);
    arrival::law_arrivals_keep_the_queue_chronological(queue, event);
    arrival::lemma_not_later(queue, event.end_monotonic_ns);
    let at = arrival::arrival_position(queue, event.end_monotonic_ns);
    assert forall|i: int| 0 <= i < longer.len() implies (#[trigger] longer[i]).tid == Some(tid) by {
        if i < at {
            assert(longer[i] == queue[i]);
        } else if i > at {
            assert(longer[i] == queue[i - 1]);
        }
    }
}

/// A stream stays sound when an interval is added whose thread is not known.
pub proof fn law_an_untranslated_interval_keeps_a_stream_sound(
    stream: StreamView,
    event: BpfEvent,
)
    requires
        is_sound(stream),
        event.tid is None,
    ensures
        is_sound(stream.with_unmatched(event)),
{
    let longer = stream.unmatched.push(event);
    assert forall|i: int| 0 <= i < longer.len() implies (#[trigger] longer[i]).tid is None by {
        if i < stream.unmatched.len() {
            assert(longer[i] == stream.unmatched[i]);
        }
    }
}

/// A stream stays sound when an interval that the kernel has reported is added,
/// whether it can be described or not.
pub proof fn law_a_reported_interval_keeps_a_stream_sound(
    before: EventStream,
    after: EventStream,
    event: BlockEvent,
    observed: Observed,
    timestamp: Option<u64>,
    result: Result<bool, String>,
)
    requires
        is_sound(before@),
        EventStream::adds(before, after, event, observed, timestamp, result),
    ensures
        is_sound(after@),
{
    if result is Ok {
        let unavailable = before.native_symbolization_unavailable@.contains(event.tgid);
        let described = choose|described: BpfEvent|
            {
                &&& #[trigger] ingest::describes(
                    described,
                    event,
                    observed,
                    before.ksyms@,
                    unavailable,
                    timestamp->0,
                )
                &&& after@ == match ingest::thread_id(observed) {
                    Some(tid) => before@.with_interval(tid, described),
                    None => before@.with_unmatched(described),
                }
            };
        match ingest::thread_id(observed) {
            Some(tid) => {
                law_a_queued_interval_keeps_a_stream_sound(before@, tid, described);
            },
            None => {
                law_an_untranslated_interval_keeps_a_stream_sound(before@, described);
            },
        }
    }
}

/// A stream stays sound when samples are appended to the queues of their
/// threads.
pub proof fn law_samples_keep_a_stream_sound(stream: StreamView, read: Seq<Option<JvmEvent>>)
    requires
        is_sound(stream),
    ensures
        is_sound(stream.with_samples(provider::with_samples(stream.jvm, read))),
    decreases read.len(),
{
    if read.len() > 0 {
        law_samples_keep_a_stream_sound(stream, read.drop_last());
        let before = provider::with_samples(stream.jvm, read.drop_last());
        let filled = stream.with_samples(before);
        let after = provider::with_samples(stream.jvm, read);
        assert forall|tid: u32| #[trigger] after.contains_key(tid) implies are_samples_of_thread(
            after[tid],
            tid,
        ) by {
            let queue = provider::queue_of(before, tid);
            if before.contains_key(tid) {
                assert(filled.jvm.contains_key(tid));
            }
            assert(are_samples_of_thread(queue, tid));
            if read.last() is Some && read.last()->0.tid == tid {
                assert forall|i: int| 0 <= i < after[tid].len() implies (
                #[trigger] after[tid][i]).tid == tid by {
                    if i < queue.len() {
                        assert(after[tid][i] == queue[i]);
                    }
                }
            } else {
                assert(before.contains_key(tid));
            }
        }
    }
}

/// A sweep adds no thread.
proof fn lemma_swept_threads_are_finite(stream: StreamView, watermark_ns: u64, now_ns: u64)
    requires
        stream.bpf.dom().finite(),
    ensures
        stream.swept(watermark_ns, now_ns).bpf.dom().finite(),
{
    let swept = stream.swept(watermark_ns, now_ns);
    assert(swept.bpf.dom().subset_of(stream.bpf.dom()));
    vstd::set_lib::lemma_set_subset_finite(stream.bpf.dom(), swept.bpf.dom());
}

/// A stream stays sound when it is swept.
#[verifier::spinoff_prover]
#[verifier::rlimit(40)]
pub proof fn law_a_sweep_keeps_a_stream_sound(stream: StreamView, watermark_ns: u64, now_ns: u64)
    requires
        is_sound(stream),
    ensures
        is_sound(stream.swept(watermark_ns, now_ns)),
{
    let swept = stream.swept(watermark_ns, now_ns);
    lemma_swept_threads_are_finite(stream, watermark_ns, now_ns);
    assert forall|tid: u32| #[trigger] swept.bpf.contains_key(tid) implies are_of_thread(
        swept.bpf[tid],
        Some(tid),
    ) && correlate::chronological(swept.bpf[tid]) by {
        assert(stream.bpf.contains_key(tid));
        lemma_samples_are_of_thread(stream, tid);
        lemma_thread_stays_sound(
            stream.intervals(tid),
            stream.samples(tid),
            tid,
            watermark_ns,
            now_ns,
        );
    }
    assert forall|tid: u32| #[trigger] swept.jvm.contains_key(tid) implies are_samples_of_thread(
        swept.jvm[tid],
        tid,
    ) by {
        assert(stream.jvm.contains_key(tid));
        lemma_samples_are_of_thread(stream, tid);
        lemma_thread_stays_sound(
            stream.intervals(tid),
            stream.samples(tid),
            tid,
            watermark_ns,
            now_ns,
        );
    }
}

proof fn lemma_samples_are_of_thread(stream: StreamView, tid: u32)
    requires
        is_sound(stream),
    ensures
        are_of_thread(stream.intervals(tid), Some(tid)),
        correlate::chronological(stream.intervals(tid)),
        are_samples_of_thread(stream.samples(tid), tid),
{
}

proof fn lemma_filter_keeps_all<T>(s: Seq<T>, keep: spec_fn(T) -> bool)
    requires
        forall|i: int| 0 <= i < s.len() ==> keep(#[trigger] s[i]),
    ensures
        s.filter(keep) == s,
    decreases s.len(),
{
    reveal(Seq::filter);
    if s.len() > 0 {
        let fewer = s.drop_last();
        assert forall|i: int| 0 <= i < fewer.len() implies keep(#[trigger] fewer[i]) by {
            assert(fewer[i] == s[i]);
        }
        lemma_filter_keeps_all(fewer, keep);
        assert(keep(s[s.len() - 1]));
        assert(fewer.push(s.last()) =~= s);
    }
}

proof fn lemma_filter_keeps_none<T>(s: Seq<T>, keep: spec_fn(T) -> bool)
    requires
        forall|i: int| 0 <= i < s.len() ==> !keep(#[trigger] s[i]),
    ensures
        s.filter(keep) == Seq::<T>::empty(),
    decreases s.len(),
{
    reveal(Seq::filter);
    if s.len() > 0 {
        let fewer = s.drop_last();
        assert forall|i: int| 0 <= i < fewer.len() implies !keep(#[trigger] fewer[i]) by {
            assert(fewer[i] == s[i]);
        }
        lemma_filter_keeps_none(fewer, keep);
        assert(!keep(s[s.len() - 1]));
    }
}

/// Results all of which are of one thread.
proof fn lemma_results_of_one_thread(results: Seq<Paired>, of: Option<u32>, tid: Option<u32>)
    requires
        forall|i: int| 0 <= i < results.len() ==> (#[trigger] results[i]).0.tid == of,
    ensures
        results_of(results, tid) == if tid == of {
            results
        } else {
            seq![]
        },
{
    let keep = |result: Paired| result.0.tid == tid;
    if tid == of {
        lemma_filter_keeps_all(results, keep);
    } else {
        lemma_filter_keeps_none(results, keep);
    }
}

proof fn lemma_results_of_both(first: Seq<Paired>, second: Seq<Paired>, tid: Option<u32>)
    ensures
        results_of(first + second, tid) == results_of(first, tid) + results_of(second, tid),
{
    Seq::filter_distributes_over_add(first, second, |result: Paired| result.0.tid == tid);
}

/// What the sweeps of some threads give out for one thread is what the sweep of
/// that thread gives out.
proof fn lemma_thread_results(
    stream: StreamView,
    tids: Seq<u32>,
    tid: Option<u32>,
    watermark_ns: u64,
    now_ns: u64,
)
    requires
        is_sound(stream),
        order::ascending(tids),
    ensures
        results_of(stream.thread_results(tids, watermark_ns, now_ns), tid) == match tid {
            Some(known) if tids.contains(known) => stream.thread(
                known,
                watermark_ns,
                now_ns,
            ).results,
            _ => seq![],
        },
        forall|i: int|
            0 <= i < stream.thread_results(tids, watermark_ns, now_ns).len() ==> is_well_paired(
                #[trigger] stream.thread_results(tids, watermark_ns, now_ns)[i],
            ),
    decreases tids.len(),
{
    let results = stream.thread_results(tids, watermark_ns, now_ns);
    if tids.len() == 0 {
        lemma_results_of_one_thread(results, None, tid);
    } else {
        let fewer = tids.drop_last();
        let last = tids.last();
        let before = stream.thread_results(fewer, watermark_ns, now_ns);
        let of_last = stream.thread(last, watermark_ns, now_ns).results;
        lemma_thread_results(stream, fewer, tid, watermark_ns, now_ns);
        lemma_samples_are_of_thread(stream, last);
        lemma_thread_stays_sound(
            stream.intervals(last),
            stream.samples(last),
            last,
            watermark_ns,
            now_ns,
        );
        lemma_results_of_one_thread(of_last, Some(last), tid);
        lemma_results_of_both(before, of_last, tid);
        if let Some(known) = tid {
            if fewer.contains(known) {
                let k = choose|k: int| 0 <= k < fewer.len() && fewer[k] == known;
                assert(tids[k] == known);
                assert(tids[k] < tids[tids.len() - 1]);
            }
            if tids.contains(known) && known != last {
                let k = choose|k: int| 0 <= k < tids.len() && tids[k] == known;
                assert(fewer[k] == known);
            }
            if known == last {
                assert(tids[tids.len() - 1] == known);
            }
        }
        assert(results_of(results, tid) =~= match tid {
            Some(known) if tids.contains(known) => stream.thread(
                known,
                watermark_ns,
                now_ns,
            ).results,
            _ => seq![],
        });
        assert forall|i: int| 0 <= i < results.len() implies is_well_paired(
            #[trigger] results[i],
        ) by {
            if i < before.len() {
                assert(results[i] == before[i]);
            } else {
                assert(results[i] == of_last[i - before.len()]);
            }
        }
    }
}

/// An interval was given a sample of its own thread, if it was given one.
pub open spec fn is_well_paired(result: Paired) -> bool {
    result.1 matches Some(sample) ==> result.0.tid == Some(sample.tid)
}

/// A sample is never given to an interval of another thread.
pub proof fn law_a_sample_is_never_reassigned_to_another_thread(
    stream: StreamView,
    watermark_ns: u64,
    now_ns: u64,
    i: int,
)
    requires
        is_sound(stream),
        0 <= i < stream.sweep_results(watermark_ns, now_ns).len(),
    ensures
        is_well_paired(stream.sweep_results(watermark_ns, now_ns)[i]),
{
    let tids = order::ascending_keys(stream.bpf.dom());
    order::lemma_keys_can_be_ordered(stream.bpf.dom());
    lemma_thread_results(stream, tids, None, watermark_ns, now_ns);
    let apart = stream.unmatched_results();
    if i >= apart.len() {
        assert(is_well_paired(
            stream.thread_results(tids, watermark_ns, now_ns)[i - apart.len()],
        ));
    }
}

/// Every interval of a thread leaves once, and in order: those that a sweep
/// gives out for it, followed by those that stay queued for it, are those that
/// were queued for it.
#[verifier::spinoff_prover]
#[verifier::rlimit(40)]
pub proof fn law_the_intervals_of_a_thread_leave_once_and_in_order(
    stream: StreamView,
    tid: u32,
    watermark_ns: u64,
    now_ns: u64,
)
    requires
        is_sound(stream),
    ensures
        correlate::intervals_of(
            results_of(stream.sweep_results(watermark_ns, now_ns), Some(tid)),
        ) + stream.swept(watermark_ns, now_ns).intervals(tid) == stream.intervals(tid),
{
    let tids = order::ascending_keys(stream.bpf.dom());
    order::lemma_keys_can_be_ordered(stream.bpf.dom());
    lemma_thread_results(stream, tids, Some(tid), watermark_ns, now_ns);
    let apart = stream.unmatched_results();
    let swept = stream.swept(watermark_ns, now_ns);
    lemma_unmatched_results(stream, Some(tid));
    lemma_results_of_both(apart, stream.thread_results(tids, watermark_ns, now_ns), Some(tid));
    let results = results_of(stream.sweep_results(watermark_ns, now_ns), Some(tid));
    assert(tids.contains(tid) <==> tids.to_set().contains(tid));
    if stream.bpf.contains_key(tid) {
        assert(stream.bpf.dom().contains(tid));
        let of_thread = stream.thread(tid, watermark_ns, now_ns);
        assert(results =~= of_thread.results);
        correlate::law_intervals_leave_in_order(
            stream.intervals(tid),
            stream.samples(tid),
            watermark_ns,
            now_ns,
        );
        assert(swept.intervals(tid) =~= of_thread.bpf);
    } else {
        assert(!stream.bpf.dom().contains(tid));
        assert(results =~= seq![]);
        assert(correlate::intervals_of(results) + swept.intervals(tid) =~= stream.intervals(tid));
    }
}

proof fn lemma_unmatched_results(stream: StreamView, tid: Option<u32>)
    requires
        is_sound(stream),
    ensures
        results_of(stream.unmatched_results(), tid) == if tid is None {
            stream.unmatched_results()
        } else {
            seq![]
        },
{
    let apart = stream.unmatched_results();
    assert forall|i: int| 0 <= i < apart.len() implies (#[trigger] apart[i]).0.tid is None by {
        assert(stream.unmatched[i].tid is None);
    }
    lemma_results_of_one_thread(apart, None, tid);
}

/// An interval whose thread has no known ID leaves with the next sweep, without
/// a sample and in the order in which it was added.
pub proof fn law_untranslated_intervals_leave_without_a_sample(
    stream: StreamView,
    watermark_ns: u64,
    now_ns: u64,
)
    requires
        is_sound(stream),
    ensures
        results_of(stream.sweep_results(watermark_ns, now_ns), None)
            == stream.unmatched_results(),
        stream.swept(watermark_ns, now_ns).unmatched.len() == 0,
{
    let tids = order::ascending_keys(stream.bpf.dom());
    order::lemma_keys_can_be_ordered(stream.bpf.dom());
    lemma_thread_results(stream, tids, None, watermark_ns, now_ns);
    lemma_unmatched_results(stream, None);
    lemma_results_of_both(
        stream.unmatched_results(),
        stream.thread_results(tids, watermark_ns, now_ns),
        None,
    );
    assert(results_of(stream.sweep_results(watermark_ns, now_ns), None)
        =~= stream.unmatched_results());
}

/// When no more is to come, every interval of a thread is given out, once and in
/// order.
#[verifier::spinoff_prover]
#[verifier::rlimit(40)]
pub proof fn law_every_interval_is_given_out_in_the_end(
    stream: StreamView,
    tid: u32,
    now_ns: u64,
)
    requires
        is_sound(stream),
    ensures
        correlate::intervals_of(results_of(stream.final_results(now_ns), Some(tid)))
            == stream.intervals(tid),
{
    let swept = stream.swept(u64::MAX, now_ns);
    law_a_sweep_keeps_a_stream_sound(stream, u64::MAX, now_ns);
    law_the_intervals_of_a_thread_leave_once_and_in_order(stream, tid, u64::MAX, now_ns);
    let tids = order::ascending_keys(swept.bpf.dom());
    order::lemma_keys_can_be_ordered(swept.bpf.dom());
    lemma_unsampled_results(swept, tids, Some(tid));
    assert(correlate::intervals_of(correlate::without_samples(swept.intervals(tid)))
        =~= swept.intervals(tid));
    let first = stream.sweep_results(u64::MAX, now_ns);
    let rest = swept.unsampled(tids);
    lemma_results_of_both(first, rest, Some(tid));
    assert(tids.contains(tid) <==> tids.to_set().contains(tid));
    assert(swept.bpf.contains_key(tid) <==> swept.bpf.dom().contains(tid));
    assert(correlate::intervals_of(results_of(stream.final_results(now_ns), Some(tid)))
        =~= correlate::intervals_of(results_of(first, Some(tid))) + correlate::intervals_of(
        results_of(rest, Some(tid)),
    ));
}

/// The samples of a thread among some that were dropped.
pub open spec fn discards_of(discarded: Seq<JvmEvent>, tid: u32) -> Seq<JvmEvent> {
    discarded.filter(|sample: JvmEvent| sample.tid == tid)
}

/// The samples that a sweep of a stream drops.
pub open spec fn newly_discarded(stream: StreamView, watermark_ns: u64, now_ns: u64) -> Seq<
    JvmEvent,
> {
    stream.swept(watermark_ns, now_ns).discarded.skip(stream.discarded.len() as int)
}

/// The samples that a sweep of a thread drops are of that thread.
proof fn lemma_discards_are_of_thread(
    bpf: Seq<BpfEvent>,
    jvm: Seq<JvmEvent>,
    tid: u32,
    watermark_ns: u64,
    now_ns: u64,
)
    requires
        are_samples_of_thread(jvm, tid),
    ensures
        are_samples_of_thread(
            correlate::sweep_thread(bpf, jvm, watermark_ns, now_ns).discarded,
            tid,
        ),
{
    broadcast use vstd::seq_lib::group_to_multiset_ensures;
    broadcast use vstd::multiset::group_multiset_axioms;

    let swept = correlate::sweep_thread(bpf, jvm, watermark_ns, now_ns);
    correlate::law_each_sample_is_used_at_most_once(bpf, jvm, watermark_ns, now_ns);
    assert forall|i: int| 0 <= i < swept.discarded.len() implies (
    #[trigger] swept.discarded[i]).tid == tid by {
        let sample = swept.discarded[i];
        assert(swept.discarded.contains(sample));
        assert(swept.discarded.to_multiset().count(sample) > 0);
        assert(jvm.to_multiset().count(sample) > 0);
        assert(jvm.contains(sample));
        let k = choose|k: int| 0 <= k < jvm.len() && jvm[k] == sample;
        assert(jvm[k].tid == tid);
    }
}

/// What the sweeps of some threads drop of one thread is what the sweep of that
/// thread drops.
proof fn lemma_thread_discards(
    stream: StreamView,
    tids: Seq<u32>,
    tid: u32,
    watermark_ns: u64,
    now_ns: u64,
)
    requires
        is_sound(stream),
        order::ascending(tids),
    ensures
        discards_of(stream.thread_discards(tids, watermark_ns, now_ns), tid) == if tids.contains(
            tid,
        ) {
            stream.thread(tid, watermark_ns, now_ns).discarded
        } else {
            seq![]
        },
    decreases tids.len(),
{
    let keep = |sample: JvmEvent| sample.tid == tid;
    let discards = stream.thread_discards(tids, watermark_ns, now_ns);
    if tids.len() == 0 {
        lemma_filter_keeps_none(discards, keep);
    } else {
        let fewer = tids.drop_last();
        let last = tids.last();
        let of_last = stream.thread(last, watermark_ns, now_ns).discarded;
        lemma_thread_discards(stream, fewer, tid, watermark_ns, now_ns);
        lemma_samples_are_of_thread(stream, last);
        lemma_discards_are_of_thread(
            stream.intervals(last),
            stream.samples(last),
            last,
            watermark_ns,
            now_ns,
        );
        if tid == last {
            lemma_filter_keeps_all(of_last, keep);
            assert(tids[tids.len() - 1] == tid);
        } else {
            lemma_filter_keeps_none(of_last, keep);
        }
        Seq::filter_distributes_over_add(
            stream.thread_discards(fewer, watermark_ns, now_ns),
            of_last,
            keep,
        );
        if fewer.contains(tid) {
            let k = choose|k: int| 0 <= k < fewer.len() && fewer[k] == tid;
            assert(tids[k] == tid);
            assert(tids[k] < tids[tids.len() - 1]);
        }
        if tids.contains(tid) && tid != last {
            let k = choose|k: int| 0 <= k < tids.len() && tids[k] == tid;
            assert(fewer[k] == tid);
        }
        assert(discards_of(discards, tid) =~= if tids.contains(tid) {
            stream.thread(tid, watermark_ns, now_ns).discarded
        } else {
            seq![]
        });
    }
}

/// Each sample of a thread is given to one interval of the thread, or dropped, or
/// stays queued: those that a sweep gives out and drops, and those that stay, are
/// those that were queued.
#[verifier::spinoff_prover]
#[verifier::rlimit(40)]
pub proof fn law_each_sample_of_a_thread_leaves_at_most_once(
    stream: StreamView,
    tid: u32,
    watermark_ns: u64,
    now_ns: u64,
)
    requires
        is_sound(stream),
    ensures
        correlate::matched_samples(
            results_of(stream.sweep_results(watermark_ns, now_ns), Some(tid)),
        ).to_multiset().add(
            discards_of(newly_discarded(stream, watermark_ns, now_ns), tid).to_multiset(),
        ).add(stream.swept(watermark_ns, now_ns).samples(tid).to_multiset()) == stream.samples(
            tid,
        ).to_multiset(),
{
    let tids = order::ascending_keys(stream.bpf.dom());
    order::lemma_keys_can_be_ordered(stream.bpf.dom());
    lemma_thread_results(stream, tids, Some(tid), watermark_ns, now_ns);
    lemma_thread_discards(stream, tids, tid, watermark_ns, now_ns);
    lemma_unmatched_results(stream, Some(tid));
    lemma_results_of_both(
        stream.unmatched_results(),
        stream.thread_results(tids, watermark_ns, now_ns),
        Some(tid),
    );
    let swept = stream.swept(watermark_ns, now_ns);
    let results = results_of(stream.sweep_results(watermark_ns, now_ns), Some(tid));
    let discards = newly_discarded(stream, watermark_ns, now_ns);
    assert(discards =~= stream.thread_discards(tids, watermark_ns, now_ns));
    assert(tids.contains(tid) <==> tids.to_set().contains(tid));
    let whole = stream.samples(tid).to_multiset();
    if stream.bpf.contains_key(tid) {
        assert(stream.bpf.dom().contains(tid));
        let of_thread = stream.thread(tid, watermark_ns, now_ns);
        assert(results =~= of_thread.results);
        correlate::law_each_sample_is_used_at_most_once(
            stream.intervals(tid),
            stream.samples(tid),
            watermark_ns,
            now_ns,
        );
        correlate::law_samples_wait_for_the_watermark(
            stream.intervals(tid),
            stream.samples(tid),
            watermark_ns,
            now_ns,
        );
        assert(swept.samples(tid) =~= of_thread.jvm);
    } else {
        assert(!stream.bpf.dom().contains(tid));
        assert(results =~= seq![]);
        assert(swept.samples(tid) =~= stream.samples(tid));
        let none = Seq::<JvmEvent>::empty();
        none.to_multiset_ensures();
        assert(none.to_multiset() =~= vstd::multiset::Multiset::<JvmEvent>::empty());
        assert(none.to_multiset().add(none.to_multiset()).add(whole) =~= whole);
    }
}

/// A sweep leaves nothing that it could decide: sweeping again, at a watermark that
/// is no higher and a time that is no later, gives nothing out and changes nothing.
#[verifier::spinoff_prover]
#[verifier::rlimit(40)]
pub proof fn law_a_second_sweep_changes_nothing(
    stream: StreamView,
    watermark_ns: u64,
    now_ns: u64,
    again_watermark_ns: u64,
    again_now_ns: u64,
)
    requires
        stream.bpf.dom().finite(),
        again_watermark_ns <= watermark_ns,
        again_now_ns <= now_ns,
    ensures
        ({
            let swept = stream.swept(watermark_ns, now_ns);
            &&& swept.sweep_results(again_watermark_ns, again_now_ns).len() == 0
            &&& swept.swept(again_watermark_ns, again_now_ns) == swept
        }),
{
    let swept = stream.swept(watermark_ns, now_ns);
    let first = order::ascending_keys(stream.bpf.dom());
    let tids = order::ascending_keys(swept.bpf.dom());
    order::lemma_keys_can_be_ordered(stream.bpf.dom());
    lemma_swept_threads_are_finite(stream, watermark_ns, now_ns);
    order::lemma_keys_can_be_ordered(swept.bpf.dom());
    assert forall|tid: u32| #[trigger] swept.bpf.contains_key(tid) implies swept.thread(
        tid,
        again_watermark_ns,
        again_now_ns,
    ) == (ThreadSweep {
        bpf: swept.bpf[tid],
        jvm: swept.samples(tid),
        results: seq![],
        discarded: seq![],
    }) && swept.bpf[tid].len() > 0 by {
        assert(stream.bpf.dom().contains(tid));
        assert(first.to_set().contains(tid));
        let of_thread = stream.thread(tid, watermark_ns, now_ns);
        correlate::law_samples_wait_for_the_watermark(
            stream.intervals(tid),
            stream.samples(tid),
            watermark_ns,
            now_ns,
        );
        assert(swept.samples(tid) =~= of_thread.jvm);
        correlate::law_a_sweep_is_complete(
            stream.intervals(tid),
            stream.samples(tid),
            watermark_ns,
            now_ns,
            again_watermark_ns,
            again_now_ns,
        );
    }
    assert forall|k: int| 0 <= k < tids.len() implies swept.bpf.contains_key(#[trigger] tids[k]) by {
        assert(tids.to_set().contains(tids[k]));
        assert(swept.bpf.dom().contains(tids[k]));
    }
    lemma_idle_threads(swept, tids, again_watermark_ns, again_now_ns);
    let again = swept.swept(again_watermark_ns, again_now_ns);
    assert forall|tid: u32| tids.contains(tid) <==> swept.bpf.contains_key(tid) by {
        assert(tids.contains(tid) <==> tids.to_set().contains(tid));
        assert(swept.bpf.contains_key(tid) <==> swept.bpf.dom().contains(tid));
    }
    assert forall|tid: u32| #[trigger] swept.jvm.contains_key(tid) && swept.bpf.contains_key(
        tid,
    ) implies swept.jvm[tid].len() > 0 by {
        assert(stream.bpf.dom().contains(tid));
        assert(first.to_set().contains(tid));
    }
    assert(again.bpf =~= swept.bpf);
    assert(again.jvm =~= swept.jvm);
    assert(again.discarded =~= swept.discarded);
}

/// Threads that a sweep can decide nothing about give nothing out and drop nothing.
proof fn lemma_idle_threads(stream: StreamView, tids: Seq<u32>, watermark_ns: u64, now_ns: u64)
    requires
        forall|k: int|
            0 <= k < tids.len() ==> {
                let of_thread = stream.thread(#[trigger] tids[k], watermark_ns, now_ns);
                of_thread.results.len() == 0 && of_thread.discarded.len() == 0
            },
    ensures
        stream.thread_results(tids, watermark_ns, now_ns).len() == 0,
        stream.thread_discards(tids, watermark_ns, now_ns).len() == 0,
    decreases tids.len(),
{
    if tids.len() > 0 {
        let fewer = tids.drop_last();
        assert forall|k: int| 0 <= k < fewer.len() implies {
            let of_thread = stream.thread(#[trigger] fewer[k], watermark_ns, now_ns);
            of_thread.results.len() == 0 && of_thread.discarded.len() == 0
        } by {
            assert(fewer[k] == tids[k]);
        }
        lemma_idle_threads(stream, fewer, watermark_ns, now_ns);
        let of_last = stream.thread(tids[tids.len() - 1], watermark_ns, now_ns);
        assert(of_last.results.len() == 0 && of_last.discarded.len() == 0);
    }
}

/// What is left of threads is given out whether or not threads of which nothing is
/// left are gone through.
proof fn lemma_unsampled_of_some(stream: StreamView, tids: Seq<u32>, keep: spec_fn(u32) -> bool)
    requires
        forall|tid: u32| !keep(tid) ==> (#[trigger] stream.intervals(tid)).len() == 0,
    ensures
        stream.unsampled(tids.filter(keep)) == stream.unsampled(tids),
    decreases tids.len(),
{
    reveal(Seq::filter);
    if tids.len() > 0 {
        let fewer = tids.drop_last();
        let last = tids.last();
        lemma_unsampled_of_some(stream, fewer, keep);
        if keep(last) {
            assert(tids.filter(keep).drop_last() =~= fewer.filter(keep));
        } else {
            assert(stream.intervals(last).len() == 0);
            assert(stream.unsampled(tids) =~= stream.unsampled(fewer));
        }
    }
}

/// The threads that are left, in order, are those of all threads, in order, that
/// are left.
proof fn lemma_threads_left(tids: Seq<u32>, keep: spec_fn(u32) -> bool)
    requires
        order::ascending(tids),
    ensures
        order::ascending(tids.filter(keep)),
        forall|tid: u32| tids.filter(keep).contains(tid) <==> tids.contains(tid) && keep(tid),
    decreases tids.len(),
{
    reveal(Seq::filter);
    let kept = tids.filter(keep);
    if tids.len() > 0 {
        let fewer = tids.drop_last();
        let last = tids.last();
        let before = fewer.filter(keep);
        lemma_threads_left(fewer, keep);
        assert forall|tid: u32| tids.contains(tid) <==> fewer.contains(tid) || tid == last by {
            if tids.contains(tid) && tid != last {
                let k = choose|k: int| 0 <= k < tids.len() && tids[k] == tid;
                assert(fewer[k] == tid);
            }
            if fewer.contains(tid) {
                let k = choose|k: int| 0 <= k < fewer.len() && fewer[k] == tid;
                assert(tids[k] == tid);
            }
            assert(tids[tids.len() - 1] == last);
        }
        if keep(last) {
            assert(kept =~= before.push(last));
            assert forall|tid: u32| kept.contains(tid) <==> before.contains(tid) || tid == last by {
                if before.contains(tid) {
                    let k = choose|k: int| 0 <= k < before.len() && before[k] == tid;
                    assert(kept[k] == tid);
                }
                if kept.contains(tid) && tid != last {
                    let k = choose|k: int| 0 <= k < kept.len() && kept[k] == tid;
                    assert(before[k] == tid);
                }
                assert(kept[kept.len() - 1] == last);
            }
            assert forall|i: int, j: int| 0 <= i < j < kept.len() implies kept[i] < kept[j] by {
                if j == kept.len() - 1 {
                    assert(before[i] == kept[i]);
                    assert(before.contains(kept[i]));
                    assert(fewer.contains(kept[i]));
                    let k = choose|k: int| 0 <= k < fewer.len() && fewer[k] == kept[i];
                    assert(tids[k] < tids[tids.len() - 1]);
                } else {
                    assert(before[i] < before[j]);
                }
            }
        }
    }
}

/// For some threads, what leaves once every interval has waited long enough is what
/// leaves at once and what is left.
proof fn lemma_waiting_pairs_alike(
    stream: StreamView,
    tids: Seq<u32>,
    now_ns: u64,
    expired_ns: u64,
)
    requires
        stream.bpf.dom().finite(),
        forall|k: int|
            0 <= k < tids.len() ==> stream.bpf.contains_key(#[trigger] tids[k])
                && correlate::all_expired(stream.bpf[tids[k]], expired_ns),
    ensures
        stream.thread_results(tids, u64::MAX, expired_ns).to_multiset() == stream.thread_results(
            tids,
            u64::MAX,
            now_ns,
        ).to_multiset().add(stream.swept(u64::MAX, now_ns).unsampled(tids).to_multiset()),
    decreases tids.len(),
{
    let swept = stream.swept(u64::MAX, now_ns);
    let waited = stream.thread_results(tids, u64::MAX, expired_ns);
    let at_once = stream.thread_results(tids, u64::MAX, now_ns);
    let left = swept.unsampled(tids);
    if tids.len() == 0 {
        let none = Seq::<Paired>::empty();
        none.to_multiset_ensures();
        assert(none.to_multiset() =~= vstd::multiset::Multiset::<Paired>::empty());
        assert(none.to_multiset().add(none.to_multiset()) =~= none.to_multiset());
    } else {
        let fewer = tids.drop_last();
        let last = tids.last();
        assert forall|k: int| 0 <= k < fewer.len() implies stream.bpf.contains_key(
            #[trigger] fewer[k],
        ) && correlate::all_expired(stream.bpf[fewer[k]], expired_ns) by {
            assert(fewer[k] == tids[k]);
        }
        lemma_waiting_pairs_alike(stream, fewer, now_ns, expired_ns);
        assert(stream.bpf.contains_key(tids[tids.len() - 1]));
        correlate::law_giving_up_at_once_pairs_as_waiting_would(
            stream.intervals(last),
            stream.samples(last),
            now_ns,
            expired_ns,
        );
        let first = order::ascending_keys(stream.bpf.dom());
        order::lemma_keys_can_be_ordered(stream.bpf.dom());
        assert(first.to_set().contains(last));
        let of_last = stream.thread(last, u64::MAX, now_ns);
        assert(swept.intervals(last) =~= of_last.bpf);
        let rest = correlate::without_samples(of_last.bpf);
        let waited0 = stream.thread_results(fewer, u64::MAX, expired_ns);
        let at_once0 = stream.thread_results(fewer, u64::MAX, now_ns);
        let left0 = swept.unsampled(fewer);
        vstd::seq_lib::lemma_multiset_commutative(waited0, of_last.results + rest);
        vstd::seq_lib::lemma_multiset_commutative(of_last.results, rest);
        vstd::seq_lib::lemma_multiset_commutative(at_once0, of_last.results);
        vstd::seq_lib::lemma_multiset_commutative(left0, rest);
        assert(left =~= left0 + rest);
        assert(waited.to_multiset() =~= at_once.to_multiset().add(left.to_multiset()));
    }
}

/// When no more is to come, nothing need be waited for: emptying the stream gives
/// out the same intervals with the same samples as a sweep would once every interval
/// had waited long enough.
#[verifier::spinoff_prover]
#[verifier::rlimit(40)]
pub proof fn law_emptying_a_stream_pairs_as_waiting_would(
    stream: StreamView,
    now_ns: u64,
    expired_ns: u64,
)
    requires
        stream.bpf.dom().finite(),
        forall|known: u32| #[trigger]
            stream.bpf.contains_key(known) ==> correlate::all_expired(
                stream.bpf[known],
                expired_ns,
            ),
    ensures
        stream.final_results(now_ns).to_multiset() == stream.sweep_results(
            u64::MAX,
            expired_ns,
        ).to_multiset(),
{
    let first = order::ascending_keys(stream.bpf.dom());
    order::lemma_keys_can_be_ordered(stream.bpf.dom());
    let swept = stream.swept(u64::MAX, now_ns);
    let keep = |tid: u32| swept.bpf.contains_key(tid);
    let kept = first.filter(keep);
    lemma_threads_left(first, keep);
    assert forall|tid: u32| kept.to_set().contains(tid) <==> swept.bpf.dom().contains(tid) by {
        assert(kept.contains(tid) <==> first.contains(tid) && keep(tid));
        assert(first.contains(tid) <==> first.to_set().contains(tid));
    }
    assert(kept.to_set() =~= swept.bpf.dom());
    order::lemma_ascending_keys(kept);
    lemma_unsampled_of_some(swept, first, keep);
    assert forall|k: int| 0 <= k < first.len() implies stream.bpf.contains_key(
        #[trigger] first[k],
    ) && correlate::all_expired(stream.bpf[first[k]], expired_ns) by {
        assert(first.to_set().contains(first[k]));
        assert(stream.bpf.dom().contains(first[k]));
    }
    lemma_waiting_pairs_alike(stream, first, now_ns, expired_ns);
    let apart = stream.unmatched_results();
    let at_once = stream.thread_results(first, u64::MAX, now_ns);
    let waited = stream.thread_results(first, u64::MAX, expired_ns);
    let left = swept.unsampled(first);
    vstd::seq_lib::lemma_multiset_commutative(apart, waited);
    vstd::seq_lib::lemma_multiset_commutative(apart, at_once);
    vstd::seq_lib::lemma_multiset_commutative(apart + at_once, left);
    assert(stream.final_results(now_ns) =~= apart + at_once + left);
    assert(stream.final_results(now_ns).to_multiset() =~= stream.sweep_results(
        u64::MAX,
        expired_ns,
    ).to_multiset());
}

/// In a sound stream the order is the same as well, for each thread and for threads
/// without a known ID: emptying the stream gives out of each what a sweep would once
/// every interval had waited long enough.
#[verifier::spinoff_prover]
#[verifier::rlimit(40)]
pub proof fn law_emptying_a_stream_keeps_the_order_of_waiting(
    stream: StreamView,
    tid: Option<u32>,
    now_ns: u64,
    expired_ns: u64,
)
    requires
        is_sound(stream),
        forall|known: u32| #[trigger]
            stream.bpf.contains_key(known) ==> correlate::all_expired(
                stream.bpf[known],
                expired_ns,
            ),
    ensures
        results_of(stream.final_results(now_ns), tid) == results_of(
            stream.sweep_results(u64::MAX, expired_ns),
            tid,
        ),
{
    let first = order::ascending_keys(stream.bpf.dom());
    order::lemma_keys_can_be_ordered(stream.bpf.dom());
    let swept = stream.swept(u64::MAX, now_ns);
    law_a_sweep_keeps_a_stream_sound(stream, u64::MAX, now_ns);
    let tids = order::ascending_keys(swept.bpf.dom());
    order::lemma_keys_can_be_ordered(swept.bpf.dom());
    let apart = stream.unmatched_results();
    let at_once = stream.thread_results(first, u64::MAX, now_ns);
    let waited = stream.thread_results(first, u64::MAX, expired_ns);
    let rest = swept.unsampled(tids);
    lemma_thread_results(stream, first, tid, u64::MAX, now_ns);
    lemma_thread_results(stream, first, tid, u64::MAX, expired_ns);
    lemma_unsampled_results(swept, tids, tid);
    lemma_results_of_both(apart + at_once, rest, tid);
    lemma_results_of_both(apart, at_once, tid);
    lemma_results_of_both(apart, waited, tid);
    if let Some(known) = tid {
        assert(first.contains(known) <==> first.to_set().contains(known));
        assert(tids.contains(known) <==> tids.to_set().contains(known));
        assert(stream.bpf.contains_key(known) <==> stream.bpf.dom().contains(known));
        assert(swept.bpf.contains_key(known) <==> swept.bpf.dom().contains(known));
        if stream.bpf.contains_key(known) {
            correlate::law_giving_up_at_once_pairs_as_waiting_would(
                stream.intervals(known),
                stream.samples(known),
                now_ns,
                expired_ns,
            );
            assert(swept.intervals(known) =~= stream.thread(known, u64::MAX, now_ns).bpf);
            assert(results_of(rest, tid) =~= correlate::without_samples(swept.intervals(known)));
            assert(results_of(at_once, tid) + results_of(rest, tid) =~= results_of(waited, tid));
        } else {
            assert(results_of(rest, tid) =~= seq![]);
        }
    }
    assert(results_of(stream.final_results(now_ns), tid) =~= results_of(
        stream.sweep_results(u64::MAX, expired_ns),
        tid,
    ));
}

/// What is left is given out for its own thread, without samples.
proof fn lemma_unsampled_results(stream: StreamView, tids: Seq<u32>, tid: Option<u32>)
    requires
        is_sound(stream),
        order::ascending(tids),
    ensures
        results_of(stream.unsampled(tids), tid) == match tid {
            Some(known) if tids.contains(known) => correlate::without_samples(
                stream.intervals(known),
            ),
            _ => seq![],
        },
    decreases tids.len(),
{
    let results = stream.unsampled(tids);
    if tids.len() == 0 {
        lemma_results_of_one_thread(results, None, tid);
    } else {
        let fewer = tids.drop_last();
        let last = tids.last();
        let of_last = correlate::without_samples(stream.intervals(last));
        lemma_unsampled_results(stream, fewer, tid);
        lemma_samples_are_of_thread(stream, last);
        assert forall|i: int| 0 <= i < of_last.len() implies (#[trigger] of_last[i]).0.tid == Some(
            last,
        ) by {
            assert(stream.intervals(last)[i].tid == Some(last));
        }
        lemma_results_of_one_thread(of_last, Some(last), tid);
        lemma_results_of_both(stream.unsampled(fewer), of_last, tid);
        if let Some(known) = tid {
            if fewer.contains(known) {
                let k = choose|k: int| 0 <= k < fewer.len() && fewer[k] == known;
                assert(tids[k] == known);
                assert(tids[k] < tids[tids.len() - 1]);
            }
            if tids.contains(known) && known != last {
                let k = choose|k: int| 0 <= k < tids.len() && tids[k] == known;
                assert(fewer[k] == known);
            }
            if known == last {
                assert(tids[tids.len() - 1] == known);
            }
        }
        assert(results_of(results, tid) =~= match tid {
            Some(known) if tids.contains(known) => correlate::without_samples(
                stream.intervals(known),
            ),
            _ => seq![],
        });
    }
}

/// What a sweep of a stream gives out for a thread is what the sweep of that thread
/// gives out.
proof fn lemma_results_of_thread(stream: StreamView, tid: u32, watermark_ns: u64, now_ns: u64)
    requires
        is_sound(stream),
    ensures
        results_of(stream.sweep_results(watermark_ns, now_ns), Some(tid)) == stream.thread(
            tid,
            watermark_ns,
            now_ns,
        ).results,
{
    let tids = order::ascending_keys(stream.bpf.dom());
    order::lemma_keys_can_be_ordered(stream.bpf.dom());
    lemma_thread_results(stream, tids, Some(tid), watermark_ns, now_ns);
    lemma_unmatched_results(stream, Some(tid));
    lemma_results_of_both(
        stream.unmatched_results(),
        stream.thread_results(tids, watermark_ns, now_ns),
        Some(tid),
    );
    assert(tids.contains(tid) <==> tids.to_set().contains(tid));
    assert(results_of(stream.sweep_results(watermark_ns, now_ns), Some(tid)) =~= stream.thread(
        tid,
        watermark_ns,
        now_ns,
    ).results);
}

/// A sweep gives an interval of a thread the sample that its signal caused: the first
/// of the thread's samples that was taken no earlier than the end of the interval, if
/// every CPU has reported past it, it was taken less than a second after the end, and
/// the thread's next interval ended after it.
pub proof fn law_a_sweep_pairs_an_interval_with_its_sample(
    stream: StreamView,
    tid: u32,
    watermark_ns: u64,
    now_ns: u64,
    i: int,
    j: int,
)
    requires
        is_sound(stream),
        stream.bpf.contains_key(tid),
        stream.jvm.contains_key(tid),
        0 <= i < stream.bpf[tid].len(),
        0 <= j < stream.jvm[tid].len(),
        stream.bpf[tid][i].signal_result == 0,
        stream.jvm[tid][j].monotonic_timestamp_ns <= watermark_ns,
        stream.bpf[tid][i].end_monotonic_ns <= stream.jvm[tid][j].monotonic_timestamp_ns,
        stream.jvm[tid][j].monotonic_timestamp_ns < stream.bpf[tid][i].end_monotonic_ns
            + 1_000_000_000,
        i + 1 < stream.bpf[tid].len() ==> stream.jvm[tid][j].monotonic_timestamp_ns
            < stream.bpf[tid][i + 1].end_monotonic_ns,
        forall|k: int|
            0 <= k < j ==> (#[trigger] stream.jvm[tid][k]).monotonic_timestamp_ns
                < stream.bpf[tid][i].end_monotonic_ns,
    ensures
        ({
            let results = results_of(stream.sweep_results(watermark_ns, now_ns), Some(tid));
            &&& i < results.len()
            &&& results[i] == (stream.bpf[tid][i], Some(stream.jvm[tid][j]))
        }),
        stream.sweep_results(watermark_ns, now_ns).contains(
            (stream.bpf[tid][i], Some(stream.jvm[tid][j])),
        ),
{
    lemma_results_of_thread(stream, tid, watermark_ns, now_ns);
    correlate::law_an_interval_is_given_the_sample_that_its_signal_caused(
        stream.bpf[tid],
        stream.jvm[tid],
        watermark_ns,
        now_ns,
        i,
        j,
    );
    lemma_filtered_is_contained(
        stream.sweep_results(watermark_ns, now_ns),
        |result: Paired| result.0.tid == Some(tid),
        i,
    );
}

/// What a filter keeps was there.
proof fn lemma_filtered_is_contained<T>(s: Seq<T>, keep: spec_fn(T) -> bool, i: int)
    requires
        0 <= i < s.filter(keep).len(),
    ensures
        s.contains(s.filter(keep)[i]),
        keep(s.filter(keep)[i]),
{
    broadcast use vstd::seq_lib::group_filter_ensures;

    s.lemma_filter_contains_rev(keep, s.filter(keep)[i]);
}

/// When no more is to come, an interval of a thread is given the sample that its
/// signal caused, whatever the watermark and the time were.
pub proof fn law_emptying_a_stream_pairs_an_interval_with_its_sample(
    stream: StreamView,
    tid: u32,
    now_ns: u64,
    i: int,
    j: int,
)
    requires
        is_sound(stream),
        stream.bpf.contains_key(tid),
        stream.jvm.contains_key(tid),
        0 <= i < stream.bpf[tid].len(),
        0 <= j < stream.jvm[tid].len(),
        stream.bpf[tid][i].signal_result == 0,
        stream.bpf[tid][i].end_monotonic_ns <= stream.jvm[tid][j].monotonic_timestamp_ns,
        stream.jvm[tid][j].monotonic_timestamp_ns < stream.bpf[tid][i].end_monotonic_ns
            + 1_000_000_000,
        i + 1 < stream.bpf[tid].len() ==> stream.jvm[tid][j].monotonic_timestamp_ns
            < stream.bpf[tid][i + 1].end_monotonic_ns,
        forall|k: int|
            0 <= k < j ==> (#[trigger] stream.jvm[tid][k]).monotonic_timestamp_ns
                < stream.bpf[tid][i].end_monotonic_ns,
    ensures
        ({
            let results = results_of(stream.final_results(now_ns), Some(tid));
            &&& i < results.len()
            &&& results[i] == (stream.bpf[tid][i], Some(stream.jvm[tid][j]))
        }),
{
    law_a_sweep_pairs_an_interval_with_its_sample(stream, tid, u64::MAX, now_ns, i, j);
    let swept = stream.swept(u64::MAX, now_ns);
    lemma_results_of_both(
        stream.sweep_results(u64::MAX, now_ns),
        swept.unsampled(order::ascending_keys(swept.bpf.dom())),
        Some(tid),
    );
}

/// The sample that a sweep gives to an interval is of the same thread, every CPU has
/// reported past it, it was taken no earlier than the end of the interval and less
/// than a second after it, and the signal was delivered.
pub proof fn law_a_sweep_pairs_only_within_a_second(
    stream: StreamView,
    watermark_ns: u64,
    now_ns: u64,
    i: int,
)
    requires
        is_sound(stream),
        0 <= i < stream.sweep_results(watermark_ns, now_ns).len(),
        stream.sweep_results(watermark_ns, now_ns)[i].1 is Some,
    ensures
        ({
            let (interval, given) = stream.sweep_results(watermark_ns, now_ns)[i];
            let sample = given->0;
            &&& interval.tid == Some(sample.tid)
            &&& stream.samples(sample.tid).contains(sample)
            &&& sample.monotonic_timestamp_ns <= watermark_ns
            &&& interval.end_monotonic_ns <= sample.monotonic_timestamp_ns
            &&& sample.monotonic_timestamp_ns < interval.end_monotonic_ns + 1_000_000_000
            &&& interval.signal_result == 0
        }),
{
    let results = stream.sweep_results(watermark_ns, now_ns);
    let result = results[i];
    let tid = result.1->0.tid;
    law_a_sample_is_never_reassigned_to_another_thread(stream, watermark_ns, now_ns, i);
    let keep = |result: Paired| result.0.tid == Some(tid);
    lemma_results_of_thread(stream, tid, watermark_ns, now_ns);
    let of_thread = stream.thread(tid, watermark_ns, now_ns).results;
    assert(results.contains(result) && keep(result));
    results.lemma_filter_contains(keep, i);
    let k = choose|k: int| 0 <= k < of_thread.len() && of_thread[k] == result;
    correlate::law_a_given_sample_follows_the_interval_within_a_second(
        stream.intervals(tid),
        stream.samples(tid),
        watermark_ns,
        now_ns,
        k,
    );
}

/// A sweep lets an interval of a thread stay for 30 seconds after its end if the
/// signal was delivered and no sample of the thread was taken since.
pub proof fn law_a_sweep_waits_half_a_minute_for_a_sample(
    stream: StreamView,
    tid: u32,
    watermark_ns: u64,
    now_ns: u64,
    i: int,
)
    requires
        is_sound(stream),
        0 <= i < stream.intervals(tid).len(),
        stream.intervals(tid)[i].signal_result == 0,
        now_ns < stream.intervals(tid)[i].end_monotonic_ns + 30_000_000_000,
        forall|k: int|
            0 <= k < stream.samples(tid).len() ==> (
            #[trigger] stream.samples(tid)[k]).monotonic_timestamp_ns < stream.intervals(
                tid,
            )[i].end_monotonic_ns,
    ensures
        ({
            let left = stream.swept(watermark_ns, now_ns).intervals(tid);
            let gone = stream.intervals(tid).len() - left.len();
            &&& 0 <= gone <= i
            &&& left == stream.intervals(tid).skip(gone)
        }),
{
    lemma_results_of_thread(stream, tid, watermark_ns, now_ns);
    law_the_intervals_of_a_thread_leave_once_and_in_order(stream, tid, watermark_ns, now_ns);
    correlate::law_an_interval_waits_half_a_minute_for_its_sample(
        stream.intervals(tid),
        stream.samples(tid),
        watermark_ns,
        now_ns,
        i,
    );
    let left = stream.swept(watermark_ns, now_ns).intervals(tid);
    assert(left =~= stream.intervals(tid).skip(stream.intervals(tid).len() - left.len()));
}

/// A sweep gives out an interval of a thread, with a sample or without, once every
/// CPU has reported past every sample of the thread and it and those before it ended
/// 30 seconds ago or could not be signalled.
pub proof fn law_a_sweep_gives_up_after_half_a_minute(
    stream: StreamView,
    tid: u32,
    watermark_ns: u64,
    now_ns: u64,
    i: int,
)
    requires
        is_sound(stream),
        0 <= i < stream.intervals(tid).len(),
        forall|k: int|
            0 <= k < stream.samples(tid).len() ==> (
            #[trigger] stream.samples(tid)[k]).monotonic_timestamp_ns <= watermark_ns,
        forall|k: int|
            0 <= k <= i ==> (#[trigger] stream.intervals(tid)[k]).signal_result != 0 || now_ns
                >= stream.intervals(tid)[k].end_monotonic_ns + 30_000_000_000,
    ensures
        ({
            let results = results_of(stream.sweep_results(watermark_ns, now_ns), Some(tid));
            &&& i < results.len()
            &&& results[i].0 == stream.intervals(tid)[i]
        }),
{
    lemma_results_of_thread(stream, tid, watermark_ns, now_ns);
    correlate::law_an_interval_leaves_after_half_a_minute(
        stream.intervals(tid),
        stream.samples(tid),
        watermark_ns,
        now_ns,
        i,
    );
    correlate::law_a_given_sample_follows_the_interval_within_a_second(
        stream.intervals(tid),
        stream.samples(tid),
        watermark_ns,
        now_ns,
        i,
    );
}

/// A sweep leaves an interval of a thread where it is while a sample of the thread
/// waits for the watermark and so does every one that was taken no earlier than the
/// end of the interval.
pub proof fn law_a_sweep_waits_for_every_cpu(
    stream: StreamView,
    tid: u32,
    watermark_ns: u64,
    now_ns: u64,
    i: int,
    j: int,
)
    requires
        is_sound(stream),
        0 <= i < stream.intervals(tid).len(),
        0 <= j < stream.samples(tid).len(),
        stream.samples(tid)[j].monotonic_timestamp_ns > watermark_ns,
        forall|k: int|
            0 <= k < stream.samples(tid).len() && (
            #[trigger] stream.samples(tid)[k]).monotonic_timestamp_ns >= stream.intervals(
                tid,
            )[i].end_monotonic_ns ==> stream.samples(tid)[k].monotonic_timestamp_ns > watermark_ns,
    ensures
        results_of(stream.sweep_results(watermark_ns, now_ns), Some(tid)).len() <= i,
{
    lemma_results_of_thread(stream, tid, watermark_ns, now_ns);
    correlate::law_an_interval_waits_for_every_cpu(
        stream.intervals(tid),
        stream.samples(tid),
        watermark_ns,
        now_ns,
        i,
        j,
    );
}

/// A sweep drops a sample only if every CPU has reported past it and an interval of
/// its thread ended after it.
pub proof fn law_a_sweep_drops_only_samples_before_the_end_of_an_interval(
    stream: StreamView,
    tid: u32,
    watermark_ns: u64,
    now_ns: u64,
    j: int,
)
    requires
        is_sound(stream),
        0 <= j < discards_of(newly_discarded(stream, watermark_ns, now_ns), tid).len(),
    ensures
        ({
            let sample = discards_of(newly_discarded(stream, watermark_ns, now_ns), tid)[j];
            &&& stream.samples(tid).contains(sample)
            &&& sample.monotonic_timestamp_ns <= watermark_ns
            &&& exists|i: int|
                0 <= i < stream.intervals(tid).len() && sample.monotonic_timestamp_ns < (
                #[trigger] stream.intervals(tid)[i]).end_monotonic_ns
        }),
{
    let tids = order::ascending_keys(stream.bpf.dom());
    order::lemma_keys_can_be_ordered(stream.bpf.dom());
    lemma_thread_discards(stream, tids, tid, watermark_ns, now_ns);
    assert(newly_discarded(stream, watermark_ns, now_ns) =~= stream.thread_discards(
        tids,
        watermark_ns,
        now_ns,
    ));
    correlate::law_only_samples_before_the_end_of_an_interval_are_dropped(
        stream.intervals(tid),
        stream.samples(tid),
        watermark_ns,
        now_ns,
        j,
    );
}

/// A sweep gives out first every interval whose thread has no known ID, in the order
/// in which they were added and without samples.
pub proof fn law_every_untranslated_interval_leaves_first(
    stream: StreamView,
    watermark_ns: u64,
    now_ns: u64,
    i: int,
)
    requires
        0 <= i < stream.unmatched.len(),
    ensures
        i < stream.sweep_results(watermark_ns, now_ns).len(),
        stream.sweep_results(watermark_ns, now_ns)[i] == (stream.unmatched[i], None::<JvmEvent>),
        stream.swept(watermark_ns, now_ns).unmatched.len() == 0,
{
}

/// The results of some threads stand in the order of the threads.
proof fn lemma_results_in_order(
    stream: StreamView,
    tids: Seq<u32>,
    watermark_ns: u64,
    now_ns: u64,
)
    requires
        is_sound(stream),
        order::ascending(tids),
    ensures
        ({
            let results = stream.thread_results(tids, watermark_ns, now_ns);
            &&& forall|i: int|
                0 <= i < results.len() ==> (#[trigger] results[i]).0.tid is Some && tids.contains(
                    results[i].0.tid->0,
                )
            &&& forall|i: int, j: int|
                0 <= i < j < results.len() ==> (#[trigger] results[i]).0.tid->0 <= (
                #[trigger] results[j]).0.tid->0
        }),
    decreases tids.len(),
{
    let results = stream.thread_results(tids, watermark_ns, now_ns);
    if tids.len() > 0 {
        let fewer = tids.drop_last();
        let last = tids.last();
        let before = stream.thread_results(fewer, watermark_ns, now_ns);
        let of_last = stream.thread(last, watermark_ns, now_ns).results;
        lemma_results_in_order(stream, fewer, watermark_ns, now_ns);
        lemma_samples_are_of_thread(stream, last);
        lemma_thread_stays_sound(
            stream.intervals(last),
            stream.samples(last),
            last,
            watermark_ns,
            now_ns,
        );
        assert forall|i: int| 0 <= i < results.len() implies (#[trigger] results[i]).0.tid is Some
            && tids.contains(results[i].0.tid->0) && results[i].0.tid->0 <= last && (i
            >= before.len() ==> results[i].0.tid->0 == last) by {
            if i < before.len() {
                assert(results[i] == before[i]);
                let k = choose|k: int| 0 <= k < fewer.len() && fewer[k] == before[i].0.tid->0;
                assert(tids[k] == before[i].0.tid->0);
                assert(tids[k] < tids[tids.len() - 1]);
            } else {
                assert(results[i] == of_last[i - before.len()]);
                assert(tids[tids.len() - 1] == last);
            }
        }
        assert forall|i: int, j: int| 0 <= i < j < results.len() implies (
        #[trigger] results[i]).0.tid->0 <= (#[trigger] results[j]).0.tid->0 by {
            if j < before.len() {
                assert(results[i] == before[i] && results[j] == before[j]);
            }
        }
    }
}

/// A sweep gives out the intervals of threads in the order of thread IDs.
pub proof fn law_results_come_in_the_order_of_threads(
    stream: StreamView,
    watermark_ns: u64,
    now_ns: u64,
    i: int,
    j: int,
)
    requires
        is_sound(stream),
        0 <= i < j < stream.sweep_results(watermark_ns, now_ns).len(),
    ensures
        ({
            let results = stream.sweep_results(watermark_ns, now_ns);
            match (results[i].0.tid, results[j].0.tid) {
                (Some(first), Some(second)) => first <= second,
                (Some(_), None) => false,
                _ => true,
            }
        }),
{
    let tids = order::ascending_keys(stream.bpf.dom());
    order::lemma_keys_can_be_ordered(stream.bpf.dom());
    lemma_results_in_order(stream, tids, watermark_ns, now_ns);
    let apart = stream.unmatched_results();
    let results = stream.sweep_results(watermark_ns, now_ns);
    let of_threads = stream.thread_results(tids, watermark_ns, now_ns);
    if i >= apart.len() {
        assert(results[i] == of_threads[i - apart.len()]);
    } else {
        assert(stream.unmatched[i].tid is None);
    }
    if j >= apart.len() {
        assert(results[j] == of_threads[j - apart.len()]);
    }
}

/// The samples of a thread leave from the front, and only those that every CPU has
/// reported past; none leaves where the thread has no interval.
pub proof fn law_a_sweep_keeps_the_samples_past_the_watermark(
    stream: StreamView,
    tid: u32,
    watermark_ns: u64,
    now_ns: u64,
)
    requires
        stream.bpf.dom().finite(),
    ensures
        ({
            let left = stream.swept(watermark_ns, now_ns).samples(tid);
            let gone = stream.samples(tid).len() - left.len();
            &&& 0 <= gone
            &&& left == stream.samples(tid).skip(gone)
            &&& forall|k: int|
                0 <= k < gone ==> (#[trigger] stream.samples(tid)[k]).monotonic_timestamp_ns
                    <= watermark_ns
            &&& stream.intervals(tid).len() == 0 ==> gone == 0
        }),
{
    let tids = order::ascending_keys(stream.bpf.dom());
    order::lemma_keys_can_be_ordered(stream.bpf.dom());
    assert(tids.contains(tid) <==> tids.to_set().contains(tid));
    let left = stream.swept(watermark_ns, now_ns).samples(tid);
    let of_thread = stream.thread(tid, watermark_ns, now_ns);
    correlate::law_samples_wait_for_the_watermark(
        stream.intervals(tid),
        stream.samples(tid),
        watermark_ns,
        now_ns,
    );
    if stream.bpf.contains_key(tid) {
        assert(stream.bpf.dom().contains(tid));
        assert(left =~= of_thread.jvm);
    } else {
        assert(!stream.bpf.dom().contains(tid));
        assert(left =~= stream.samples(tid));
        assert(left =~= stream.samples(tid).skip(0));
    }
}

/// When no more is to come, every interval of a thread is given out in order, and the
/// sample that one is given was taken no earlier than its end and less than a second
/// after it, and its signal was delivered.
#[verifier::spinoff_prover]
#[verifier::rlimit(40)]
pub proof fn law_emptying_a_stream_pairs_only_within_a_second(
    stream: StreamView,
    tid: u32,
    now_ns: u64,
    i: int,
)
    requires
        is_sound(stream),
        0 <= i < stream.intervals(tid).len(),
    ensures
        results_of(stream.final_results(now_ns), Some(tid)).len() == stream.intervals(tid).len(),
        ({
            let (interval, given) = results_of(stream.final_results(now_ns), Some(tid))[i];
            &&& interval == stream.intervals(tid)[i]
            &&& given matches Some(sample) ==> {
                &&& stream.samples(tid).contains(sample)
                &&& interval.end_monotonic_ns <= sample.monotonic_timestamp_ns
                &&& sample.monotonic_timestamp_ns < interval.end_monotonic_ns + 1_000_000_000
                &&& interval.signal_result == 0
            }
        }),
{
    let swept = stream.swept(u64::MAX, now_ns);
    let tids = order::ascending_keys(swept.bpf.dom());
    let first = stream.sweep_results(u64::MAX, now_ns);
    let rest = swept.unsampled(tids);
    law_a_sweep_keeps_a_stream_sound(stream, u64::MAX, now_ns);
    order::lemma_keys_can_be_ordered(swept.bpf.dom());
    law_every_interval_is_given_out_in_the_end(stream, tid, now_ns);
    lemma_results_of_both(first, rest, Some(tid));
    lemma_results_of_thread(stream, tid, u64::MAX, now_ns);
    lemma_unsampled_results(swept, tids, Some(tid));
    let of_thread = stream.thread(tid, u64::MAX, now_ns).results;
    let results = results_of(stream.final_results(now_ns), Some(tid));
    assert(correlate::intervals_of(results)[i] == results[i].0);
    if i < of_thread.len() {
        assert(results[i] == of_thread[i]);
        correlate::law_a_given_sample_follows_the_interval_within_a_second(
            stream.intervals(tid),
            stream.samples(tid),
            u64::MAX,
            now_ns,
            i,
        );
    } else {
        assert(results[i] == results_of(rest, Some(tid))[i - of_thread.len()]);
    }
}

/// Samples that were dropped before stay noted, ahead of those that a sweep drops.
pub proof fn law_samples_dropped_before_stay_noted(
    stream: StreamView,
    watermark_ns: u64,
    now_ns: u64,
)
    ensures
        stream.swept(watermark_ns, now_ns).discarded == stream.discarded + newly_discarded(
            stream,
            watermark_ns,
            now_ns,
        ),
{
    let swept = stream.swept(watermark_ns, now_ns).discarded;
    assert(swept =~= stream.discarded + swept.skip(stream.discarded.len() as int));
}

} // verus!
