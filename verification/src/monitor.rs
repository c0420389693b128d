//! The monitor: what the readers report, how far they have come, and what is
//! given out.
//!
//! A round goes like this. What the readers have reported is taken in by
//! [`Jbm::receive_perf_events`]. Each event that comes out of it is added to the
//! stream with [`Jbm::add_bpf_event`], once its stacks and its thread have been
//! looked up. [`Jbm::process`] then takes in samples and gives out results.

use std::collections::{BTreeMap, HashMap};

use vstd::prelude::*;

use crate::clock;
use crate::common;
use crate::common::{BlockEvent, CollectionStats};
use crate::correlate;
use crate::counter;
use crate::events::{BpfEvent, JvmEvent};
use crate::ingest;
use crate::ingest::Observed;
use crate::order;
use crate::provider::JvmStackTraceProvider;
use crate::reader::PerfReaderMessage;
use crate::stream::{EventStream, StreamView};
use crate::symbols;
use crate::text;
use crate::threads;

verus! {

/// The state of a monitor.
pub struct Jbm<P: JvmStackTraceProvider> {
    /// How far the reader of each CPU is known to have come.
    pub perf_watermarks: HashMap<u32, u64>,
    /// Why a reader failed, if one has since the last round.
    pub perf_reader_failure: Option<String>,
    /// How many records were lost.
    pub lost_perf_events: u64,
    /// How many intervals were given out.
    pub emitted_intervals: u64,
    /// How many of them with a sample.
    pub matched_intervals: u64,
    /// The queues of intervals and samples.
    pub stream: EventStream,
    /// Where samples come from.
    pub jvm_stack_provider: P,
}

/// What the readers have reported.
#[verifier::ext_equal]
pub struct Reported {
    pub watermarks: Map<u32, u64>,
    pub failure: Option<Seq<char>>,
    pub lost: u64,
    pub events: Seq<BlockEvent>,
}

/// A watermark moves up to what a reader has observed, never down.
pub open spec fn raised(watermarks: Map<u32, u64>, cpu: u32, observed_through_ns: u64) -> Map<
    u32,
    u64,
> {
    if observed_through_ns == 0 || (watermarks.contains_key(cpu) && observed_through_ns
        <= watermarks[cpu]) {
        watermarks
    } else {
        watermarks.insert(cpu, observed_through_ns)
    }
}

/// Why a round fails if a reader has.
pub open spec fn failure_text(cpu: u32, error: Seq<char>) -> Seq<char> {
    "perf reader for CPU "@ + text::decimal(cpu as nat) + " failed: "@ + error
}

impl Reported {
    /// With one more report.
    pub open spec fn with(self, message: PerfReaderMessage) -> Reported {
        match message {
            PerfReaderMessage::Progress { cpu, observed_through_ns, events, lost } => Reported {
                watermarks: raised(self.watermarks, cpu, observed_through_ns),
                lost: counter::advanced(self.lost, lost as nat),
                events: self.events + events@,
                ..self
            },
            PerfReaderMessage::Failed { cpu, error } => Reported {
                failure: Some(failure_text(cpu, error@)),
                ..self
            },
        }
    }

    /// With more reports, in order.
    pub open spec fn with_all(self, messages: Seq<PerfReaderMessage>) -> Reported
        decreases messages.len(),
    {
        if messages.len() == 0 {
            self
        } else {
            self.with_all(messages.drop_last()).with(messages.last())
        }
    }
}

/// The watermark of correlation: what the reader that is furthest behind has
/// observed, or zero if there is no reader.
pub open spec fn is_lowest(watermarks: Map<u32, u64>, watermark_ns: u64) -> bool {
    if watermarks.dom() =~= Set::empty() {
        watermark_ns == 0
    } else {
        &&& exists|cpu: u32|
            #[trigger] watermarks.contains_key(cpu) && watermarks[cpu] == watermark_ns
        &&& forall|cpu: u32|
            #[trigger] watermarks.contains_key(cpu) ==> watermark_ns <= watermarks[cpu]
    }
}

/// The watermark of correlation.
pub open spec fn correlation_watermark(watermarks: Map<u32, u64>) -> u64 {
    choose|watermark_ns: u64| is_lowest(watermarks, watermark_ns)
}

/// How many results have a sample.
pub open spec fn matched_count(results: Seq<(BpfEvent, Option<JvmEvent>)>) -> nat
    decreases results.len(),
{
    if results.len() == 0 {
        0
    } else {
        matched_count(results.drop_last()) + if results.last().1 is Some {
            1nat
        } else {
            0nat
        }
    }
}

/// How many of the intervals that were given out have no sample.
pub open spec fn unmatched(emitted: u64, matched: u64) -> u64 {
    ((emitted - matched) % counter::turn() as int) as u64
}

/// The final summary.
pub open spec fn coverage(
    stats: CollectionStats,
    emitted: u64,
    matched: u64,
    lost: u64,
) -> Seq<char> {
    "BPF coverage: eligible_intervals="@ + text::decimal(stats.eligible_intervals as nat)
        + ", eligible_duration_us="@ + text::decimal(stats.eligible_duration_us as nat)
        + ", probability_rejections="@ + text::decimal(stats.probability_rejections as nat)
        + ", selected_intervals="@ + text::decimal(stats.selected_intervals as nat)
        + ", received_intervals="@ + text::decimal(emitted as nat) + ", matched_intervals="@
        + text::decimal(matched as nat) + ", unmatched_intervals="@ + text::decimal(
        unmatched(emitted, matched) as nat,
    ) + ", kernel_stack_failures="@ + text::decimal(stats.kernel_stack_failures as nat)
        + ", user_stack_failures="@ + text::decimal(stats.user_stack_failures as nat)
        + ", signal_failures="@ + text::decimal(stats.signal_failures as nat) + ", perf_lost="@
        + text::decimal(lost as nat)
}

impl<P: JvmStackTraceProvider> Jbm<P> {
    /// What the readers have reported, with the events that came with it.
    pub open spec fn reported(self, events: Seq<BlockEvent>) -> Reported {
        Reported {
            watermarks: self.perf_watermarks@,
            failure: match self.perf_reader_failure {
                Some(failure) => Some(failure@),
                None => None,
            },
            lost: self.lost_perf_events,
            events,
        }
    }

    /// The reports aside, the monitor is as it was.
    pub open spec fn only_reports_differ(self, before: Jbm<P>) -> bool {
        self == (Jbm {
            perf_watermarks: self.perf_watermarks,
            perf_reader_failure: self.perf_reader_failure,
            lost_perf_events: self.lost_perf_events,
            ..before
        })
    }

    /// A monitor of some CPUs, none of which has reported yet.
    pub fn new(
        cpus: &Vec<u32>,
        kernel_symbols: &BTreeMap<u64, String>,
        jvm_stack_provider: P,
    ) -> (monitor: Jbm<P>)
        ensures
            monitor.perf_watermarks@ == Map::new(|cpu: u32| cpus@.contains(cpu), |cpu: u32| 0u64),
            monitor.perf_reader_failure is None,
            monitor.lost_perf_events == 0,
            monitor.emitted_intervals == 0,
            monitor.matched_intervals == 0,
            monitor.stream@ == (StreamView {
                bpf: Map::empty(),
                jvm: Map::empty(),
                unmatched: seq![],
                discarded: seq![],
            }),
            monitor.stream.event_count == 0,
            monitor.stream.ksyms@ == symbols::names(kernel_symbols@),
            monitor.stream.native_symbolization_unavailable@ == Set::<u32>::empty(),
            monitor.jvm_stack_provider == jvm_stack_provider,
    {
        broadcast use vstd::std_specs::hash::group_hash_axioms;

        let mut perf_watermarks: HashMap<u32, u64> = HashMap::new();
        let mut i: usize = 0;
        while i < cpus.len()
            invariant
                0 <= i <= cpus@.len(),
                forall|cpu: u32|
                    #[trigger] perf_watermarks@.contains_key(cpu) <==> cpus@.take(
                        i as int,
                    ).contains(cpu),
                forall|cpu: u32| #[trigger]
                    perf_watermarks@.contains_key(cpu) ==> perf_watermarks@[cpu] == 0,
            decreases cpus@.len() - i,
        {
            let ghost done = cpus@.take(i as int);
            let ghost next = cpus@.take(i + 1);
            assert(next =~= done.push(cpus@[i as int]));
            perf_watermarks.insert(cpus[i], 0);
            assert forall|cpu: u32| next.contains(cpu) <==> done.contains(cpu) || cpu
                == cpus@[i as int] by {
                if done.contains(cpu) {
                    let k = choose|k: int| 0 <= k < done.len() && done[k] == cpu;
                    assert(next[k] == cpu);
                }
                assert(next[i as int] == cpus@[i as int]);
            }
            i = i + 1;
        }
        assert(cpus@.take(i as int) =~= cpus@);
        assert(perf_watermarks@ =~= Map::new(|cpu: u32| cpus@.contains(cpu), |cpu: u32| 0u64));
        Jbm {
            perf_watermarks,
            perf_reader_failure: None,
            lost_perf_events: 0,
            emitted_intervals: 0,
            matched_intervals: 0,
            stream: EventStream::new(kernel_symbols),
            jvm_stack_provider,
        }
    }

    /// Takes in one report of a reader.
    pub fn append_perf_message(
        &mut self,
        message: PerfReaderMessage,
        events: &mut Vec<BlockEvent>,
    )
        ensures
            final(self).reported(final(events)@) == old(self).reported(old(events)@).with(message),
            final(self).only_reports_differ(*old(self)),
    {
        broadcast use vstd::std_specs::hash::group_hash_axioms;

        match message {
            PerfReaderMessage::Progress { cpu, observed_through_ns, events: batch, lost } => {
                self.lost_perf_events = counter::advance(self.lost_perf_events, lost);
                if observed_through_ns != 0 {
                    let behind = match self.perf_watermarks.get(&cpu) {
                        Some(watermark) => *watermark < observed_through_ns,
                        None => true,
                    };
                    if behind {
                        self.perf_watermarks.insert(cpu, observed_through_ns);
                    }
                }
                let mut batch = batch;
                events.append(&mut batch);
            },
            PerfReaderMessage::Failed { cpu, error } => {
                let mut failure = text::copied("perf reader for CPU ");
                text::append_decimal(&mut failure, cpu as u64);
                text::append(&mut failure, " failed: ");
                text::append(&mut failure, error.as_str());
                self.perf_reader_failure = Some(failure);
            },
        }
        assert(self.reported(events@) =~= old(self).reported(old(events)@).with(message));
    }

    /// Takes in what the readers have reported, and gives out the events that
    /// came with it in the order of their ends. If a reader has failed, so does
    /// the round, and the failure is then forgotten.
    pub fn receive_perf_events(&mut self, messages: Vec<PerfReaderMessage>) -> (result: Result<
        Vec<BlockEvent>,
        String,
    >)
        ensures
            ({
                let reported = old(self).reported(seq![]).with_all(messages@);
                &&& final(self).perf_watermarks@ == reported.watermarks
                &&& final(self).lost_perf_events == reported.lost
                &&& final(self).perf_reader_failure is None
                &&& final(self).only_reports_differ(*old(self))
                &&& match result {
                    Ok(events) => {
                        &&& reported.failure is None
                        &&& events@.to_multiset() == reported.events.to_multiset()
                        &&& order::in_order_of_ends(events@)
                    },
                    Err(error) => reported.failure == Some(error@),
                }
            }),
    {
        let ghost before = *self;
        let ghost whole = messages@;
        let mut events: Vec<BlockEvent> = Vec::new();
        assert(whole.take(0) =~= seq![]);
        for message in iter: messages.into_iter()
            invariant
                iter.seq() == whole,
                before == *old(self),
                self.reported(events@) == before.reported(seq![]).with_all(
                    whole.take(iter.index() as int),
                ),
                self.only_reports_differ(before),
                iter.index() == whole.len() ==> whole.take(iter.index() as int) == whole,
        {
            let ghost next = whole.take(iter.index() as int + 1);
            assert(next.drop_last() =~= whole.take(iter.index() as int));
            assert(next.last() == message);
            self.append_perf_message(message, &mut events);
        }
        if let Some(error) = self.perf_reader_failure.take() {
            return Err(error);
        }
        order::sort_by_end(&mut events);
        Ok(events)
    }

    /// The time through which every reader has reported.
    pub fn correlation_watermark_ns(&self) -> (watermark_ns: u64)
        ensures
            is_lowest(self.perf_watermarks@, watermark_ns),
            watermark_ns == correlation_watermark(self.perf_watermarks@),
    {
        broadcast use vstd::std_specs::hash::group_hash_axioms;

        let cpus = order::sorted_keys(&self.perf_watermarks);
        if cpus.len() == 0 {
            assert(self.perf_watermarks@.dom() =~= Set::empty());
            assert(is_lowest(self.perf_watermarks@, 0));
            return 0;
        }
        let mut lowest: u64 = u64::MAX;
        let ghost mut at: int = -1;
        let mut i: usize = 0;
        while i < cpus.len()
            invariant
                0 <= i <= cpus@.len(),
                cpus@.to_set() == self.perf_watermarks@.dom(),
                forall|k: int|
                    0 <= k < i ==> lowest <= self.perf_watermarks@[#[trigger] cpus@[k]],
                i > 0 ==> 0 <= at < i && self.perf_watermarks@[cpus@[at]] == lowest,
                i == 0 ==> lowest == u64::MAX,
            decreases cpus@.len() - i,
        {
            assert(cpus@.to_set().contains(cpus@[i as int]));
            if let Some(watermark) = self.perf_watermarks.get(&cpus[i]) {
                if i == 0 || *watermark < lowest {
                    lowest = *watermark;
                    proof {
                        at = i as int;
                    }
                }
            }
            i = i + 1;
        }
        proof {
            assert(cpus@.to_set().contains(cpus@[at]));
            assert(self.perf_watermarks@.contains_key(cpus@[at]));
            assert forall|cpu: u32| #[trigger] self.perf_watermarks@.contains_key(cpu) implies lowest
                <= self.perf_watermarks@[cpu] by {
                assert(cpus@.to_set().contains(cpu));
                let k = choose|k: int| 0 <= k < cpus@.len() && cpus@[k] == cpu;
                assert(lowest <= self.perf_watermarks@[cpus@[k]]);
            }
            assert(is_lowest(self.perf_watermarks@, lowest));
            lemma_lowest_is_unique(
                self.perf_watermarks@,
                lowest,
                correlation_watermark(self.perf_watermarks@),
            );
        }
        lowest
    }

    /// Counts what is given out.
    pub fn account_results(&mut self, results: &Vec<(BpfEvent, Option<JvmEvent>)>)
        ensures
            *final(self) == (Jbm {
                emitted_intervals: counter::advanced(
                    old(self).emitted_intervals,
                    results@.len(),
                ),
                matched_intervals: counter::advanced(
                    old(self).matched_intervals,
                    matched_count(results@),
                ),
                ..*old(self)
            }),
    {
        let mut matched: u64 = 0;
        let mut i: usize = 0;
        assert(results@.take(0) =~= seq![]);
        while i < results.len()
            invariant
                0 <= i <= results@.len(),
                matched <= i,
                matched == matched_count(results@.take(i as int)),
            decreases results@.len() - i,
        {
            assert(results@.take(i + 1).drop_last() =~= results@.take(i as int));
            if results[i].1.is_some() {
                matched = matched + 1;
            }
            i = i + 1;
        }
        assert(results@.take(i as int) =~= results@);
        self.emitted_intervals = counter::advance(self.emitted_intervals, results.len() as u64);
        self.matched_intervals = counter::advance(self.matched_intervals, matched);
    }

    /// What it means to count what is given out.
    pub open spec fn accounts(self, before: Jbm<P>, results: Seq<(BpfEvent, Option<JvmEvent>)>) -> bool {
        &&& self.emitted_intervals == counter::advanced(before.emitted_intervals, results.len())
        &&& self.matched_intervals == counter::advanced(
            before.matched_intervals,
            matched_count(results),
        )
    }

    /// The reports of the readers are as they were.
    pub open spec fn keeps_the_reports_of(self, before: Jbm<P>) -> bool {
        &&& self.perf_watermarks@ == before.perf_watermarks@
        &&& self.perf_reader_failure == before.perf_reader_failure
        &&& self.lost_perf_events == before.lost_perf_events
    }

    /// Adds an interval that a reader has reported, and says whether it is due
    /// to look how full the storage of stacks is.
    pub fn add_bpf_event(&mut self, event: BlockEvent, observed: Observed) -> (result: Result<
        bool,
        String,
    >)
        ensures
            exists|now_ktime: u64, now_ms: u64|
                {
                    &&& clock::is_monotonic_reading(now_ktime)
                    &&& clock::is_wall_reading(now_ms)
                    &&& EventStream::adds(
                        old(self).stream,
                        final(self).stream,
                        event,
                        observed,
                        #[trigger] ingest::timestamp_at(event.t_end, now_ktime, now_ms),
                        result,
                    )
                },
            *final(self) == (Jbm { stream: final(self).stream, ..*old(self) }),
    {
        self.stream.add_bpf_event(event, observed)
    }

    /// The source of samples, which was `source`, has filled the queues of
    /// samples, so that these were queued, and failed with an error or not.
    pub open spec fn has_taken_in(
        self,
        before: Jbm<P>,
        source: P,
        samples: Map<u32, Seq<JvmEvent>>,
        failure: Option<String>,
    ) -> bool {
        P::fills(source, before.stream@.jvm, self.jvm_stack_provider, samples, failure)
    }

    /// The monitor has given nothing out, and the samples aside, its stream is as
    /// it was.
    pub open spec fn gives_nothing_out(self, before: Jbm<P>) -> bool {
        &&& self.stream@ == before.stream@.with_samples(self.stream@.jvm)
        &&& self.emitted_intervals == before.emitted_intervals
        &&& self.matched_intervals == before.matched_intervals
    }

    /// A round has ended in which these samples were queued after new ones had
    /// been taken in.
    pub open spec fn ends_round(
        self,
        before: Jbm<P>,
        samples: Map<u32, Seq<JvmEvent>>,
        now_ns: u64,
        results: Seq<(BpfEvent, Option<JvmEvent>)>,
    ) -> bool {
        let filled = before.stream@.with_samples(samples);
        let watermark_ns = correlation_watermark(before.perf_watermarks@);
        &&& results == filled.sweep_results(watermark_ns, now_ns)
        &&& self.stream@ == filled.swept(watermark_ns, now_ns)
        &&& self.accounts(before, results)
    }

    /// The monitor has ended, and these samples were queued after the last ones
    /// had been taken in.
    pub open spec fn has_ended(
        self,
        before: Jbm<P>,
        samples: Map<u32, Seq<JvmEvent>>,
        now_ns: u64,
        results: Seq<(BpfEvent, Option<JvmEvent>)>,
    ) -> bool {
        let filled = before.stream@.with_samples(samples);
        &&& results == filled.final_results(now_ns)
        &&& self.stream@ == (StreamView {
            bpf: Map::empty(),
            jvm: Map::empty(),
            unmatched: seq![],
            discarded: filled.swept(u64::MAX, now_ns).discarded,
        })
        &&& self.accounts(before, results)
    }

    /// A round ends: what came of taking in samples decides whether results are
    /// given out, and the samples and the readers decide which.
    pub fn process_at(&mut self, filled: Result<(), String>, now_monotonic_ns: u64) -> (result:
        Result<Vec<(BpfEvent, Option<JvmEvent>)>, String>)
        ensures
            final(self).keeps_the_reports_of(*old(self)),
            final(self).stream.keeps_the_rest_of(old(self).stream),
            final(self).jvm_stack_provider == old(self).jvm_stack_provider,
            match (filled, result) {
                (Ok(_), Ok(results)) => final(self).ends_round(
                    *old(self),
                    old(self).stream@.jvm,
                    now_monotonic_ns,
                    results@,
                ),
                (Err(failure), Err(error)) => error == failure && *final(self) == *old(self),
                _ => false,
            },
    {
        if let Err(error) = filled {
            return Err(error);
        }
        let watermark_ns = self.correlation_watermark_ns();
        let results = self.stream.sweep_at(watermark_ns, now_monotonic_ns);
        self.account_results(&results);
        Ok(results)
    }

    /// Ends a round: takes in samples and gives out results.
    pub fn process(&mut self) -> (result: Result<Vec<(BpfEvent, Option<JvmEvent>)>, String>)
        ensures
            final(self).keeps_the_reports_of(*old(self)),
            final(self).stream.keeps_the_rest_of(old(self).stream),
            match result {
                Ok(results) => exists|samples: Map<u32, Seq<JvmEvent>>, now_ns: u64|
                    {
                        &&& clock::is_monotonic_reading(now_ns)
                        &&& final(self).has_taken_in(
                            *old(self),
                            old(self).jvm_stack_provider,
                            samples,
                            None,
                        )
                        &&& #[trigger] final(self).ends_round(
                            *old(self),
                            samples,
                            now_ns,
                            results@,
                        )
                    },
                Err(error) => {
                    &&& final(self).has_taken_in(
                        *old(self),
                        old(self).jvm_stack_provider,
                        final(self).stream@.jvm,
                        Some(error),
                    )
                    &&& final(self).gives_nothing_out(*old(self))
                },
            },
    {
        let filled = self.jvm_stack_provider.fill_queue(&mut self.stream.jvm_events);
        let ghost samples = self.stream@.jvm;
        assert(self.stream@ == old(self).stream@.with_samples(samples));
        let ghost with_samples = *self;
        let now_monotonic_ns = clock::monotonic_time_ns();
        let result = self.process_at(filled, now_monotonic_ns);
        proof {
            if let Ok(results) = &result {
                assert(with_samples.stream@.with_samples(samples) == old(
                    self,
                ).stream@.with_samples(samples));
                assert(self.has_taken_in(
                    *old(self),
                    old(self).jvm_stack_provider,
                    samples,
                    None,
                ));
                assert(self.ends_round(*old(self), samples, now_monotonic_ns, results@));
            }
        }
        result
    }

    /// The monitor ends: what came of stopping the source of samples and taking
    /// in the last ones decides whether the rest is given out.
    pub fn shutdown_at(&mut self, filled: Result<(), String>, now_monotonic_ns: u64) -> (result:
        Result<Vec<(BpfEvent, Option<JvmEvent>)>, String>)
        ensures
            final(self).keeps_the_reports_of(*old(self)),
            final(self).stream.keeps_the_rest_of(old(self).stream),
            final(self).jvm_stack_provider == old(self).jvm_stack_provider,
            match (filled, result) {
                (Ok(_), Ok(results)) => final(self).has_ended(
                    *old(self),
                    old(self).stream@.jvm,
                    now_monotonic_ns,
                    results@,
                ),
                (Err(failure), Err(error)) => error == failure && *final(self) == *old(self),
                _ => false,
            },
    {
        if let Err(error) = filled {
            return Err(error);
        }
        let results = self.stream.sweep_remaining_at(now_monotonic_ns);
        self.account_results(&results);
        Ok(results)
    }

    /// Ends the monitor, once the readers have come to their end: stops the
    /// source of samples, takes in the last ones, and gives out all that is left.
    pub fn shutdown(&mut self) -> (result: Result<Vec<(BpfEvent, Option<JvmEvent>)>, String>)
        ensures
            final(self).keeps_the_reports_of(*old(self)),
            final(self).stream.keeps_the_rest_of(old(self).stream),
            match result {
                Ok(results) => exists|stopped: P, samples: Map<u32, Seq<JvmEvent>>, now_ns: u64|
                    {
                        &&& clock::is_monotonic_reading(now_ns)
                        &&& exists|source: &mut P, answer: Result<(), String>|
                            {
                                &&& #[trigger] call_ensures(P::stop, (source,), answer)
                                &&& *source == old(self).jvm_stack_provider
                                &&& *final(source) == stopped
                                &&& answer is Ok
                            }
                        &&& #[trigger] final(self).has_taken_in(
                            *old(self),
                            stopped,
                            samples,
                            None,
                        )
                        &&& #[trigger] final(self).has_ended(
                            *old(self),
                            samples,
                            now_ns,
                            results@,
                        )
                    },
                Err(error) => {
                    &&& final(self).gives_nothing_out(*old(self))
                    &&& {
                        ||| {
                            &&& exists|source: &mut P, answer: Result<(), String>|
                                {
                                    &&& #[trigger] call_ensures(P::stop, (source,), answer)
                                    &&& *source == old(self).jvm_stack_provider
                                    &&& *final(source) == final(self).jvm_stack_provider
                                    &&& answer == Err::<(), String>(error)
                                }
                            &&& final(self).stream@.jvm == old(self).stream@.jvm
                        }
                        ||| exists|stopped: P|
                            {
                                &&& exists|source: &mut P, answer: Result<(), String>|
                                    {
                                        &&& #[trigger] call_ensures(P::stop, (source,), answer)
                                        &&& *source == old(self).jvm_stack_provider
                                        &&& *final(source) == stopped
                                        &&& answer is Ok
                                    }
                                &&& #[trigger] final(self).has_taken_in(
                                    *old(self),
                                    stopped,
                                    final(self).stream@.jvm,
                                    Some(error),
                                )
                            }
                    }
                },
            },
    {
        if let Err(error) = self.jvm_stack_provider.stop() {
            return Err(error);
        }
        let ghost stopped = self.jvm_stack_provider;
        let filled = self.jvm_stack_provider.fill_queue(&mut self.stream.jvm_events);
        let ghost samples = self.stream@.jvm;
        assert(self.stream@ == old(self).stream@.with_samples(samples));
        let ghost with_samples = *self;
        let now_monotonic_ns = clock::monotonic_time_ns();
        let result = self.shutdown_at(filled, now_monotonic_ns);
        proof {
            if let Ok(results) = &result {
                assert(with_samples.stream@.with_samples(samples) == old(
                    self,
                ).stream@.with_samples(samples));
                assert(self.has_taken_in(*old(self), stopped, samples, None));
                assert(self.has_ended(*old(self), samples, now_monotonic_ns, results@));
            }
            if let Err(error) = &result {
                assert(self.has_taken_in(*old(self), stopped, self.stream@.jvm, Some(*error)));
            }
        }
        result
    }

    /// The counts of all CPUs together.
    pub fn collection_stats(&self, values: &Vec<CollectionStats>) -> (stats: CollectionStats)
        ensures
            stats == common::totals(values@),
    {
        CollectionStats::sum(values)
    }

    /// A warning if records were lost.
    pub fn loss_warning(&self) -> (warning: Option<String>)
        ensures
            match warning {
                Some(warning) => self.lost_perf_events != 0 && warning@ == text::decimal(
                    self.lost_perf_events as nat,
                ) + " events from eBPF were lost due to slow consumption"@,
                None => self.lost_perf_events == 0,
            },
    {
        if self.lost_perf_events == 0 {
            return None;
        }
        let mut warning = String::new();
        text::append_decimal(&mut warning, self.lost_perf_events);
        text::append(&mut warning, " events from eBPF were lost due to slow consumption");
        assert(warning@ =~= text::decimal(self.lost_perf_events as nat)
            + " events from eBPF were lost due to slow consumption"@);
        Some(warning)
    }

    /// The final summary.
    pub fn coverage_summary(&self, stats: &CollectionStats) -> (summary: String)
        ensures
            summary@ == coverage(
                *stats,
                self.emitted_intervals,
                self.matched_intervals,
                self.lost_perf_events,
            ),
    {
        let mut summary = text::copied("BPF coverage: eligible_intervals=");
        text::append_decimal(&mut summary, stats.eligible_intervals);
        text::append(&mut summary, ", eligible_duration_us=");
        text::append_decimal(&mut summary, stats.eligible_duration_us);
        text::append(&mut summary, ", probability_rejections=");
        text::append_decimal(&mut summary, stats.probability_rejections);
        text::append(&mut summary, ", selected_intervals=");
        text::append_decimal(&mut summary, stats.selected_intervals);
        text::append(&mut summary, ", received_intervals=");
        text::append_decimal(&mut summary, self.emitted_intervals);
        text::append(&mut summary, ", matched_intervals=");
        text::append_decimal(&mut summary, self.matched_intervals);
        text::append(&mut summary, ", unmatched_intervals=");
        let unmatched_intervals = self.emitted_intervals.wrapping_sub(self.matched_intervals);
        assert(unmatched_intervals == unmatched(self.emitted_intervals, self.matched_intervals));
        text::append_decimal(&mut summary, unmatched_intervals);
        text::append(&mut summary, ", kernel_stack_failures=");
        text::append_decimal(&mut summary, stats.kernel_stack_failures);
        text::append(&mut summary, ", user_stack_failures=");
        text::append_decimal(&mut summary, stats.user_stack_failures);
        text::append(&mut summary, ", signal_failures=");
        text::append_decimal(&mut summary, stats.signal_failures);
        text::append(&mut summary, ", perf_lost=");
        text::append_decimal(&mut summary, self.lost_perf_events);
        summary
    }
}

/// There is one lowest watermark at most.
proof fn lemma_lowest_is_unique(watermarks: Map<u32, u64>, first: u64, second: u64)
    requires
        is_lowest(watermarks, first),
        is_lowest(watermarks, second),
    ensures
        first == second,
{
}

/// However the readers report, no watermark falls.
pub proof fn law_watermarks_never_fall(
    reported: Reported,
    messages: Seq<PerfReaderMessage>,
    cpu: u32,
)
    requires
        reported.watermarks.contains_key(cpu),
    ensures
        reported.with_all(messages).watermarks.contains_key(cpu),
        reported.watermarks[cpu] <= reported.with_all(messages).watermarks[cpu],
    decreases messages.len(),
{
    if messages.len() > 0 {
        law_watermarks_never_fall(reported, messages.drop_last(), cpu);
    }
}

/// The reader that a report comes from is one that is known.
pub open spec fn is_from_known_reader(
    watermarks: Map<u32, u64>,
    message: PerfReaderMessage,
) -> bool {
    match message {
        PerfReaderMessage::Progress { cpu, .. } => watermarks.contains_key(cpu),
        PerfReaderMessage::Failed { .. } => true,
    }
}

/// As long as only known readers report, the watermark of correlation does not
/// fall: what was safe to correlate stays safe.
pub proof fn law_the_correlation_watermark_never_falls(
    reported: Reported,
    messages: Seq<PerfReaderMessage>,
    before_ns: u64,
    after_ns: u64,
)
    requires
        forall|i: int|
            0 <= i < messages.len() ==> is_from_known_reader(
                reported.watermarks,
                #[trigger] messages[i],
            ),
        is_lowest(reported.watermarks, before_ns),
        is_lowest(reported.with_all(messages).watermarks, after_ns),
    ensures
        before_ns <= after_ns,
{
    lemma_known_readers(reported, messages);
    let after = reported.with_all(messages).watermarks;
    assert(after.dom() == reported.watermarks.dom());
    if after.dom() =~= Set::empty() {
    } else {
        let cpu = choose|cpu: u32| #[trigger] after.contains_key(cpu) && after[cpu] == after_ns;
        assert(reported.watermarks.contains_key(cpu));
        law_watermarks_never_fall(reported, messages, cpu);
    }
}

/// Reports of known readers make no other reader known.
proof fn lemma_known_readers(reported: Reported, messages: Seq<PerfReaderMessage>)
    requires
        forall|i: int|
            0 <= i < messages.len() ==> is_from_known_reader(
                reported.watermarks,
                #[trigger] messages[i],
            ),
    ensures
        reported.with_all(messages).watermarks.dom() == reported.watermarks.dom(),
    decreases messages.len(),
{
    if messages.len() > 0 {
        let fewer = messages.drop_last();
        assert forall|i: int| 0 <= i < fewer.len() implies is_from_known_reader(
            reported.watermarks,
            #[trigger] fewer[i],
        ) by {
            assert(fewer[i] == messages[i]);
        }
        lemma_known_readers(reported, fewer);
        assert(is_from_known_reader(reported.watermarks, messages[messages.len() - 1]));
        assert(reported.with_all(messages).watermarks.dom() =~= reported.watermarks.dom());
    }
}

/// A reader that has not reported holds correlation back.
pub proof fn law_a_silent_reader_holds_correlation_back(
    watermarks: Map<u32, u64>,
    cpu: u32,
    watermark_ns: u64,
)
    requires
        watermarks.contains_key(cpu),
        watermarks[cpu] == 0,
        is_lowest(watermarks, watermark_ns),
    ensures
        watermark_ns == 0,
{
}

/// The intervals that were given out with and without a sample make up all that
/// were given out: each account adds to the unmatched ones those of its results
/// that have no sample.
pub proof fn law_unmatched_intervals_are_those_without_a_sample(
    emitted: u64,
    matched: u64,
    results: Seq<(BpfEvent, Option<JvmEvent>)>,
)
    ensures
        matched_count(results) <= results.len(),
        unmatched(
            counter::advanced(emitted, results.len()),
            counter::advanced(matched, matched_count(results)),
        ) == counter::advanced(
            unmatched(emitted, matched),
            (results.len() - matched_count(results)) as nat,
        ),
{
    lemma_matched_count(results);
    let t = counter::turn() as int;
    let n = results.len() as int;
    let m = matched_count(results) as int;
    let e = emitted as int;
    let s = matched as int;
    vstd::arithmetic::div_mod::lemma_sub_mod_noop(e + n, s + m, t);
    vstd::arithmetic::div_mod::lemma_add_mod_noop(e - s, n - m, t);
    vstd::arithmetic::div_mod::lemma_add_mod_noop((e - s) % t, n - m, t);
    vstd::arithmetic::div_mod::lemma_mod_twice(e - s, t);
    assert((e + n) - (s + m) == (e - s) + (n - m));
}

proof fn lemma_matched_count(results: Seq<(BpfEvent, Option<JvmEvent>)>)
    ensures
        matched_count(results) <= results.len(),
    decreases results.len(),
{
    if results.len() > 0 {
        lemma_matched_count(results.drop_last());
    }
}

/// A report of progress appends its events, adds what was lost, and raises the
/// watermark of its CPU to what was observed if that is more, and of no other CPU. A
/// report that observed nothing raises none.
pub proof fn law_progress_is_taken_in(
    reported: Reported,
    cpu: u32,
    observed_through_ns: u64,
    events: Vec<BlockEvent>,
    lost: u64,
    other: u32,
)
    ensures
        ({
            let after = reported.with(
                PerfReaderMessage::Progress { cpu, observed_through_ns, events, lost },
            );
            &&& after.events == reported.events + events@
            &&& after.lost == (reported.lost + lost) % 0x1_0000_0000_0000_0000
            &&& after.failure == reported.failure
            &&& observed_through_ns > 0 ==> after.watermarks.contains_key(cpu)
            &&& after.watermarks.contains_key(cpu) ==> {
                let before_ns = if reported.watermarks.contains_key(cpu) {
                    reported.watermarks[cpu]
                } else {
                    0
                };
                after.watermarks[cpu] == if before_ns < observed_through_ns {
                    observed_through_ns
                } else {
                    before_ns
                }
            }
            &&& observed_through_ns == 0 ==> after.watermarks == reported.watermarks
            &&& other != cpu ==> after.watermarks.contains_key(other)
                == reported.watermarks.contains_key(other)
            &&& other != cpu && after.watermarks.contains_key(other) ==> after.watermarks[other]
                == reported.watermarks[other]
        }),
{
}

/// A report of failure is kept with the CPU and the reason, and changes nothing else.
pub proof fn law_a_failure_is_taken_in(reported: Reported, cpu: u32, error: String)
    ensures
        reported.with(PerfReaderMessage::Failed { cpu, error }) == (Reported {
            failure: Some(
                "perf reader for CPU "@ + text::decimal(cpu as nat) + " failed: "@ + error@,
            ),
            ..reported
        }),
{
}

/// Reports are taken in one after the other, and every one of them.
pub proof fn law_every_report_is_taken_in(
    reported: Reported,
    messages: Seq<PerfReaderMessage>,
    message: PerfReaderMessage,
)
    ensures
        reported.with_all(seq![]) == reported,
        reported.with_all(messages.push(message)) == reported.with_all(messages).with(message),
{
    assert(messages.push(message).drop_last() =~= messages);
}

/// A finite map that is not empty has a lowest value.
proof fn lemma_a_lowest_exists(watermarks: Map<u32, u64>)
    requires
        watermarks.dom().finite(),
        watermarks.dom().len() > 0,
    ensures
        exists|cpu: u32|
            {
                &&& #[trigger] watermarks.contains_key(cpu)
                &&& forall|other: u32| #[trigger]
                    watermarks.contains_key(other) ==> watermarks[cpu] <= watermarks[other]
            },
    decreases watermarks.dom().len(),
{
    let some = watermarks.dom().choose();
    let fewer = watermarks.remove(some);
    assert(fewer.dom() =~= watermarks.dom().remove(some));
    assert(watermarks.contains_key(some));
    if fewer.dom().len() > 0 {
        lemma_a_lowest_exists(fewer);
        let low = choose|cpu: u32|
            {
                &&& #[trigger] fewer.contains_key(cpu)
                &&& forall|other: u32| #[trigger]
                    fewer.contains_key(other) ==> fewer[cpu] <= fewer[other]
            };
        assert(watermarks.contains_key(low));
        let lowest = if watermarks[some] <= watermarks[low] {
            some
        } else {
            low
        };
        assert forall|other: u32| #[trigger] watermarks.contains_key(other) implies
            watermarks[lowest] <= watermarks[other] by {
            if other != some {
                assert(fewer.contains_key(other));
            }
        }
        assert(watermarks.contains_key(lowest));
    } else {
        assert forall|other: u32| #[trigger] watermarks.contains_key(other) implies
            watermarks[some] <= watermarks[other] by {
            if other != some {
                assert(fewer.dom().contains(other));
            }
        }
    }
}

/// Correlation goes exactly as far as the reader that is furthest behind: no further
/// than any reader has come, and as far as one of them; nowhere if there is none.
pub proof fn law_correlation_goes_as_far_as_the_slowest_reader(
    watermarks: Map<u32, u64>,
    cpu: u32,
)
    requires
        watermarks.dom().finite(),
    ensures
        watermarks.contains_key(cpu) ==> correlation_watermark(watermarks) <= watermarks[cpu],
        watermarks.contains_key(cpu) ==> exists|slowest: u32|
            #[trigger] watermarks.contains_key(slowest) && watermarks[slowest]
                == correlation_watermark(watermarks),
        watermarks.dom().len() == 0 ==> correlation_watermark(watermarks) == 0,
{
    if watermarks.dom().len() > 0 {
        lemma_a_lowest_exists(watermarks);
        let low = choose|low: u32|
            {
                &&& #[trigger] watermarks.contains_key(low)
                &&& forall|other: u32| #[trigger]
                    watermarks.contains_key(other) ==> watermarks[low] <= watermarks[other]
            };
        assert(watermarks.dom().contains(low));
        assert(is_lowest(watermarks, watermarks[low]));
    } else {
        assert(watermarks.dom() =~= Set::empty());
        assert(is_lowest(watermarks, 0));
    }
    assert(is_lowest(watermarks, correlation_watermark(watermarks)));
    assert(watermarks.contains_key(cpu) ==> watermarks.dom().contains(cpu));
}

/// One more result counts as matched if and only if it has a sample.
pub proof fn law_a_result_with_a_sample_counts_as_matched(
    results: Seq<(BpfEvent, Option<JvmEvent>)>,
    result: (BpfEvent, Option<JvmEvent>),
    emitted: u64,
    matched: u64,
)
    ensures
        matched_count(seq![]) == 0,
        matched_count(results.push(result)) == matched_count(results) + if result.1 is Some {
            1int
        } else {
            0int
        },
        emitted >= matched ==> unmatched(emitted, matched) == emitted - matched,
{
    assert(results.push(result).drop_last() =~= results);
}

/// A round gives an interval the sample that its signal caused, once every reader has
/// reported past that sample.
pub proof fn law_a_round_pairs_an_interval_with_its_sample<P: JvmStackTraceProvider>(
    before: Jbm<P>,
    after: Jbm<P>,
    samples: Map<u32, Seq<JvmEvent>>,
    now_ns: u64,
    results: Seq<(BpfEvent, Option<JvmEvent>)>,
    tid: u32,
    i: int,
    j: int,
)
    requires
        after.ends_round(before, samples, now_ns, results),
        threads::is_sound(before.stream@.with_samples(samples)),
        before.perf_watermarks@.dom().finite(),
        before.perf_watermarks@.dom().len() > 0,
        before.stream@.bpf.contains_key(tid),
        samples.contains_key(tid),
        0 <= i < before.stream@.bpf[tid].len(),
        0 <= j < samples[tid].len(),
        forall|cpu: u32| #[trigger]
            before.perf_watermarks@.contains_key(cpu) ==> samples[tid][j].monotonic_timestamp_ns
                <= before.perf_watermarks@[cpu],
        before.stream@.bpf[tid][i].signal_result == 0,
        before.stream@.bpf[tid][i].end_monotonic_ns <= samples[tid][j].monotonic_timestamp_ns,
        samples[tid][j].monotonic_timestamp_ns < before.stream@.bpf[tid][i].end_monotonic_ns
            + 1_000_000_000,
        i + 1 < before.stream@.bpf[tid].len() ==> samples[tid][j].monotonic_timestamp_ns
            < before.stream@.bpf[tid][i + 1].end_monotonic_ns,
        forall|k: int|
            0 <= k < j ==> (#[trigger] samples[tid][k]).monotonic_timestamp_ns
                < before.stream@.bpf[tid][i].end_monotonic_ns,
    ensures
        results.contains((before.stream@.bpf[tid][i], Some(samples[tid][j]))),
{
    let watermarks = before.perf_watermarks@;
    let some = watermarks.dom().choose();
    assert(watermarks.contains_key(some));
    law_correlation_goes_as_far_as_the_slowest_reader(watermarks, some);
    threads::law_a_sweep_pairs_an_interval_with_its_sample(
        before.stream@.with_samples(samples),
        tid,
        correlation_watermark(watermarks),
        now_ns,
        i,
        j,
    );
}

/// A round gives an interval only a sample of its own thread that every reader has
/// reported past and that was taken no earlier than the end of the interval and less
/// than a second after it; and every result is counted, as matched if it has a sample.
pub proof fn law_a_round_pairs_only_what_every_reader_has_passed<P: JvmStackTraceProvider>(
    before: Jbm<P>,
    after: Jbm<P>,
    samples: Map<u32, Seq<JvmEvent>>,
    now_ns: u64,
    results: Seq<(BpfEvent, Option<JvmEvent>)>,
    i: int,
    cpu: u32,
)
    requires
        after.ends_round(before, samples, now_ns, results),
        threads::is_sound(before.stream@.with_samples(samples)),
        before.perf_watermarks@.dom().finite(),
        before.perf_watermarks@.contains_key(cpu),
        0 <= i < results.len(),
    ensures
        results[i].1 matches Some(sample) ==> {
            &&& results[i].0.tid == Some(sample.tid)
            &&& sample.monotonic_timestamp_ns <= before.perf_watermarks@[cpu]
            &&& results[i].0.end_monotonic_ns <= sample.monotonic_timestamp_ns
            &&& sample.monotonic_timestamp_ns < results[i].0.end_monotonic_ns + 1_000_000_000
            &&& results[i].0.signal_result == 0
        },
        after.emitted_intervals == (before.emitted_intervals + results.len())
            % 0x1_0000_0000_0000_0000,
        after.matched_intervals == (before.matched_intervals + matched_count(results))
            % 0x1_0000_0000_0000_0000,
{
    law_correlation_goes_as_far_as_the_slowest_reader(before.perf_watermarks@, cpu);
    if results[i].1 is Some {
        threads::law_a_sweep_pairs_only_within_a_second(
            before.stream@.with_samples(samples),
            correlation_watermark(before.perf_watermarks@),
            now_ns,
            i,
        );
    }
}

/// When the monitor ends, every interval of every thread is given out, once and in
/// order, with the samples that were taken within a second after their ends, whatever
/// the readers have reported; nothing stays queued.
pub proof fn law_everything_is_given_out_when_the_monitor_ends<P: JvmStackTraceProvider>(
    before: Jbm<P>,
    after: Jbm<P>,
    samples: Map<u32, Seq<JvmEvent>>,
    now_ns: u64,
    results: Seq<(BpfEvent, Option<JvmEvent>)>,
    tid: u32,
    i: int,
)
    requires
        after.has_ended(before, samples, now_ns, results),
        threads::is_sound(before.stream@.with_samples(samples)),
        0 <= i < before.stream@.intervals(tid).len(),
    ensures
        ({
            let of_thread = threads::results_of(results, Some(tid));
            &&& of_thread.len() == before.stream@.intervals(tid).len()
            &&& of_thread[i].0 == before.stream@.intervals(tid)[i]
            &&& of_thread[i].1 matches Some(sample) ==> {
                &&& of_thread[i].0.end_monotonic_ns <= sample.monotonic_timestamp_ns
                &&& sample.monotonic_timestamp_ns < of_thread[i].0.end_monotonic_ns + 1_000_000_000
                &&& of_thread[i].0.signal_result == 0
            }
        }),
        after.stream@.bpf.dom().len() == 0,
        after.stream@.jvm.dom().len() == 0,
        after.stream@.unmatched.len() == 0,
        after.emitted_intervals == (before.emitted_intervals + results.len())
            % 0x1_0000_0000_0000_0000,
        after.matched_intervals == (before.matched_intervals + matched_count(results))
            % 0x1_0000_0000_0000_0000,
{
    let filled = before.stream@.with_samples(samples);
    assert(filled.intervals(tid) == before.stream@.intervals(tid));
    threads::law_emptying_a_stream_pairs_only_within_a_second(filled, tid, now_ns, i);
    assert(after.stream@.bpf.dom() =~= Set::empty());
    assert(after.stream@.jvm.dom() =~= Set::empty());
}

/// The final summary shows each count under its own name, and as unmatched the
/// intervals that were given out less those that were matched.
pub proof fn law_the_summary_shows_every_count(
    stats: CollectionStats,
    emitted: u64,
    matched: u64,
    lost: u64,
)
    requires
        matched <= emitted,
    ensures
        coverage(stats, emitted, matched, lost) == "BPF coverage: eligible_intervals="@
            + text::decimal(stats.eligible_intervals as nat) + ", eligible_duration_us="@
            + text::decimal(stats.eligible_duration_us as nat) + ", probability_rejections="@
            + text::decimal(stats.probability_rejections as nat) + ", selected_intervals="@
            + text::decimal(stats.selected_intervals as nat) + ", received_intervals="@
            + text::decimal(emitted as nat) + ", matched_intervals="@ + text::decimal(
            matched as nat,
        ) + ", unmatched_intervals="@ + text::decimal((emitted - matched) as nat)
            + ", kernel_stack_failures="@ + text::decimal(stats.kernel_stack_failures as nat)
            + ", user_stack_failures="@ + text::decimal(stats.user_stack_failures as nat)
            + ", signal_failures="@ + text::decimal(stats.signal_failures as nat)
            + ", perf_lost="@ + text::decimal(lost as nat),
{
}

/// A round gives out each interval of a thread once: those that it gives out, followed
/// by those that stay queued, are those that were queued.
pub proof fn law_a_round_gives_out_each_interval_once<P: JvmStackTraceProvider>(
    before: Jbm<P>,
    after: Jbm<P>,
    samples: Map<u32, Seq<JvmEvent>>,
    now_ns: u64,
    results: Seq<(BpfEvent, Option<JvmEvent>)>,
    tid: u32,
    i: int,
)
    requires
        after.ends_round(before, samples, now_ns, results),
        threads::is_sound(before.stream@.with_samples(samples)),
        0 <= i < before.stream@.intervals(tid).len(),
    ensures
        ({
            let of_thread = threads::results_of(results, Some(tid));
            let left = after.stream@.intervals(tid);
            &&& of_thread.len() + left.len() == before.stream@.intervals(tid).len()
            &&& before.stream@.intervals(tid)[i] == if i < of_thread.len() {
                of_thread[i].0
            } else {
                left[i - of_thread.len()]
            }
        }),
        forall|k: int|
            0 <= k < before.stream@.unmatched.len() ==> k < results.len() && #[trigger] results[k]
                == (before.stream@.unmatched[k], None::<JvmEvent>),
        after.stream@.unmatched.len() == 0,
{
    let filled = before.stream@.with_samples(samples);
    let watermark_ns = correlation_watermark(before.perf_watermarks@);
    assert(filled.intervals(tid) == before.stream@.intervals(tid));
    threads::law_the_intervals_of_a_thread_leave_once_and_in_order(
        filled,
        tid,
        watermark_ns,
        now_ns,
    );
    let of_thread = threads::results_of(results, Some(tid));
    let left = after.stream@.intervals(tid);
    let out = correlate::intervals_of(of_thread);
    assert((out + left)[i] == before.stream@.intervals(tid)[i]);
    assert forall|k: int| 0 <= k < before.stream@.unmatched.len() implies k < results.len()
        && #[trigger] results[k] == (before.stream@.unmatched[k], None::<JvmEvent>) by {
        threads::law_every_untranslated_interval_leaves_first(filled, watermark_ns, now_ns, k);
    }
}

/// What is kept over a round, and what is kept when nothing is given out.
pub proof fn law_a_round_keeps_the_rest<P: JvmStackTraceProvider>(before: Jbm<P>, after: Jbm<P>)
    ensures
        after.keeps_the_reports_of(before) ==> {
            &&& after.perf_watermarks@ == before.perf_watermarks@
            &&& after.perf_reader_failure == before.perf_reader_failure
            &&& after.lost_perf_events == before.lost_perf_events
        },
        after.only_reports_differ(before) ==> {
            &&& after.emitted_intervals == before.emitted_intervals
            &&& after.matched_intervals == before.matched_intervals
            &&& after.stream == before.stream
            &&& after.jvm_stack_provider == before.jvm_stack_provider
        },
        after.gives_nothing_out(before) ==> {
            &&& after.stream@.bpf == before.stream@.bpf
            &&& after.stream@.unmatched == before.stream@.unmatched
            &&& after.stream@.discarded == before.stream@.discarded
            &&& after.emitted_intervals == before.emitted_intervals
            &&& after.matched_intervals == before.matched_intervals
        },
        after.stream.keeps_the_rest_of(before.stream) ==> {
            &&& after.stream.event_count == before.stream.event_count
            &&& after.stream.ksyms == before.stream.ksyms
            &&& after.stream.native_symbolization_unavailable@
                == before.stream.native_symbolization_unavailable@
        },
{
}

} // verus!
