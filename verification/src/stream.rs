//! The queues of intervals and samples, by thread.

use std::collections::{BTreeMap, HashMap, HashSet, VecDeque};

use vstd::prelude::*;

use crate::arrival;
use crate::clock;
use crate::correlate;
use crate::correlate::{
    ThreadSweep, EVENT_MATCH_GIVEUP_TIME_NS, EVENT_MATCH_TIME_THRESHOLD_NS,
};
use crate::events::{BpfEvent, JvmEvent, JvmFrame};
use crate::order;
use crate::symbols;
use crate::symbols::SymbolTable;
use crate::text;

verus! {

/// The queues of intervals and samples that wait for each other.
pub struct EventStream {
    /// Intervals of threads that the target JVM knows, by its thread ID.
    pub bpf_events: HashMap<u32, VecDeque<BpfEvent>>,
    /// Intervals whose thread has no known ID in the target JVM.
    pub unmatched_bpf_events: VecDeque<BpfEvent>,
    /// How many intervals have been added.
    pub event_count: usize,
    /// Samples, by thread ID.
    pub jvm_events: HashMap<u32, VecDeque<JvmEvent>>,
    /// Samples that were dropped for want of an interval and not yet reported.
    pub discarded_jvm_events: Vec<JvmEvent>,
    /// The symbols of the kernel.
    pub ksyms: SymbolTable,
    /// Processes whose native stacks cannot be symbolized.
    pub native_symbolization_unavailable: HashSet<u32>,
}

/// The contents of the queues of an event stream.
#[verifier::ext_equal]
pub struct StreamView {
    pub bpf: Map<u32, Seq<BpfEvent>>,
    pub jvm: Map<u32, Seq<JvmEvent>>,
    pub unmatched: Seq<BpfEvent>,
    pub discarded: Seq<JvmEvent>,
}

/// The contents of each queue of a map.
pub open spec fn queues<T>(map: Map<u32, VecDeque<T>>) -> Map<u32, Seq<T>> {
    map.map_values(|queue: VecDeque<T>| queue@)
}

/// The contents of the queues without one.
pub proof fn lemma_queues_remove<T>(map: Map<u32, VecDeque<T>>, tid: u32)
    ensures
        queues(map.remove(tid)) == queues(map).remove(tid),
{
    assert(queues(map.remove(tid)) =~= queues(map).remove(tid));
}

/// The contents of the queues with one more.
pub proof fn lemma_queues_insert<T>(map: Map<u32, VecDeque<T>>, tid: u32, queue: VecDeque<T>)
    ensures
        queues(map.insert(tid, queue)) == queues(map).insert(tid, queue@),
{
    assert(queues(map.insert(tid, queue)) =~= queues(map).insert(tid, queue@));
}

impl StreamView {
    /// The intervals of a thread.
    pub open spec fn intervals(self, tid: u32) -> Seq<BpfEvent> {
        if self.bpf.contains_key(tid) {
            self.bpf[tid]
        } else {
            seq![]
        }
    }

    /// The samples of a thread.
    pub open spec fn samples(self, tid: u32) -> Seq<JvmEvent> {
        if self.jvm.contains_key(tid) {
            self.jvm[tid]
        } else {
            seq![]
        }
    }

    /// The sweep of one thread of the stream.
    pub open spec fn thread(self, tid: u32, watermark_ns: u64, now_ns: u64) -> ThreadSweep {
        correlate::sweep_thread(self.intervals(tid), self.samples(tid), watermark_ns, now_ns)
    }

    /// What the sweeps of some threads give out, in the order of the threads.
    pub open spec fn thread_results(
        self,
        tids: Seq<u32>,
        watermark_ns: u64,
        now_ns: u64,
    ) -> Seq<(BpfEvent, Option<JvmEvent>)>
        decreases tids.len(),
    {
        if tids.len() == 0 {
            seq![]
        } else {
            self.thread_results(tids.drop_last(), watermark_ns, now_ns) + self.thread(
                tids.last(),
                watermark_ns,
                now_ns,
            ).results
        }
    }

    /// What the sweeps of some threads discard, in the order of the threads.
    pub open spec fn thread_discards(
        self,
        tids: Seq<u32>,
        watermark_ns: u64,
        now_ns: u64,
    ) -> Seq<JvmEvent>
        decreases tids.len(),
    {
        if tids.len() == 0 {
            seq![]
        } else {
            self.thread_discards(tids.drop_last(), watermark_ns, now_ns) + self.thread(
                tids.last(),
                watermark_ns,
                now_ns,
            ).discarded
        }
    }

    /// The intervals of threads without a known ID, none with a sample.
    pub open spec fn unmatched_results(self) -> Seq<(BpfEvent, Option<JvmEvent>)> {
        self.unmatched.map_values(|event: BpfEvent| (event, None::<JvmEvent>))
    }

    /// What a sweep gives out: the intervals of threads without a known ID,
    /// then those of each thread in the order of thread IDs.
    pub open spec fn sweep_results(
        self,
        watermark_ns: u64,
        now_ns: u64,
    ) -> Seq<(BpfEvent, Option<JvmEvent>)> {
        self.unmatched_results() + self.thread_results(
            order::ascending_keys(self.bpf.dom()),
            watermark_ns,
            now_ns,
        )
    }

    /// The stream once the threads `tids`, which have intervals, were swept.
    pub open spec fn swept_threads(
        self,
        tids: Seq<u32>,
        watermark_ns: u64,
        now_ns: u64,
    ) -> StreamView {
        StreamView {
            bpf: Map::new(
                |tid: u32|
                    self.bpf.contains_key(tid) && (tids.contains(tid) ==> self.thread(
                        tid,
                        watermark_ns,
                        now_ns,
                    ).bpf.len() > 0),
                |tid: u32|
                    if tids.contains(tid) {
                        self.thread(tid, watermark_ns, now_ns).bpf
                    } else {
                        self.bpf[tid]
                    },
            ),
            jvm: Map::new(
                |tid: u32|
                    self.jvm.contains_key(tid) && (tids.contains(tid) ==> self.thread(
                        tid,
                        watermark_ns,
                        now_ns,
                    ).jvm.len() > 0),
                |tid: u32|
                    if tids.contains(tid) {
                        self.thread(tid, watermark_ns, now_ns).jvm
                    } else {
                        self.jvm[tid]
                    },
            ),
            unmatched: seq![],
            discarded: self.discarded + self.thread_discards(tids, watermark_ns, now_ns),
        }
    }

    /// The stream after a sweep: every thread with intervals was swept, and a
    /// queue that has become empty is gone.
    pub open spec fn swept(self, watermark_ns: u64, now_ns: u64) -> StreamView {
        self.swept_threads(order::ascending_keys(self.bpf.dom()), watermark_ns, now_ns)
    }

    /// The intervals of some threads, none with a sample, in the order of the
    /// threads.
    pub open spec fn unsampled(self, tids: Seq<u32>) -> Seq<(BpfEvent, Option<JvmEvent>)>
        decreases tids.len(),
    {
        if tids.len() == 0 {
            seq![]
        } else {
            self.unsampled(tids.drop_last()) + self.intervals(tids.last()).map_values(
                |event: BpfEvent| (event, None::<JvmEvent>),
            )
        }
    }

    /// What is given out when no more samples and intervals are to come: all
    /// that a sweep past every watermark decides about, and then, without a
    /// sample, all that is left, in the order of thread IDs.
    pub open spec fn final_results(self, now_ns: u64) -> Seq<(BpfEvent, Option<JvmEvent>)> {
        let swept = self.swept(u64::MAX, now_ns);
        self.sweep_results(u64::MAX, now_ns) + swept.unsampled(
            order::ascending_keys(swept.bpf.dom()),
        )
    }

    /// The stream with one more interval of a thread.
    pub open spec fn with_interval(self, tid: u32, event: BpfEvent) -> StreamView {
        StreamView {
            bpf: self.bpf.insert(tid, arrival::arrived(self.intervals(tid), event)),
            ..self
        }
    }

    /// The stream with other samples.
    pub open spec fn with_samples(self, jvm: Map<u32, Seq<JvmEvent>>) -> StreamView {
        StreamView { jvm, ..self }
    }

    /// The stream with one more interval of a thread without a known ID.
    pub open spec fn with_unmatched(self, event: BpfEvent) -> StreamView {
        StreamView { unmatched: self.unmatched.push(event), ..self }
    }
}

impl View for EventStream {
    type V = StreamView;

    open spec fn view(&self) -> StreamView {
        StreamView {
            bpf: queues(self.bpf_events@),
            jvm: queues(self.jvm_events@),
            unmatched: self.unmatched_bpf_events@,
            discarded: self.discarded_jvm_events@,
        }
    }
}

impl EventStream {
    /// What is not queued is as it was.
    pub open spec fn keeps_the_rest_of(self, before: EventStream) -> bool {
        &&& self.event_count == before.event_count
        &&& self.ksyms == before.ksyms
        &&& self.native_symbolization_unavailable@ == before.native_symbolization_unavailable@
    }

    /// A stream with nothing queued, given the symbols of the kernel.
    pub fn new(kernel_symbols: &BTreeMap<u64, String>) -> (stream: EventStream)
        ensures
            stream@ == (StreamView {
                bpf: Map::empty(),
                jvm: Map::empty(),
                unmatched: seq![],
                discarded: seq![],
            }),
            stream.event_count == 0,
            stream.ksyms@ == symbols::names(kernel_symbols@),
            stream.native_symbolization_unavailable@ == Set::<u32>::empty(),
    {
        let stream = EventStream {
            bpf_events: HashMap::new(),
            unmatched_bpf_events: VecDeque::new(),
            event_count: 0,
            jvm_events: HashMap::new(),
            discarded_jvm_events: Vec::new(),
            ksyms: SymbolTable::new(kernel_symbols),
            native_symbolization_unavailable: HashSet::new(),
        };
        assert(stream@.bpf =~= Map::empty());
        assert(stream@.jvm =~= Map::empty());
        stream
    }

    /// Queues an interval of a thread, in the order of ends.
    pub fn enqueue_bpf_event(&mut self, tid: u32, event: BpfEvent)
        ensures
            final(self)@ == old(self)@.with_interval(tid, event),
            final(self).keeps_the_rest_of(*old(self)),
    {
        broadcast use vstd::std_specs::hash::group_hash_axioms;

        proof {
            lemma_queues_remove(self.bpf_events@, tid);
        }
        let ghost before = self@;
        let mut queue = match self.bpf_events.remove(&tid) {
            Some(queue) => queue,
            None => VecDeque::new(),
        };
        assert(queue@ == before.intervals(tid));
        let end_ns = event.end_monotonic_ns;
        let count = queue.len();
        let mut position: usize = count;
        if count > 0 && queue[count - 1].end_monotonic_ns > end_ns {
            position = 0;
            while queue[position].end_monotonic_ns <= end_ns
                invariant
                    count == queue@.len(),
                    0 <= position < count,
                    queue@[count - 1].end_monotonic_ns > end_ns,
                    forall|i: int|
                        0 <= i < position ==> (#[trigger] queue@[i]).end_monotonic_ns <= end_ns,
                decreases count - position,
            {
                position = position + 1;
            }
            proof {
                arrival::lemma_first_later(queue@, end_ns, position as int);
            }
        }
        queue.insert(position, event);
        proof {
            lemma_queues_insert(self.bpf_events@, tid, queue);
        }
        self.bpf_events.insert(tid, queue);
        assert(self@.bpf =~= before.with_interval(tid, event).bpf);
    }

    /// Takes the sample at the front of the queue if it belongs to an interval
    /// that ended at the given time.
    pub fn find_matching_jvm_event(
        monotonic_timestamp_ns: u64,
        jvm_queue: &mut VecDeque<JvmEvent>,
    ) -> (found: Option<JvmEvent>)
        ensures
            match found {
                Some(event) => {
                    &&& old(jvm_queue)@.len() > 0
                    &&& event == old(jvm_queue)@[0]
                    &&& correlate::matches(monotonic_timestamp_ns, event.monotonic_timestamp_ns)
                    &&& final(jvm_queue)@ == old(jvm_queue)@.skip(1)
                },
                None => {
                    &&& final(jvm_queue)@ == old(jvm_queue)@
                    &&& old(jvm_queue)@.len() > 0 ==> !correlate::matches(
                        monotonic_timestamp_ns,
                        old(jvm_queue)@[0].monotonic_timestamp_ns,
                    )
                },
            },
    {
        if jvm_queue.len() > 0 {
            let sample_ns = jvm_queue[0].monotonic_timestamp_ns;
            let delay = sample_ns.saturating_sub(monotonic_timestamp_ns);
            if sample_ns >= monotonic_timestamp_ns && delay < EVENT_MATCH_TIME_THRESHOLD_NS {
                return jvm_queue.pop_front();
            }
        }
        None
    }

    /// Drops the samples at the front that are stale for an interval.
    fn discard_stale(
        jvm_queue: &mut VecDeque<JvmEvent>,
        end_ns: u64,
        watermark_ns: u64,
        discarded: &mut Vec<JvmEvent>,
    )
        ensures
            ({
                let count = correlate::stale_len(old(jvm_queue)@, end_ns, watermark_ns) as int;
                &&& final(jvm_queue)@ == old(jvm_queue)@.skip(count)
                &&& final(discarded)@ == old(discarded)@ + old(jvm_queue)@.take(count)
                &&& 0 <= count <= old(jvm_queue)@.len()
            }),
    {
        let ghost jvm0 = jvm_queue@;
        let ghost mut gone: int = 0;
        while jvm_queue.len() > 0 && jvm_queue[0].monotonic_timestamp_ns <= watermark_ns
            && jvm_queue[0].monotonic_timestamp_ns < end_ns
            invariant
                0 <= gone <= jvm0.len(),
                jvm0 == old(jvm_queue)@,
                jvm_queue@ == jvm0.skip(gone),
                discarded@ == old(discarded)@ + jvm0.take(gone),
                correlate::stale_len(jvm0, end_ns, watermark_ns) == gone
                    + correlate::stale_len(jvm_queue@, end_ns, watermark_ns),
            decreases jvm_queue@.len(),
        {
            let ghost before = jvm_queue@;
            if let Some(event) = jvm_queue.pop_front() {
                discarded.push(event);
            }
            proof {
                assert(before.skip(1) =~= jvm_queue@);
                assert(jvm0.take(gone + 1) =~= jvm0.take(gone).push(jvm0[gone]));
                assert(jvm0.skip(gone + 1) =~= jvm_queue@);
                gone = gone + 1;
            }
        }
    }

    /// Sweeps the queues of one thread.
    fn sweep_queues(
        bpf_queue: &mut VecDeque<BpfEvent>,
        jvm_queue: &mut VecDeque<JvmEvent>,
        watermark_ns: u64,
        now_ns: u64,
        results: &mut Vec<(BpfEvent, Option<JvmEvent>)>,
        discarded: &mut Vec<JvmEvent>,
    )
        ensures
            ({
                let swept = correlate::sweep_thread(
                    old(bpf_queue)@,
                    old(jvm_queue)@,
                    watermark_ns,
                    now_ns,
                );
                &&& final(bpf_queue)@ == swept.bpf
                &&& final(jvm_queue)@ == swept.jvm
                &&& final(results)@ == old(results)@ + swept.results
                &&& final(discarded)@ == old(discarded)@ + swept.discarded
            }),
    {
        let ghost whole = correlate::sweep_thread(bpf_queue@, jvm_queue@, watermark_ns, now_ns);
        let ghost results0 = results@;
        let ghost discarded0 = discarded@;
        while bpf_queue.len() > 0
            invariant
                whole == correlate::sweep_thread(
                    old(bpf_queue)@,
                    old(jvm_queue)@,
                    watermark_ns,
                    now_ns,
                ),
                results0 == old(results)@,
                discarded0 == old(discarded)@,
                ({
                    let ahead = correlate::sweep_thread(
                        bpf_queue@,
                        jvm_queue@,
                        watermark_ns,
                        now_ns,
                    );
                    &&& ahead.bpf == whole.bpf
                    &&& ahead.jvm == whole.jvm
                    &&& results@ + ahead.results == results0 + whole.results
                    &&& discarded@ + ahead.discarded == discarded0 + whole.discarded
                }),
            decreases bpf_queue@.len(),
        {
            let ghost bpf0 = bpf_queue@;
            let ghost jvm0 = jvm_queue@;
            let ghost results1 = results@;
            let ghost discarded1 = discarded@;
            let ghost ahead = correlate::sweep_thread(bpf0, jvm0, watermark_ns, now_ns);
            let end_ns = bpf_queue[0].end_monotonic_ns;
            let signal_failed = bpf_queue[0].signal_result != 0;
            // A sample is neither consumed nor discarded until every CPU has
            // reported through its timestamp: an older interval of this thread
            // may still arrive from another CPU after a migration.
            Self::discard_stale(jvm_queue, end_ns, watermark_ns, discarded);
            let ghost dropped = jvm0.take(
                correlate::stale_len(jvm0, end_ns, watermark_ns) as int,
            );
            let ghost rest = jvm_queue@;
            if jvm_queue.len() > 0 && jvm_queue[0].monotonic_timestamp_ns > watermark_ns {
                assert(results@ + Seq::<(BpfEvent, Option<JvmEvent>)>::empty() =~= results@);
                return;
            }
            let has_newer_candidate = bpf_queue.len() > 1 && jvm_queue.len() > 0
                && bpf_queue[1].end_monotonic_ns <= jvm_queue[0].monotonic_timestamp_ns;
            let jvm_event = if signal_failed || has_newer_candidate {
                None
            } else {
                let found = Self::find_matching_jvm_event(end_ns, jvm_queue);
                if found.is_none() && jvm_queue.len() == 0 && now_ns.saturating_sub(end_ns)
                    < EVENT_MATCH_GIVEUP_TIME_NS {
                    assert(results@ + Seq::<(BpfEvent, Option<JvmEvent>)>::empty() =~= results@);
                    return;
                }
                found
            };
            if let Some(bpf_event) = bpf_queue.pop_front() {
                results.push((bpf_event, jvm_event));
            }
            proof {
                assert(bpf0.skip(1) =~= bpf_queue@);
                let next = correlate::sweep_thread(bpf_queue@, jvm_queue@, watermark_ns, now_ns);
                assert(results1 + (seq![(bpf0[0], jvm_event)] + next.results) =~= results@
                    + next.results);
                assert(discarded1 + (dropped + next.discarded) =~= discarded@ + next.discarded);
            }
        }
        assert(results@ + Seq::<(BpfEvent, Option<JvmEvent>)>::empty() =~= results@);
        assert(discarded@ + Seq::<JvmEvent>::empty() =~= discarded@);
    }

    /// Sweeps the stream at a given time.
    ///
    /// Intervals of threads without a known ID leave first. Then each thread's
    /// intervals leave, in the order of thread IDs, as far as the samples up to
    /// the watermark and the time decide about them.
    pub fn sweep_at(&mut self, correlation_watermark_ns: u64, now_monotonic_ns: u64) -> (results:
        Vec<(BpfEvent, Option<JvmEvent>)>)
        ensures
            results@ == old(self)@.sweep_results(correlation_watermark_ns, now_monotonic_ns),
            final(self)@ == old(self)@.swept(correlation_watermark_ns, now_monotonic_ns),
            final(self).keeps_the_rest_of(*old(self)),
    {
        broadcast use vstd::std_specs::hash::group_hash_axioms;

        let ghost before = self@;
        let mut results: Vec<(BpfEvent, Option<JvmEvent>)> = Vec::new();
        while self.unmatched_bpf_events.len() > 0
            invariant
                before == old(self)@,
                self@ == (StreamView { unmatched: self@.unmatched, ..before }),
                self.keeps_the_rest_of(*old(self)),
                results@ + self@.unmatched_results() == before.unmatched_results(),
            decreases self.unmatched_bpf_events@.len(),
        {
            let ghost left = self@.unmatched;
            if let Some(event) = self.unmatched_bpf_events.pop_front() {
                results.push((event, None));
            }
            assert(self@.unmatched =~= left.skip(1));
        }
        assert(results@ =~= before.unmatched_results());
        let tids = order::sorted_keys(&self.bpf_events);
        assert(queues(self.bpf_events@).dom() =~= self.bpf_events@.dom());
        let mut i: usize = 0;
        assert(tids@.take(0) =~= seq![]);
        assert(self@ =~= before.swept_threads(
            tids@.take(0),
            correlation_watermark_ns,
            now_monotonic_ns,
        ));
        while i < tids.len()
            invariant
                0 <= i <= tids@.len(),
                order::ascending(tids@),
                tids@.to_set() == before.bpf.dom(),
                self.keeps_the_rest_of(*old(self)),
                self@ == before.swept_threads(
                    tids@.take(i as int),
                    correlation_watermark_ns,
                    now_monotonic_ns,
                ),
                results@ == before.unmatched_results() + before.thread_results(
                    tids@.take(i as int),
                    correlation_watermark_ns,
                    now_monotonic_ns,
                ),
            decreases tids@.len() - i,
        {
            let tid = tids[i];
            let ghost done = tids@.take(i as int);
            let ghost next = tids@.take(i + 1);
            let ghost at = self@;
            let ghost maps = (self.bpf_events@, self.jvm_events@);
            proof {
                assert(next =~= done.push(tid));
                assert(next.drop_last() =~= done);
                assert(!done.contains(tid));
                assert(tids@.to_set().contains(tid));
                lemma_queues_remove(self.bpf_events@, tid);
                lemma_queues_remove(self.jvm_events@, tid);
                assert(before.bpf.contains_key(tid));
                assert(at.bpf.contains_key(tid) && at.bpf[tid] == before.bpf[tid]);
                assert(at.jvm.contains_key(tid) == before.jvm.contains_key(tid));
                assert(at.jvm.contains_key(tid) ==> at.jvm[tid] == before.jvm[tid]);
                assert(at.bpf[tid] == maps.0[tid]@);
                assert(at.jvm.contains_key(tid) ==> at.jvm[tid] == maps.1[tid]@);
            }
            let mut bpf_queue = match self.bpf_events.remove(&tid) {
                Some(queue) => queue,
                None => VecDeque::new(),
            };
            let mut jvm_queue = match self.jvm_events.remove(&tid) {
                Some(queue) => queue,
                None => VecDeque::new(),
            };
            assert(bpf_queue@ == before.intervals(tid));
            assert(jvm_queue@ == before.samples(tid));
            Self::sweep_queues(
                &mut bpf_queue,
                &mut jvm_queue,
                correlation_watermark_ns,
                now_monotonic_ns,
                &mut results,
                &mut self.discarded_jvm_events,
            );
            proof {
                correlate::law_samples_wait_for_the_watermark(
                    before.intervals(tid),
                    before.samples(tid),
                    correlation_watermark_ns,
                    now_monotonic_ns,
                );
            }
            if jvm_queue.len() > 0 {
                proof {
                    lemma_queues_insert(self.jvm_events@, tid, jvm_queue);
                }
                self.jvm_events.insert(tid, jvm_queue);
            }
            if bpf_queue.len() > 0 {
                proof {
                    lemma_queues_insert(self.bpf_events@, tid, bpf_queue);
                }
                self.bpf_events.insert(tid, bpf_queue);
            }
            proof {
                let after = before.swept_threads(next, correlation_watermark_ns, now_monotonic_ns);
                assert(self@.bpf =~= after.bpf);
                assert(self@.jvm =~= after.jvm);
                assert(self@.discarded =~= after.discarded);
            }
            i = i + 1;
        }
        assert(tids@.take(i as int) =~= tids@);
        results
    }

    /// Sweeps the stream at the present time.
    pub fn sweep(&mut self, correlation_watermark_ns: u64) -> (results: Vec<
        (BpfEvent, Option<JvmEvent>),
    >)
        ensures
            exists|now_ns: u64|
                {
                    &&& clock::is_monotonic_reading(now_ns)
                    &&& results@ == old(self)@.sweep_results(correlation_watermark_ns, now_ns)
                    &&& final(self)@ == #[trigger] old(self)@.swept(
                        correlation_watermark_ns,
                        now_ns,
                    )
                },
            final(self).keeps_the_rest_of(*old(self)),
    {
        let now_monotonic_ns = clock::monotonic_time_ns();
        self.sweep_at(correlation_watermark_ns, now_monotonic_ns)
    }

    /// Empties the stream at a given time: no more intervals and samples are to
    /// come.
    pub fn sweep_remaining_at(&mut self, now_monotonic_ns: u64) -> (results: Vec<
        (BpfEvent, Option<JvmEvent>),
    >)
        ensures
            results@ == old(self)@.final_results(now_monotonic_ns),
            final(self)@ == (StreamView {
                bpf: Map::empty(),
                jvm: Map::empty(),
                unmatched: seq![],
                discarded: old(self)@.swept(u64::MAX, now_monotonic_ns).discarded,
            }),
            final(self).keeps_the_rest_of(*old(self)),
    {
        broadcast use vstd::std_specs::hash::group_hash_axioms;

        let mut results = self.sweep_at(u64::MAX, now_monotonic_ns);
        let ghost swept = self@;
        let ghost given = results@;
        let tids = order::sorted_keys(&self.bpf_events);
        assert(queues(self.bpf_events@).dom() =~= self.bpf_events@.dom());
        let mut i: usize = 0;
        assert(tids@.take(0) =~= seq![]);
        assert(results@ =~= given + swept.unsampled(tids@.take(0)));
        while i < tids.len()
            invariant
                0 <= i <= tids@.len(),
                order::ascending(tids@),
                tids@.to_set() == swept.bpf.dom(),
                self.keeps_the_rest_of(*old(self)),
                self@.unmatched == swept.unmatched,
                self@.discarded == swept.discarded,
                forall|k: int|
                    i <= k < tids@.len() ==> self@.bpf.contains_key(#[trigger] tids@[k])
                        && self@.bpf[tids@[k]] == swept.bpf[tids@[k]],
                results@ == given + swept.unsampled(tids@.take(i as int)),
            decreases tids@.len() - i,
        {
            let tid = tids[i];
            let ghost next = tids@.take(i + 1);
            let ghost map = self.bpf_events@;
            let ghost done = results@;
            proof {
                assert(next.drop_last() =~= tids@.take(i as int));
                lemma_queues_remove(map, tid);
                assert(self@.bpf.contains_key(tids@[i as int]));
                assert(queues(map)[tid] == map[tid]@);
            }
            let mut queue = match self.bpf_events.remove(&tid) {
                Some(queue) => queue,
                None => VecDeque::new(),
            };
            let ghost whole = queue@;
            assert(tids@.to_set().contains(tid));
            assert(whole == swept.intervals(tid));
            let ghost given_out = whole.map_values(|event: BpfEvent| (event, None::<JvmEvent>));
            while queue.len() > 0
                invariant
                    given_out == whole.map_values(|event: BpfEvent| (event, None::<JvmEvent>)),
                    queue@.len() <= whole.len(),
                    queue@ == whole.skip(whole.len() - queue@.len()),
                    results@ == done + given_out.take(whole.len() - queue@.len()),
                decreases queue@.len(),
            {
                let ghost k = whole.len() - queue@.len();
                // With no watermark, a thread that still has intervals has no
                // samples, so there is nothing to match against.
                if let Some(event) = queue.pop_front() {
                    results.push((event, None));
                }
                assert(given_out.take(k + 1) =~= given_out.take(k).push(given_out[k]));
            }
            assert(given_out.take(whole.len() as int) =~= given_out);
            assert(results@ =~= given + swept.unsampled(next));
            i = i + 1;
        }
        assert(tids@.take(i as int) =~= tids@);
        self.bpf_events.clear();
        self.jvm_events.clear();
        assert(self@.bpf =~= Map::empty());
        assert(self@.jvm =~= Map::empty());
        results
    }

    /// Empties the stream at the present time.
    pub fn sweep_remaining(&mut self) -> (results: Vec<(BpfEvent, Option<JvmEvent>)>)
        ensures
            exists|now_ns: u64|
                {
                    &&& clock::is_monotonic_reading(now_ns)
                    &&& results@ == #[trigger] old(self)@.final_results(now_ns)
                    &&& final(self)@ == (StreamView {
                        bpf: Map::empty(),
                        jvm: Map::empty(),
                        unmatched: seq![],
                        discarded: old(self)@.swept(u64::MAX, now_ns).discarded,
                    })
                },
            final(self).keeps_the_rest_of(*old(self)),
    {
        let now_monotonic_ns = clock::monotonic_time_ns();
        self.sweep_remaining_at(now_monotonic_ns)
    }

    /// Takes the samples that sweeps have dropped, oldest first.
    pub fn take_discarded(&mut self) -> (discarded: Vec<JvmEvent>)
        ensures
            discarded@ == old(self)@.discarded,
            final(self)@ == (StreamView { discarded: seq![], ..old(self)@ }),
            final(self).keeps_the_rest_of(*old(self)),
    {
        let mut discarded: Vec<JvmEvent> = Vec::new();
        discarded.append(&mut self.discarded_jvm_events);
        discarded
    }

    /// A notice that a sample was dropped.
    pub fn trash_jvm_event(event: &JvmEvent) -> (notice: String)
        ensures
            notice@ == discard_notice(*event),
    {
        let mut out = String::new();
        text::append(&mut out, "DISCARDED AP EVENT tid=");
        text::append_decimal(&mut out, event.tid as u64);
        text::append(&mut out, ", timestamp=");
        text::append_decimal(&mut out, event.timestamp);
        text::append(&mut out, "\n");
        let ghost header = out@;
        let mut i: usize = 0;
        assert(event.frames@.take(0) =~= seq![]);
        while i < event.frames.len()
            invariant
                0 <= i <= event.frames@.len(),
                out@ == header + frame_notices(event.frames@.take(i as int)),
            decreases event.frames@.len() - i,
        {
            let ghost before = out@;
            let frame = &event.frames[i];
            text::append_decimal(&mut out, i as u64);
            text::append(&mut out, ": [0x");
            text::append_hexadecimal(&mut out, frame.method_id);
            text::append(&mut out, "] ");
            text::append(&mut out, frame.symbol.as_str());
            if i > 0 {
                text::append(&mut out, "\n");
            }
            proof {
                let next = event.frames@.take(i + 1);
                assert(next.drop_last() =~= event.frames@.take(i as int));
                assert(out@ =~= before + frame_notice(i as nat, *frame));
                assert(out@ =~= header + frame_notices(next));
            }
            i = i + 1;
        }
        assert(event.frames@.take(i as int) =~= event.frames@);
        out
    }
}

/// A frame in a notice: its position, the method, and what the method is
/// called. Every frame but the first ends its line.
pub open spec fn frame_notice(position: nat, frame: JvmFrame) -> Seq<char> {
    text::decimal(position) + ": [0x"@ + text::hexadecimal(frame.method_id as nat) + "] "@
        + frame.symbol@ + if position > 0 {
        "\n"@
    } else {
        seq![]
    }
}

/// The frames in a notice.
pub open spec fn frame_notices(frames: Seq<JvmFrame>) -> Seq<char>
    decreases frames.len(),
{
    if frames.len() == 0 {
        seq![]
    } else {
        frame_notices(frames.drop_last()) + frame_notice(
            (frames.len() - 1) as nat,
            frames.last(),
        )
    }
}

/// The notice that a sample was dropped.
pub open spec fn discard_notice(event: JvmEvent) -> Seq<char> {
    "DISCARDED AP EVENT tid="@ + text::decimal(event.tid as nat) + ", timestamp="@
        + text::decimal(event.timestamp as nat) + "\n"@ + frame_notices(event.frames@)
}

/// A notice that a sample was dropped shows its thread and its time and then every
/// frame with its position, its method in hexadecimal and its symbol. Every frame but
/// the first ends its line.
pub proof fn law_every_frame_of_a_dropped_sample_is_noted(
    event: JvmEvent,
    frames: Seq<JvmFrame>,
    frame: JvmFrame,
)
    ensures
        discard_notice(event) == "DISCARDED AP EVENT tid="@ + text::decimal(event.tid as nat)
            + ", timestamp="@ + text::decimal(event.timestamp as nat) + "\n"@ + frame_notices(
            event.frames@,
        ),
        frame_notices(seq![]).len() == 0,
        frame_notices(frames.push(frame)) == frame_notices(frames) + text::decimal(frames.len())
            + ": [0x"@ + text::hexadecimal(frame.method_id as nat) + "] "@ + frame.symbol@ + (
        if frames.len() > 0 {
            "\n"@
        } else {
            seq![]
        }),
{
    let longer = frames.push(frame);
    let end = if frames.len() > 0 {
        "\n"@
    } else {
        seq![]
    };
    assert(longer.drop_last() =~= frames);
    assert(frame_notices(longer) =~= frame_notices(frames) + text::decimal(frames.len())
        + ": [0x"@ + text::hexadecimal(frame.method_id as nat) + "] "@ + frame.symbol@ + end);
}

} // verus!
