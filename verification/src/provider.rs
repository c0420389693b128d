//! Where JVM stack samples come from.

use std::collections::{HashMap, VecDeque};

use vstd::prelude::*;

use crate::events::JvmEvent;
use crate::stream;

verus! {

/// The error that something failed with, if it did.
pub open spec fn failure_of(result: Result<(), String>) -> Option<String> {
    match result {
        Ok(_) => None,
        Err(error) => Some(error),
    }
}

/// A source of JVM stack samples.
///
/// What a source does is its own affair. It may say so by two relations, of which
/// nothing is presumed: by them a caller can say that what it gives out is due to
/// what the source did. A source that says nothing may do anything.
pub trait JvmStackTraceProvider: Sized {
    /// Filling queues turns the source `before` and its queues into those `after`,
    /// and fails with an error or does not fail.
    open spec fn fills(
        before: Self,
        queues_before: Map<u32, Seq<JvmEvent>>,
        after: Self,
        queues_after: Map<u32, Seq<JvmEvent>>,
        failure: Option<String>,
    ) -> bool {
        true
    }

    /// Stopping turns the source `before` into the one `after`, and fails with an
    /// error or does not fail.
    open spec fn stops(before: Self, after: Self, failure: Option<String>) -> bool {
        true
    }

    /// Appends the samples that have come in to the queues of their threads.
    fn fill_queue(&mut self, queues: &mut HashMap<u32, VecDeque<JvmEvent>>) -> (result: Result<
        (),
        String,
    >)
        ensures
            Self::fills(
                *old(self),
                stream::queues(old(queues)@),
                *final(self),
                stream::queues(final(queues)@),
                failure_of(result),
            ),
    ;

    /// Stops sampling. A source that need not be stopped has nothing to do.
    fn stop(&mut self) -> (result: Result<(), String>)
        ensures
            (result is Ok && *final(self) == *old(self)) || Self::stops(
                *old(self),
                *final(self),
                failure_of(result),
            ),
    {
        Ok(())
    }
}

/// The queues with the samples that could be read appended to those of their
/// threads.
pub open spec fn with_samples(
    queues: Map<u32, Seq<JvmEvent>>,
    read: Seq<Option<JvmEvent>>,
) -> Map<u32, Seq<JvmEvent>>
    decreases read.len(),
{
    if read.len() == 0 {
        queues
    } else {
        let before = with_samples(queues, read.drop_last());
        match read.last() {
            Some(sample) => before.insert(
                sample.tid,
                queue_of(before, sample.tid).push(sample),
            ),
            None => before,
        }
    }
}

/// How many samples could be read.
pub open spec fn readable(read: Seq<Option<JvmEvent>>) -> nat
    decreases read.len(),
{
    if read.len() == 0 {
        0
    } else {
        readable(read.drop_last()) + if read.last() is Some {
            1nat
        } else {
            0nat
        }
    }
}

/// The queue of a thread, empty where there is none.
pub open spec fn queue_of(queues: Map<u32, Seq<JvmEvent>>, tid: u32) -> Seq<JvmEvent> {
    if queues.contains_key(tid) {
        queues[tid]
    } else {
        seq![]
    }
}

/// The samples of a thread among those that could be read.
pub open spec fn samples_of(read: Seq<Option<JvmEvent>>, tid: u32) -> Seq<JvmEvent>
    decreases read.len(),
{
    if read.len() == 0 {
        seq![]
    } else {
        let before = samples_of(read.drop_last(), tid);
        match read.last() {
            Some(sample) => if sample.tid == tid {
                before.push(sample)
            } else {
                before
            },
            None => before,
        }
    }
}

/// Each thread's queue gets the samples of that thread and no others, in the
/// order in which they were read.
pub proof fn law_samples_reach_the_queue_of_their_thread(
    queues: Map<u32, Seq<JvmEvent>>,
    read: Seq<Option<JvmEvent>>,
    tid: u32,
)
    ensures
        queue_of(with_samples(queues, read), tid) == queue_of(queues, tid) + samples_of(read, tid),
    decreases read.len(),
{
    if read.len() > 0 {
        law_samples_reach_the_queue_of_their_thread(queues, read.drop_last(), tid);
    }
    assert(queue_of(with_samples(queues, read), tid) =~= queue_of(queues, tid) + samples_of(
        read,
        tid,
    ));
}

/// Appends samples to the queues of their threads, in order, and counts them.
/// Lines that could not be read as a sample are skipped.
pub fn enqueue_jvm_events(
    queues: &mut HashMap<u32, VecDeque<JvmEvent>>,
    read: Vec<Option<JvmEvent>>,
) -> (count: usize)
    ensures
        stream::queues(final(queues)@) == with_samples(stream::queues(old(queues)@), read@),
        count == readable(read@),
{
    broadcast use vstd::std_specs::hash::group_hash_axioms;

    let ghost before = stream::queues(queues@);
    let ghost whole = read@;
    let mut count: usize = 0;
    let total = read.len();
    assert(whole.take(0) =~= seq![]);
    for sample in iter: read.into_iter()
        invariant
            iter.seq() == whole,
            whole.len() == total,
            count == readable(whole.take(iter.index() as int)),
            count <= iter.index(),
            stream::queues(queues@) == with_samples(before, whole.take(iter.index() as int)),
            iter.index() == whole.len() ==> whole.take(iter.index() as int) == whole,
    {
        let ghost done = whole.take(iter.index() as int);
        let ghost next = whole.take(iter.index() as int + 1);
        assert(next.drop_last() =~= done);
        assert(next.last() == sample);
        if let Some(event) = sample {
            let tid = event.tid;
            let ghost at = queues@;
            proof {
                stream::lemma_queues_remove(at, tid);
            }
            let mut queue = match queues.remove(&tid) {
                Some(queue) => queue,
                None => VecDeque::new(),
            };
            assert(queue@ == queue_of(stream::queues(at), tid));
            queue.push_back(event);
            proof {
                stream::lemma_queues_insert(queues@, tid, queue);
            }
            queues.insert(tid, queue);
            assert(stream::queues(queues@) =~= with_samples(before, next));
            count = count + 1;
        }
    }
    count
}

/// One more sample goes to the end of the queue of its thread; the queues of other
/// threads stay as they are, and a line that could not be read changes nothing.
pub proof fn law_a_sample_is_appended_to_the_queue_of_its_thread(
    queues: Map<u32, Seq<JvmEvent>>,
    read: Seq<Option<JvmEvent>>,
    sample: JvmEvent,
    other: u32,
)
    ensures
        with_samples(queues, seq![]) == queues,
        readable(seq![]) == 0,
        with_samples(queues, read.push(None)) == with_samples(queues, read),
        readable(read.push(None)) == readable(read),
        readable(read.push(Some(sample))) == readable(read) + 1,
        ({
            let before = with_samples(queues, read);
            let after = with_samples(queues, read.push(Some(sample)));
            &&& after.contains_key(sample.tid)
            &&& after[sample.tid] == if before.contains_key(sample.tid) {
                before[sample.tid].push(sample)
            } else {
                seq![sample]
            }
            &&& other != sample.tid ==> after.contains_key(other) == before.contains_key(other)
            &&& other != sample.tid && before.contains_key(other) ==> after[other] == before[other]
        }),
{
    assert(read.push(None).drop_last() =~= read);
    assert(read.push(Some(sample)).drop_last() =~= read);
    assert(Seq::<JvmEvent>::empty().push(sample) =~= seq![sample]);
}

} // verus!
