//! Where an interval goes that arrives after later ones.
//!
//! Intervals of one thread may reach user space out of order when the thread
//! has moved between CPUs. The queue keeps them in the order of their ends.

use vstd::prelude::*;

use crate::correlate;
use crate::events::{BpfEvent, JvmEvent};

verus! {

/// How many intervals at the front of a queue ended no later than a time.
pub open spec fn not_later_len(queue: Seq<BpfEvent>, end_ns: u64) -> nat
    decreases queue.len(),
{
    if queue.len() > 0 && queue[0].end_monotonic_ns <= end_ns {
        1 + not_later_len(queue.skip(1), end_ns)
    } else {
        0
    }
}

/// Where an interval that ended at a time is put: at the back if the last
/// interval ended no later, else before the first that ended later.
pub open spec fn arrival_position(queue: Seq<BpfEvent>, end_ns: u64) -> int {
    if queue.len() > 0 && queue.last().end_monotonic_ns > end_ns {
        not_later_len(queue, end_ns) as int
    } else {
        queue.len() as int
    }
}

/// The queue with one more interval.
pub open spec fn arrived(queue: Seq<BpfEvent>, event: BpfEvent) -> Seq<BpfEvent> {
    queue.insert(arrival_position(queue, event.end_monotonic_ns), event)
}

/// The queue with more intervals, which arrive one after the other.
pub open spec fn all_arrived(queue: Seq<BpfEvent>, late: Seq<BpfEvent>) -> Seq<BpfEvent>
    decreases late.len(),
{
    if late.len() == 0 {
        queue
    } else {
        arrived(all_arrived(queue, late.drop_last()), late.last())
    }
}

pub proof fn lemma_not_later(queue: Seq<BpfEvent>, end_ns: u64)
    ensures
        not_later_len(queue, end_ns) <= queue.len(),
        forall|i: int|
            0 <= i < not_later_len(queue, end_ns) ==> (#[trigger] queue[i]).end_monotonic_ns
                <= end_ns,
        not_later_len(queue, end_ns) < queue.len() ==> queue[not_later_len(
            queue,
            end_ns,
        ) as int].end_monotonic_ns > end_ns,
    decreases queue.len(),
{
    if queue.len() > 0 && queue[0].end_monotonic_ns <= end_ns {
        lemma_not_later(queue.skip(1), end_ns);
        assert forall|i: int| 0 <= i < not_later_len(queue, end_ns) implies (
        #[trigger] queue[i]).end_monotonic_ns <= end_ns by {
            if i > 0 {
                assert(queue[i] == queue.skip(1)[i - 1]);
            }
        }
    }
}

/// The first interval that ended later is where the count of earlier ones says.
pub proof fn lemma_first_later(queue: Seq<BpfEvent>, end_ns: u64, position: int)
    requires
        0 <= position < queue.len(),
        forall|i: int| 0 <= i < position ==> (#[trigger] queue[i]).end_monotonic_ns <= end_ns,
        queue[position].end_monotonic_ns > end_ns,
    ensures
        not_later_len(queue, end_ns) == position,
{
    lemma_not_later(queue, end_ns);
    let count = not_later_len(queue, end_ns) as int;
    if count < position {
        assert(queue[count].end_monotonic_ns <= end_ns);
    } else if count > position {
        assert(queue[position].end_monotonic_ns <= end_ns);
    }
}

/// An interval that arrives late is placed chronologically: the queue stays in
/// the order of ends, whatever the order of arrival.
pub proof fn law_arrivals_keep_the_queue_chronological(queue: Seq<BpfEvent>, event: BpfEvent)
    requires
        correlate::chronological(queue),
    ensures
        correlate::chronological(arrived(queue, event)),
{
    let end_ns = event.end_monotonic_ns;
    lemma_not_later(queue, end_ns);
    let at = arrival_position(queue, end_ns);
    let longer = arrived(queue, event);
    assert forall|i: int, j: int| 0 <= i < j < longer.len() implies longer[i].end_monotonic_ns
        <= longer[j].end_monotonic_ns by {
        assert(longer[i] == if i < at {
            queue[i]
        } else if i == at {
            event
        } else {
            queue[i - 1]
        });
        assert(longer[j] == if j < at {
            queue[j]
        } else if j == at {
            event
        } else {
            queue[j - 1]
        });
    }
}

/// In a chronological queue everything before the position ended no later,
/// everything from it on ended later.
proof fn lemma_position(queue: Seq<BpfEvent>, end_ns: u64)
    requires
        correlate::chronological(queue),
    ensures
        0 <= arrival_position(queue, end_ns) <= queue.len(),
        forall|i: int|
            0 <= i < arrival_position(queue, end_ns) ==> (#[trigger] queue[i]).end_monotonic_ns
                <= end_ns,
        forall|i: int|
            arrival_position(queue, end_ns) <= i < queue.len() ==> (
            #[trigger] queue[i]).end_monotonic_ns > end_ns,
{
    lemma_not_later(queue, end_ns);
    let at = arrival_position(queue, end_ns);
    if at == queue.len() {
        assert forall|i: int| 0 <= i < at implies (#[trigger] queue[i]).end_monotonic_ns
            <= end_ns by {
            if i < queue.len() - 1 {
                assert(queue[i].end_monotonic_ns <= queue.last().end_monotonic_ns);
            }
        }
    } else {
        assert forall|i: int| at <= i < queue.len() implies (#[trigger] queue[i]).end_monotonic_ns
            > end_ns by {
            if i > at {
                assert(queue[at].end_monotonic_ns <= queue[i].end_monotonic_ns);
            }
        }
    }
}

/// That position is the only one.
proof fn lemma_position_is(queue: Seq<BpfEvent>, end_ns: u64, at: int)
    requires
        correlate::chronological(queue),
        0 <= at <= queue.len(),
        forall|i: int| 0 <= i < at ==> (#[trigger] queue[i]).end_monotonic_ns <= end_ns,
        forall|i: int| at <= i < queue.len() ==> (#[trigger] queue[i]).end_monotonic_ns > end_ns,
    ensures
        arrival_position(queue, end_ns) == at,
{
    lemma_position(queue, end_ns);
    let p = arrival_position(queue, end_ns);
    if p < at {
        assert(queue[p].end_monotonic_ns > end_ns);
    } else if at < p {
        assert(queue[at].end_monotonic_ns > end_ns);
    }
}

/// Element by element, what an insertion gives.
proof fn lemma_insert(queue: Seq<BpfEvent>, at: int, event: BpfEvent)
    requires
        0 <= at <= queue.len(),
    ensures
        queue.insert(at, event).len() == queue.len() + 1,
        forall|i: int|
            0 <= i <= queue.len() ==> #[trigger] queue.insert(at, event)[i] == (if i < at {
                queue[i]
            } else if i == at {
                event
            } else {
                queue[i - 1]
            }),
{
}

proof fn lemma_earlier_and_later_arrival(
    queue: Seq<BpfEvent>,
    earlier: BpfEvent,
    later: BpfEvent,
)
    requires
        correlate::chronological(queue),
        earlier.end_monotonic_ns < later.end_monotonic_ns,
    ensures
        arrived(arrived(queue, earlier), later) == arrived(arrived(queue, later), earlier),
{
    let p = arrival_position(queue, earlier.end_monotonic_ns);
    let q = arrival_position(queue, later.end_monotonic_ns);
    lemma_position(queue, earlier.end_monotonic_ns);
    lemma_position(queue, later.end_monotonic_ns);
    if q < p {
        assert(queue[q].end_monotonic_ns > later.end_monotonic_ns);
    }
    law_arrivals_keep_the_queue_chronological(queue, earlier);
    law_arrivals_keep_the_queue_chronological(queue, later);
    let a = arrived(queue, earlier);
    let b = arrived(queue, later);
    lemma_insert(queue, p, earlier);
    lemma_insert(queue, q, later);
    lemma_position_is(a, later.end_monotonic_ns, q + 1);
    lemma_position_is(b, earlier.end_monotonic_ns, p);
    lemma_insert(a, q + 1, later);
    lemma_insert(b, p, earlier);
    assert forall|i: int| 0 <= i < queue.len() + 2 implies #[trigger] a.insert(q + 1, later)[i]
        == b.insert(p, earlier)[i] by {}
    assert(a.insert(q + 1, later) =~= b.insert(p, earlier));
}

/// The order in which two intervals arrive does not matter, unless they ended at
/// the same time.
pub proof fn law_the_order_of_arrival_does_not_matter(
    queue: Seq<BpfEvent>,
    first: BpfEvent,
    second: BpfEvent,
)
    requires
        correlate::chronological(queue),
        first.end_monotonic_ns != second.end_monotonic_ns || first == second,
    ensures
        arrived(arrived(queue, first), second) == arrived(arrived(queue, second), first),
{
    if first.end_monotonic_ns < second.end_monotonic_ns {
        lemma_earlier_and_later_arrival(queue, first, second);
    } else if second.end_monotonic_ns < first.end_monotonic_ns {
        lemma_earlier_and_later_arrival(queue, second, first);
    }
}

/// Late arrivals keep the queue chronological and change nothing else: what
/// was queued and what arrived is there, and nothing else is.
proof fn lemma_all_arrived(queue: Seq<BpfEvent>, late: Seq<BpfEvent>)
    requires
        correlate::chronological(queue),
    ensures
        correlate::chronological(all_arrived(queue, late)),
        all_arrived(queue, late).len() == queue.len() + late.len(),
        forall|event: BpfEvent|
            all_arrived(queue, late).contains(event) <==> queue.contains(event) || late.contains(
                event,
            ),
    decreases late.len(),
{
    if late.len() > 0 {
        let before = all_arrived(queue, late.drop_last());
        let event = late.last();
        lemma_all_arrived(queue, late.drop_last());
        law_arrivals_keep_the_queue_chronological(before, event);
        lemma_position(before, event.end_monotonic_ns);
        let at = arrival_position(before, event.end_monotonic_ns);
        let after = all_arrived(queue, late);
        assert forall|x: BpfEvent|
            after.contains(x) <==> queue.contains(x) || late.contains(x) by {
            if after.contains(x) {
                let i = choose|i: int| 0 <= i < after.len() && after[i] == x;
                if i < at {
                    assert(before[i] == x);
                } else if i > at {
                    assert(before[i - 1] == x);
                } else {
                    assert(late[late.len() - 1] == x);
                }
                if late.drop_last().contains(x) {
                    let k = choose|k: int| 0 <= k < late.len() - 1 && late.drop_last()[k] == x;
                    assert(late[k] == x);
                }
            }
            if queue.contains(x) || late.contains(x) {
                if x == event {
                    assert(after[at] == x);
                } else {
                    if late.contains(x) {
                        let k = choose|k: int| 0 <= k < late.len() && late[k] == x;
                        assert(late.drop_last()[k] == x);
                        assert(late.drop_last().contains(x));
                    }
                    assert(before.contains(x));
                    let i = choose|i: int| 0 <= i < before.len() && before[i] == x;
                    if i < at {
                        assert(after[i] == x);
                    } else {
                        assert(after[i + 1] == x);
                    }
                }
            }
        }
    }
}

/// Arrivals that ended no earlier than the front interval leave it in front.
proof fn lemma_front_stays(queue: Seq<BpfEvent>, late: Seq<BpfEvent>)
    requires
        correlate::chronological(queue),
        queue.len() > 0,
        forall|i: int|
            0 <= i < late.len() ==> (#[trigger] late[i]).end_monotonic_ns
                >= queue[0].end_monotonic_ns,
    ensures
        all_arrived(queue, late) == seq![queue[0]] + all_arrived(queue.skip(1), late),
    decreases late.len(),
{
    if late.len() == 0 {
        assert(queue =~= seq![queue[0]] + queue.skip(1));
    } else {
        let fewer = late.drop_last();
        let event = late.last();
        let end_ns = event.end_monotonic_ns;
        lemma_front_stays(queue, fewer);
        lemma_all_arrived(queue, fewer);
        lemma_all_arrived(queue.skip(1), fewer);
        let whole = all_arrived(queue, fewer);
        let part = all_arrived(queue.skip(1), fewer);
        lemma_position(part, end_ns);
        let at = arrival_position(part, end_ns);
        assert forall|i: int| 0 <= i < at + 1 implies (#[trigger] whole[i]).end_monotonic_ns
            <= end_ns by {
            if i > 0 {
                assert(whole[i] == part[i - 1]);
            }
        }
        assert forall|i: int| at + 1 <= i < whole.len() implies (
        #[trigger] whole[i]).end_monotonic_ns > end_ns by {
            assert(whole[i] == part[i - 1]);
        }
        lemma_position_is(whole, end_ns, at + 1);
        assert(arrived(whole, event) =~= seq![queue[0]] + arrived(part, event));
    }
}

/// Samples at the front that are stale for the front interval make no
/// difference but to be dropped.
proof fn lemma_stale_samples_are_dropped(
    bpf: Seq<BpfEvent>,
    jvm: Seq<JvmEvent>,
    count: int,
    watermark_ns: u64,
    now_ns: u64,
)
    requires
        bpf.len() > 0,
        0 <= count <= jvm.len(),
        forall|i: int|
            0 <= i < count ==> correlate::stale(#[trigger] jvm[i], bpf[0].end_monotonic_ns, watermark_ns),
    ensures
        ({
            let whole = correlate::sweep_thread(bpf, jvm, watermark_ns, now_ns);
            let rest = correlate::sweep_thread(bpf, jvm.skip(count), watermark_ns, now_ns);
            &&& whole.bpf == rest.bpf
            &&& whole.jvm == rest.jvm
            &&& whole.results == rest.results
            &&& whole.discarded == jvm.take(count) + rest.discarded
        }),
{
    let end_ns = bpf[0].end_monotonic_ns;
    let n = correlate::stale_len(jvm.skip(count), end_ns, watermark_ns) as int;
    lemma_stale_len_skips(jvm, count, end_ns, watermark_ns);
    correlate::lemma_stale_prefix(jvm, end_ns, watermark_ns);
    assert(jvm.skip(count).skip(n) =~= jvm.skip(count + n));
    assert(jvm.take(count + n) =~= jvm.take(count) + jvm.skip(count).take(n));
    let whole = correlate::sweep_thread(bpf, jvm, watermark_ns, now_ns);
    let rest = correlate::sweep_thread(bpf, jvm.skip(count), watermark_ns, now_ns);
    assert(whole.discarded =~= jvm.take(count) + rest.discarded);
}

proof fn lemma_stale_len_skips(jvm: Seq<JvmEvent>, count: int, end_ns: u64, watermark_ns: u64)
    requires
        0 <= count <= jvm.len(),
        forall|i: int| 0 <= i < count ==> correlate::stale(#[trigger] jvm[i], end_ns, watermark_ns),
    ensures
        correlate::stale_len(jvm, end_ns, watermark_ns) == count + correlate::stale_len(
            jvm.skip(count),
            end_ns,
            watermark_ns,
        ),
    decreases count,
{
    if count == 0 {
        assert(jvm.skip(0) =~= jvm);
    } else {
        let rest = jvm.skip(1);
        assert(correlate::stale(jvm[0], end_ns, watermark_ns));
        assert forall|i: int| 0 <= i < count - 1 implies correlate::stale(
            #[trigger] rest[i],
            end_ns,
            watermark_ns,
        ) by {
            assert(rest[i] == jvm[i + 1]);
        }
        lemma_stale_len_skips(rest, count - 1, end_ns, watermark_ns);
        assert(rest.skip(count - 1) =~= jvm.skip(count));
    }
}

/// No interval ended before one of those that have left already.
pub open spec fn none_comes_too_late(gone: Seq<BpfEvent>, late: Seq<BpfEvent>) -> bool {
    forall|i: int, k: int|
        0 <= i < gone.len() && 0 <= k < late.len() ==> gone[i].end_monotonic_ns
            <= late[k].end_monotonic_ns
}

/// What becomes of an interval that a sweep can decide about does not depend on
/// intervals that arrive later.
proof fn lemma_verdict_stays(
    bpf: Seq<BpfEvent>,
    jvm: Seq<JvmEvent>,
    late: Seq<BpfEvent>,
    first_watermark_ns: u64,
    first_now_ns: u64,
    watermark_ns: u64,
    now_ns: u64,
)
    requires
        correlate::chronological(bpf),
        bpf.len() > 0,
        first_watermark_ns <= watermark_ns,
        first_now_ns <= now_ns,
        forall|i: int|
            0 <= i < late.len() ==> (#[trigger] late[i]).end_monotonic_ns > first_watermark_ns
                && late[i].end_monotonic_ns >= bpf[0].end_monotonic_ns,
        !(correlate::verdict(
            bpf,
            correlate::candidates(jvm, bpf[0].end_monotonic_ns, first_watermark_ns),
            first_watermark_ns,
            first_now_ns,
        ) is Wait),
    ensures
        ({
            let end_ns = bpf[0].end_monotonic_ns;
            let full = all_arrived(bpf, late);
            let rest = correlate::candidates(jvm, end_ns, first_watermark_ns);
            &&& full.len() > 0
            &&& full[0] == bpf[0]
            &&& full.skip(1) == all_arrived(bpf.skip(1), late)
            &&& correlate::stale_len(jvm, end_ns, watermark_ns) == correlate::stale_len(
                jvm,
                end_ns,
                first_watermark_ns,
            )
            &&& correlate::candidates(jvm, end_ns, watermark_ns) == rest
            &&& correlate::verdict(full, rest, watermark_ns, now_ns) == correlate::verdict(
                bpf,
                rest,
                first_watermark_ns,
                first_now_ns,
            )
        }),
{
    let end_ns = bpf[0].end_monotonic_ns;
    let full = all_arrived(bpf, late);
    let bpf1 = bpf.skip(1);
    let full1 = all_arrived(bpf1, late);
    let count = correlate::stale_len(jvm, end_ns, first_watermark_ns) as int;
    let rest = correlate::candidates(jvm, end_ns, first_watermark_ns);
    let outcome = correlate::verdict(bpf, rest, first_watermark_ns, first_now_ns);
    correlate::lemma_stale_prefix(jvm, end_ns, first_watermark_ns);
    assert(rest.len() > 0 ==> rest[0] == jvm[count]);
    lemma_front_stays(bpf, late);
    assert(full.skip(1) =~= full1);
    lemma_all_arrived(bpf1, late);
    assert(correlate::stale_len(jvm, end_ns, watermark_ns) == count) by {
        correlate::lemma_stale_prefix(jvm, end_ns, watermark_ns);
        assert forall|i: int| 0 <= i < count implies correlate::stale(
            #[trigger] jvm[i],
            end_ns,
            watermark_ns,
        ) by {}
        lemma_stale_len_skips(jvm, count, end_ns, watermark_ns);
    }
    if rest.len() > 0 {
        let sample_ns = rest[0].monotonic_timestamp_ns;
        assert(sample_ns <= first_watermark_ns);
        if full.len() > 1 && full[1].end_monotonic_ns <= sample_ns {
            assert(full1[0] == full[1]);
            assert(full1.contains(full1[0]));
            if late.contains(full1[0]) {
                let k = choose|k: int| 0 <= k < late.len() && late[k] == full1[0];
                assert(late[k].end_monotonic_ns > first_watermark_ns);
            }
            assert(bpf1.contains(full1[0]));
            let k = choose|k: int| 0 <= k < bpf1.len() && bpf1[k] == full1[0];
            assert(bpf[k + 1] == full1[0]);
            assert(bpf[1].end_monotonic_ns <= sample_ns) by {
                if k > 0 {
                    assert(bpf[1].end_monotonic_ns <= bpf[k + 1].end_monotonic_ns);
                }
            }
        }
        if bpf.len() > 1 && bpf[1].end_monotonic_ns <= sample_ns {
            assert(bpf1[0] == bpf[1]);
            assert(bpf1.contains(bpf1[0]));
            assert(full1.contains(bpf1[0]));
            let k = choose|k: int| 0 <= k < full1.len() && full1[k] == bpf1[0];
            assert(full[1] == full1[0]);
            assert(full1[0].end_monotonic_ns <= sample_ns) by {
                if k > 0 {
                    assert(full1[0].end_monotonic_ns <= full1[k].end_monotonic_ns);
                }
            }
        }
    }
    assert(correlate::verdict(full, rest, watermark_ns, now_ns) == outcome);
}

/// It is safe to sweep before every interval has arrived, because of the
/// watermark. Take intervals that end past the watermark of a first sweep and
/// arrive only after it, in any order. The first sweep and a second one
/// together then give every interval the sample that it would have been given
/// had those intervals been there from the start, and drop the same samples.
///
/// An interval past the watermark may leave with the first sweep because its
/// signal failed or because it has expired. One that arrives later but ended
/// earlier then comes too late to leave before it, and the law leaves it out.
pub proof fn law_a_late_interval_is_correlated_as_if_it_had_been_in_time(
    bpf: Seq<BpfEvent>,
    jvm: Seq<JvmEvent>,
    late: Seq<BpfEvent>,
    first_watermark_ns: u64,
    first_now_ns: u64,
    watermark_ns: u64,
    now_ns: u64,
)
    requires
        correlate::chronological(bpf),
        first_watermark_ns <= watermark_ns,
        first_now_ns <= now_ns,
        forall|i: int|
            0 <= i < late.len() ==> (#[trigger] late[i]).end_monotonic_ns > first_watermark_ns,
        none_comes_too_late(
            correlate::intervals_of(
                correlate::sweep_thread(bpf, jvm, first_watermark_ns, first_now_ns).results,
            ),
            late,
        ),
    ensures
        ({
            let first = correlate::sweep_thread(bpf, jvm, first_watermark_ns, first_now_ns);
            let second = correlate::sweep_thread(
                all_arrived(first.bpf, late),
                first.jvm,
                watermark_ns,
                now_ns,
            );
            let in_time = correlate::sweep_thread(all_arrived(bpf, late), jvm, watermark_ns, now_ns);
            &&& in_time.bpf == second.bpf
            &&& in_time.jvm == second.jvm
            &&& in_time.results == first.results + second.results
            &&& in_time.discarded == first.discarded + second.discarded
        }),
    decreases bpf.len(),
{
    let first = correlate::sweep_thread(bpf, jvm, first_watermark_ns, first_now_ns);
    let second = correlate::sweep_thread(
        all_arrived(first.bpf, late),
        first.jvm,
        watermark_ns,
        now_ns,
    );
    let full = all_arrived(bpf, late);
    let in_time = correlate::sweep_thread(full, jvm, watermark_ns, now_ns);
    if bpf.len() == 0 {
        assert(first.results + second.results =~= second.results);
        assert(first.discarded + second.discarded =~= second.discarded);
    } else {
        let end_ns = bpf[0].end_monotonic_ns;
        let count = correlate::stale_len(jvm, end_ns, first_watermark_ns) as int;
        let rest = correlate::candidates(jvm, end_ns, first_watermark_ns);
        let outcome = correlate::verdict(bpf, rest, first_watermark_ns, first_now_ns);
        if outcome is Wait {
            correlate::lemma_stale_prefix(jvm, end_ns, first_watermark_ns);
            lemma_all_arrived(bpf, late);
            assert(full.contains(full[0]));
            assert forall|i: int| 0 <= i < count implies correlate::stale(
                #[trigger] jvm[i],
                full[0].end_monotonic_ns,
                watermark_ns,
            ) by {
                if bpf.contains(full[0]) {
                    let k = choose|k: int| 0 <= k < bpf.len() && bpf[k] == full[0];
                    if k > 0 {
                        assert(bpf[0].end_monotonic_ns <= bpf[k].end_monotonic_ns);
                    }
                } else {
                    let k = choose|k: int| 0 <= k < late.len() && late[k] == full[0];
                    assert(late[k].end_monotonic_ns > first_watermark_ns);
                }
            }
            lemma_stale_samples_are_dropped(full, jvm, count, watermark_ns, now_ns);
            assert(first.results + second.results =~= second.results);
        } else {
            let bpf1 = bpf.skip(1);
            let tail = if outcome is Matched {
                rest.skip(1)
            } else {
                rest
            };
            let next = correlate::sweep_thread(bpf1, tail, first_watermark_ns, first_now_ns);
            let gone = correlate::intervals_of(first.results);
            let gone1 = correlate::intervals_of(next.results);
            assert(gone =~= seq![bpf[0]] + gone1);
            assert forall|i: int| 0 <= i < late.len() implies (
            #[trigger] late[i]).end_monotonic_ns >= bpf[0].end_monotonic_ns by {
                assert(gone[0].end_monotonic_ns <= late[i].end_monotonic_ns);
            }
            assert(none_comes_too_late(gone1, late)) by {
                assert forall|i: int, k: int|
                    0 <= i < gone1.len() && 0 <= k < late.len() implies gone1[i].end_monotonic_ns
                    <= late[k].end_monotonic_ns by {
                    assert(gone[i + 1] == gone1[i]);
                }
            }
            lemma_verdict_stays(
                bpf,
                jvm,
                late,
                first_watermark_ns,
                first_now_ns,
                watermark_ns,
                now_ns,
            );
            law_a_late_interval_is_correlated_as_if_it_had_been_in_time(
                bpf1,
                tail,
                late,
                first_watermark_ns,
                first_now_ns,
                watermark_ns,
                now_ns,
            );
            assert(in_time.results =~= first.results + second.results);
            assert(in_time.discarded =~= first.discarded + second.discarded);
        }
    }
}

/// An interval that arrives is queued once, and nothing else changes: those that ended
/// no later stand before it and those that ended later stand after it, all in the
/// order that they had.
pub proof fn law_an_arrival_is_queued_once_by_its_end(queue: Seq<BpfEvent>, event: BpfEvent)
    requires
        correlate::chronological(queue),
    ensures
        arrived(queue, event).len() == queue.len() + 1,
        exists|at: int|
            {
                &&& 0 <= at <= queue.len()
                &&& #[trigger] arrived(queue, event)[at] == event
                &&& arrived(queue, event).take(at) == queue.take(at)
                &&& arrived(queue, event).skip(at + 1) == queue.skip(at)
                &&& forall|i: int|
                    0 <= i < at ==> (#[trigger] queue[i]).end_monotonic_ns <= event.end_monotonic_ns
                &&& forall|i: int|
                    at <= i < queue.len() ==> (#[trigger] queue[i]).end_monotonic_ns
                        > event.end_monotonic_ns
            },
{
    let end_ns = event.end_monotonic_ns;
    let at = arrival_position(queue, end_ns);
    let longer = arrived(queue, event);
    lemma_not_later(queue, end_ns);
    if queue.len() > 0 && queue.last().end_monotonic_ns <= end_ns {
        assert forall|i: int| 0 <= i < at implies (#[trigger] queue[i]).end_monotonic_ns
            <= end_ns by {
            if i < queue.len() - 1 {
                assert(queue[i].end_monotonic_ns <= queue[queue.len() - 1].end_monotonic_ns);
            }
        }
    } else if queue.len() > 0 {
        assert(at < queue.len()) by {
            if at == queue.len() {
                assert(queue[queue.len() - 1].end_monotonic_ns <= end_ns);
            }
        }
        assert forall|i: int| at <= i < queue.len() implies (#[trigger] queue[i]).end_monotonic_ns
            > end_ns by {
            if i > at {
                assert(queue[at].end_monotonic_ns <= queue[i].end_monotonic_ns);
            }
        }
    }
    assert(longer[at] == event);
    assert(longer.take(at) =~= queue.take(at));
    assert(longer.skip(at + 1) =~= queue.skip(at));
}

} // verus!
