//! What the kernel side and user space share.

use vstd::prelude::*;

use crate::counter;

verus! {

/// How many stacks the kernel side can keep.
pub const STACK_STORAGE_SIZE: usize = 10240;

/// How many bytes the kernel keeps of a thread's name, with the byte that ends it.
pub const TASK_COMM_LEN: usize = 16;

/// How many bytes a block event takes up in a record.
pub const BLOCK_EVENT_SIZE: usize = 72;

/// What is to be sampled.
#[derive(Debug, Clone, Copy)]
pub struct Config {
    pub target_tgid: u32,
    pub min_block_us: u64,
    pub max_block_us: u64,
    /// Accept random u32 values below this threshold; 2^32 selects every event.
    pub sample_threshold: u64,
    pub stack_storage_size: u32,
}

/// A completed off-CPU interval, as the kernel side reports it.
#[derive(Debug, Clone)]
pub struct BlockEvent {
    pub pid: u32,
    pub tgid: u32,
    pub user_stack_id: i64,
    pub kernel_stack_id: i64,
    pub name: [u8; TASK_COMM_LEN],
    pub offtime: u64,
    pub t_start: u64,
    pub t_end: u64,
    pub signal_result: i64,
}

/// Counts that the kernel side keeps on each CPU. They turn over at 2^64.
#[derive(Debug, Clone, Copy)]
pub struct CollectionStats {
    pub eligible_intervals: u64,
    pub eligible_duration_us: u64,
    pub probability_rejections: u64,
    pub selected_intervals: u64,
    pub kernel_stack_failures: u64,
    pub user_stack_failures: u64,
    pub signal_failures: u64,
}

/// A number that bytes hold, least significant byte first.
pub open spec fn little_endian(bytes: Seq<u8>) -> nat
    decreases bytes.len(),
{
    if bytes.len() == 0 {
        0
    } else {
        bytes[0] as nat + 256 * little_endian(bytes.skip(1))
    }
}

/// A signed number that eight bytes hold in two's complement.
pub open spec fn signed_little_endian(bytes: Seq<u8>) -> int {
    let value = little_endian(bytes);
    if value < 0x8000_0000_0000_0000 {
        value as int
    } else {
        value - counter::turn()
    }
}

/// The event that a record holds.
pub open spec fn holds_event(record: Seq<u8>, event: BlockEvent) -> bool {
    &&& event.pid == little_endian(record.subrange(0, 4))
    &&& event.tgid == little_endian(record.subrange(4, 8))
    &&& event.user_stack_id == signed_little_endian(record.subrange(8, 16))
    &&& event.kernel_stack_id == signed_little_endian(record.subrange(16, 24))
    &&& event.name@ == record.subrange(24, 40)
    &&& event.offtime == little_endian(record.subrange(40, 48))
    &&& event.t_start == little_endian(record.subrange(48, 56))
    &&& event.t_end == little_endian(record.subrange(56, 64))
    &&& event.signal_result == signed_little_endian(record.subrange(64, 72))
}

/// Reads an unsigned number of up to eight bytes.
fn read_unsigned(record: &[u8], from: usize, count: usize) -> (value: u64)
    requires
        count <= 8,
        from + count <= record@.len(),
    ensures
        value == little_endian(record@.subrange(from as int, from + count)),
        count == 4 ==> value <= u32::MAX,
{
    let mut value: u64 = 0;
    let mut i: usize = count;
    let ghost part = record@.subrange(from as int, from + count);
    let ghost mut bound: nat = 1;
    assert(part.skip(count as int) =~= seq![]);
    while i > 0
        invariant
            count <= 8,
            0 <= i <= count,
            from + count <= record.len(),
            part == record@.subrange(from as int, from + count),
            value == little_endian(part.skip(i as int)),
            value < bound,
            count - i == 0 ==> bound == 1,
            count - i == 1 ==> bound == 0x100,
            count - i == 2 ==> bound == 0x1_0000,
            count - i == 3 ==> bound == 0x100_0000,
            count - i == 4 ==> bound == 0x1_0000_0000,
            count - i == 5 ==> bound == 0x100_0000_0000,
            count - i == 6 ==> bound == 0x1_0000_0000_0000,
            count - i == 7 ==> bound == 0x100_0000_0000_0000,
            count - i == 8 ==> bound == 0x1_0000_0000_0000_0000,
        decreases i,
    {
        i = i - 1;
        proof {
            assert(part.skip(i as int).skip(1) =~= part.skip(i + 1));
            assert(part.skip(i as int)[0] == record@[from + i]);
            bound = bound * 256;
        }
        value = record[from + i] as u64 + 256 * value;
    }
    assert(part.skip(0) =~= part);
    value
}

/// Reads a signed number of eight bytes.
fn read_signed(record: &[u8], from: usize) -> (value: i64)
    requires
        from + 8 <= record@.len(),
    ensures
        value == signed_little_endian(record@.subrange(from as int, from + 8)),
{
    let value = read_unsigned(record, from, 8);
    if value < 0x8000_0000_0000_0000 {
        value as i64
    } else {
        (value as i128 - 0x1_0000_0000_0000_0000i128) as i64
    }
}

/// Reads the event that a record holds. A record may be longer than an event.
pub fn decode_block_event(record: &[u8]) -> (event: BlockEvent)
    requires
        record@.len() >= BLOCK_EVENT_SIZE,
    ensures
        holds_event(record@, event),
{
    let mut name: [u8; TASK_COMM_LEN] = [0;TASK_COMM_LEN];
    let mut i: usize = 0;
    while i < TASK_COMM_LEN
        invariant
            0 <= i <= TASK_COMM_LEN,
            record@.len() >= BLOCK_EVENT_SIZE,
            name@.len() == TASK_COMM_LEN,
            forall|k: int| 0 <= k < i ==> name@[k] == record@[24 + k],
        decreases TASK_COMM_LEN - i,
    {
        name[i] = record[24 + i];
        i = i + 1;
    }
    assert(name@ =~= record@.subrange(24, 40));
    BlockEvent {
        pid: read_unsigned(record, 0, 4) as u32,
        tgid: read_unsigned(record, 4, 4) as u32,
        user_stack_id: read_signed(record, 8),
        kernel_stack_id: read_signed(record, 16),
        name,
        offtime: read_unsigned(record, 40, 8),
        t_start: read_unsigned(record, 48, 8),
        t_end: read_unsigned(record, 56, 8),
        signal_result: read_signed(record, 64),
    }
}

/// A number in so many bytes, least significant byte first.
pub open spec fn bytes_of(value: nat, count: nat) -> Seq<u8>
    decreases count,
{
    if count == 0 {
        seq![]
    } else {
        seq![(value % 256) as u8] + bytes_of(value / 256, (count - 1) as nat)
    }
}

/// A signed number in eight bytes in two's complement.
pub open spec fn signed_bytes_of(value: int) -> Seq<u8> {
    bytes_of(
        (if value < 0 {
            value + counter::turn()
        } else {
            value
        }) as nat,
        8,
    )
}

/// The record that the kernel side writes for an event.
pub open spec fn record_of(event: BlockEvent) -> Seq<u8> {
    bytes_of(event.pid as nat, 4) + bytes_of(event.tgid as nat, 4) + signed_bytes_of(
        event.user_stack_id as int,
    ) + signed_bytes_of(event.kernel_stack_id as int) + event.name@ + bytes_of(
        event.offtime as nat,
        8,
    ) + bytes_of(event.t_start as nat, 8) + bytes_of(event.t_end as nat, 8) + signed_bytes_of(
        event.signal_result as int,
    )
}

/// So many bytes can hold numbers below this.
pub open spec fn limit(count: nat) -> nat
    decreases count,
{
    if count == 0 {
        1
    } else {
        256 * limit((count - 1) as nat)
    }
}

proof fn lemma_bytes_of(value: nat, count: nat)
    requires
        value < limit(count),
    ensures
        bytes_of(value, count).len() == count,
        little_endian(bytes_of(value, count)) == value,
    decreases count,
{
    if count > 0 {
        lemma_bytes_of(value / 256, (count - 1) as nat);
        assert(bytes_of(value, count).skip(1) =~= bytes_of(value / 256, (count - 1) as nat));
    }
}

/// Two events are the same.
pub open spec fn same_event(first: BlockEvent, second: BlockEvent) -> bool {
    &&& first.name@ == second.name@
    &&& first == (BlockEvent { name: first.name, ..second })
}

/// Reading the record of an event gives back the event, whatever follows it in
/// the record.
pub proof fn law_a_record_gives_back_the_event(event: BlockEvent, slack: Seq<u8>)
    ensures
        record_of(event).len() == BLOCK_EVENT_SIZE,
        holds_event(record_of(event) + slack, event),
        forall|read: BlockEvent| #[trigger]
            holds_event(record_of(event) + slack, read) ==> same_event(read, event),
{
    reveal_with_fuel(limit, 9);
    lemma_bytes_of(event.pid as nat, 4);
    lemma_bytes_of(event.tgid as nat, 4);
    lemma_signed_bytes_of(event.user_stack_id as int);
    lemma_signed_bytes_of(event.kernel_stack_id as int);
    lemma_bytes_of(event.offtime as nat, 8);
    lemma_bytes_of(event.t_start as nat, 8);
    lemma_bytes_of(event.t_end as nat, 8);
    lemma_signed_bytes_of(event.signal_result as int);
    let record = record_of(event) + slack;
    assert(record.subrange(0, 4) =~= bytes_of(event.pid as nat, 4));
    assert(record.subrange(4, 8) =~= bytes_of(event.tgid as nat, 4));
    assert(record.subrange(8, 16) =~= signed_bytes_of(event.user_stack_id as int));
    assert(record.subrange(16, 24) =~= signed_bytes_of(event.kernel_stack_id as int));
    assert(record.subrange(24, 40) =~= event.name@);
    assert(record.subrange(40, 48) =~= bytes_of(event.offtime as nat, 8));
    assert(record.subrange(48, 56) =~= bytes_of(event.t_start as nat, 8));
    assert(record.subrange(56, 64) =~= bytes_of(event.t_end as nat, 8));
    assert(record.subrange(64, 72) =~= signed_bytes_of(event.signal_result as int));
}

proof fn lemma_signed_bytes_of(value: int)
    requires
        i64::MIN <= value <= i64::MAX,
    ensures
        signed_bytes_of(value).len() == 8,
        signed_little_endian(signed_bytes_of(value)) == value,
{
    reveal_with_fuel(limit, 9);
    let unsigned = if value < 0 {
        value + counter::turn()
    } else {
        value
    };
    lemma_bytes_of(unsigned as nat, 8);
}

/// The sum of one count over all CPUs.
pub open spec fn total(values: Seq<CollectionStats>, count: spec_fn(CollectionStats) -> u64) -> nat
    decreases values.len(),
{
    if values.len() == 0 {
        0
    } else {
        total(values.drop_last(), count) + count(values.last()) as nat
    }
}

/// The counts of all CPUs together.
pub open spec fn totals(values: Seq<CollectionStats>) -> CollectionStats {
    CollectionStats {
        eligible_intervals: counter::advanced(
            0,
            total(values, |stats: CollectionStats| stats.eligible_intervals),
        ),
        eligible_duration_us: counter::advanced(
            0,
            total(values, |stats: CollectionStats| stats.eligible_duration_us),
        ),
        probability_rejections: counter::advanced(
            0,
            total(values, |stats: CollectionStats| stats.probability_rejections),
        ),
        selected_intervals: counter::advanced(
            0,
            total(values, |stats: CollectionStats| stats.selected_intervals),
        ),
        kernel_stack_failures: counter::advanced(
            0,
            total(values, |stats: CollectionStats| stats.kernel_stack_failures),
        ),
        user_stack_failures: counter::advanced(
            0,
            total(values, |stats: CollectionStats| stats.user_stack_failures),
        ),
        signal_failures: counter::advanced(
            0,
            total(values, |stats: CollectionStats| stats.signal_failures),
        ),
    }
}

impl Default for CollectionStats {
    /// Nothing counted yet.
    fn default() -> (stats: CollectionStats)
        ensures
            stats == totals(seq![]),
    {
        CollectionStats {
            eligible_intervals: 0,
            eligible_duration_us: 0,
            probability_rejections: 0,
            selected_intervals: 0,
            kernel_stack_failures: 0,
            user_stack_failures: 0,
            signal_failures: 0,
        }
    }
}

impl CollectionStats {
    /// Adds up the counts of all CPUs.
    pub fn sum(values: &Vec<CollectionStats>) -> (sum: CollectionStats)
        ensures
            sum == totals(values@),
    {
        let mut sum = CollectionStats::default();
        let mut i: usize = 0;
        assert(values@.take(0) =~= seq![]);
        while i < values.len()
            invariant
                0 <= i <= values@.len(),
                sum == totals(values@.take(i as int)),
            decreases values@.len() - i,
        {
            let value = values[i];
            proof {
                let done = values@.take(i as int);
                assert(values@.take(i + 1).drop_last() =~= done);
                let adds_up = |count: spec_fn(CollectionStats) -> u64|
                    counter::advanced(
                        counter::advanced(0, total(done, count)),
                        count(value) as nat,
                    ) == counter::advanced(0, total(done, count) + count(value) as nat);
                assert forall|count: spec_fn(CollectionStats) -> u64| #[trigger] adds_up(count) by {
                    counter::lemma_advanced_twice(0, total(done, count), count(value) as nat);
                }
                assert(adds_up(|stats: CollectionStats| stats.eligible_intervals));
                assert(adds_up(|stats: CollectionStats| stats.eligible_duration_us));
                assert(adds_up(|stats: CollectionStats| stats.probability_rejections));
                assert(adds_up(|stats: CollectionStats| stats.selected_intervals));
                assert(adds_up(|stats: CollectionStats| stats.kernel_stack_failures));
                assert(adds_up(|stats: CollectionStats| stats.user_stack_failures));
                assert(adds_up(|stats: CollectionStats| stats.signal_failures));
            }
            sum =
            CollectionStats {
                eligible_intervals: counter::advance(
                    sum.eligible_intervals,
                    value.eligible_intervals,
                ),
                eligible_duration_us: counter::advance(
                    sum.eligible_duration_us,
                    value.eligible_duration_us,
                ),
                probability_rejections: counter::advance(
                    sum.probability_rejections,
                    value.probability_rejections,
                ),
                selected_intervals: counter::advance(
                    sum.selected_intervals,
                    value.selected_intervals,
                ),
                kernel_stack_failures: counter::advance(
                    sum.kernel_stack_failures,
                    value.kernel_stack_failures,
                ),
                user_stack_failures: counter::advance(
                    sum.user_stack_failures,
                    value.user_stack_failures,
                ),
                signal_failures: counter::advance(sum.signal_failures, value.signal_failures),
            };
            i = i + 1;
        }
        assert(values@.take(i as int) =~= values@);
        sum
    }
}

/// The number that eight bytes of a record hold from a position on.
pub open spec fn number_at(record: Seq<u8>, at: int) -> int {
    record[at] + 0x100 * record[at + 1] + 0x1_0000 * record[at + 2] + 0x100_0000 * record[at + 3]
        + 0x1_0000_0000 * record[at + 4] + 0x100_0000_0000 * record[at + 5] + 0x1_0000_0000_0000
        * record[at + 6] + 0x100_0000_0000_0000 * record[at + 7]
}

/// A signed number is the number that its bytes hold, less 2^64 if that is 2^63 or
/// more.
pub open spec fn is_signed_number_at(value: i64, record: Seq<u8>, at: int) -> bool {
    if number_at(record, at) < 0x8000_0000_0000_0000 {
        value == number_at(record, at)
    } else {
        value == number_at(record, at) - 0x1_0000_0000_0000_0000
    }
}

proof fn lemma_four_bytes(bytes: Seq<u8>)
    requires
        bytes.len() == 4,
    ensures
        little_endian(bytes) == bytes[0] + 0x100 * bytes[1] + 0x1_0000 * bytes[2] + 0x100_0000
            * bytes[3],
{
    reveal_with_fuel(little_endian, 5);
}

proof fn lemma_eight_bytes(record: Seq<u8>, at: int)
    requires
        0 <= at,
        at + 8 <= record.len(),
    ensures
        little_endian(record.subrange(at, at + 8)) == number_at(record, at),
        0 <= number_at(record, at) < 0x1_0000_0000_0000_0000,
{
    let bytes = record.subrange(at, at + 8);
    let high = bytes.skip(4);
    lemma_four_bytes(high);
    reveal_with_fuel(little_endian, 5);
    assert(bytes.skip(1).skip(1).skip(1).skip(1) =~= high);
    assert(little_endian(bytes) == bytes[0] + 0x100 * bytes[1] + 0x1_0000 * bytes[2] + 0x100_0000
        * bytes[3] + 0x1_0000_0000 * little_endian(high));
    assert(high[0] == record[at + 4] && high[1] == record[at + 5] && high[2] == record[at + 6]
        && high[3] == record[at + 7]);
}

/// A record holds the thread, the process, the identifiers of the user stack and of
/// the kernel stack, the name, the length and the times of the interval and the
/// outcome of the signal, in this order, each number least significant byte first.
pub proof fn law_a_record_is_laid_out_in_order(record: Seq<u8>, event: BlockEvent)
    requires
        record.len() >= 72,
        holds_event(record, event),
    ensures
        event.pid == record[0] + 0x100 * record[1] + 0x1_0000 * record[2] + 0x100_0000 * record[3],
        event.tgid == record[4] + 0x100 * record[5] + 0x1_0000 * record[6] + 0x100_0000 * record[7],
        is_signed_number_at(event.user_stack_id, record, 8),
        is_signed_number_at(event.kernel_stack_id, record, 16),
        event.name@.len() == 16,
        forall|i: int| 0 <= i < 16 ==> event.name@[i] == record[24 + i],
        event.offtime == number_at(record, 40),
        event.t_start == number_at(record, 48),
        event.t_end == number_at(record, 56),
        is_signed_number_at(event.signal_result, record, 64),
{
    lemma_four_bytes(record.subrange(0, 4));
    lemma_four_bytes(record.subrange(4, 8));
    lemma_eight_bytes(record, 8);
    lemma_eight_bytes(record, 16);
    lemma_eight_bytes(record, 40);
    lemma_eight_bytes(record, 48);
    lemma_eight_bytes(record, 56);
    lemma_eight_bytes(record, 64);
    assert forall|i: int| 0 <= i < 16 implies event.name@[i] == record[24 + i] by {
        assert(record.subrange(24, 40)[i] == record[24 + i]);
    }
}

proof fn lemma_total_push(
    values: Seq<CollectionStats>,
    more: CollectionStats,
    count: spec_fn(CollectionStats) -> u64,
)
    ensures
        counter::advanced(0, total(values.push(more), count)) == (counter::advanced(
            0,
            total(values, count),
        ) + count(more)) % 0x1_0000_0000_0000_0000,
{
    assert(values.push(more).drop_last() =~= values);
    counter::lemma_advanced_twice(0, total(values, count), count(more) as nat);
}

/// The counts of one more CPU are added to those of the others, each to its own,
/// modulo 2^64; those of no CPU are zero.
pub proof fn law_the_counts_of_every_cpu_are_added(
    values: Seq<CollectionStats>,
    more: CollectionStats,
)
    ensures
        totals(seq![]) == (CollectionStats {
            eligible_intervals: 0,
            eligible_duration_us: 0,
            probability_rejections: 0,
            selected_intervals: 0,
            kernel_stack_failures: 0,
            user_stack_failures: 0,
            signal_failures: 0,
        }),
        ({
            let turn: int = 0x1_0000_0000_0000_0000;
            let before = totals(values);
            let after = totals(values.push(more));
            &&& after.eligible_intervals == (before.eligible_intervals + more.eligible_intervals)
                % turn
            &&& after.eligible_duration_us == (before.eligible_duration_us
                + more.eligible_duration_us) % turn
            &&& after.probability_rejections == (before.probability_rejections
                + more.probability_rejections) % turn
            &&& after.selected_intervals == (before.selected_intervals + more.selected_intervals)
                % turn
            &&& after.kernel_stack_failures == (before.kernel_stack_failures
                + more.kernel_stack_failures) % turn
            &&& after.user_stack_failures == (before.user_stack_failures
                + more.user_stack_failures) % turn
            &&& after.signal_failures == (before.signal_failures + more.signal_failures) % turn
        }),
{
    lemma_total_push(values, more, |stats: CollectionStats| stats.eligible_intervals);
    lemma_total_push(values, more, |stats: CollectionStats| stats.eligible_duration_us);
    lemma_total_push(values, more, |stats: CollectionStats| stats.probability_rejections);
    lemma_total_push(values, more, |stats: CollectionStats| stats.selected_intervals);
    lemma_total_push(values, more, |stats: CollectionStats| stats.kernel_stack_failures);
    lemma_total_push(values, more, |stats: CollectionStats| stats.user_stack_failures);
    lemma_total_push(values, more, |stats: CollectionStats| stats.signal_failures);
}

} // verus!
