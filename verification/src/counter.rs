//! Counters that turn over.

use vstd::prelude::*;

verus! {

/// A whole turn of a 64-bit counter.
pub open spec fn turn() -> nat {
    0x1_0000_0000_0000_0000
}

/// What a counter shows after it has counted on.
pub open spec fn advanced(counter: u64, by: nat) -> u64 {
    ((counter + by) % turn() as int) as u64
}

/// Counts on.
pub fn advance(counter: u64, by: u64) -> (result: u64)
    ensures
        result == advanced(counter, by as nat),
        counter + by < turn() ==> result == counter + by,
{
    counter.wrapping_add(by)
}

/// Counting on by nothing changes nothing.
pub broadcast proof fn lemma_advanced_by_nothing(counter: u64)
    ensures
        #[trigger] advanced(counter, 0) == counter,
{
}

/// Counting on twice is counting on by the sum.
pub proof fn lemma_advanced_twice(counter: u64, first: nat, second: nat)
    ensures
        advanced(advanced(counter, first), second) == advanced(counter, first + second),
{
    let t = turn() as int;
    let a = counter + first;
    assert(a == t * (a / t) + a % t);
    assert((a % t + second) % t == (a + second) % t) by {
        vstd::arithmetic::div_mod::lemma_add_mod_noop(a as int, second as int, t);
        vstd::arithmetic::div_mod::lemma_add_mod_noop(a % t, second as int, t);
        vstd::arithmetic::div_mod::lemma_mod_twice(a as int, t);
    }
}

/// A counter counts on by as much as it is told to, modulo 2^64.
pub proof fn law_a_counter_turns_over_at_two_to_the_64(counter: u64, by: nat)
    ensures
        counter + by < 0x1_0000_0000_0000_0000 ==> advanced(counter, by) == counter + by,
        0x1_0000_0000_0000_0000 <= counter + by < 0x2_0000_0000_0000_0000 ==> advanced(counter, by)
            == counter + by - 0x1_0000_0000_0000_0000,
        advanced(counter, by) == (counter + by) % 0x1_0000_0000_0000_0000,
{
}

} // verus!
