//! The probability with which qualifying intervals are selected.
//!
//! A probability is given as a decimal number between zero and one. The kernel
//! side compares 32 random bits with a threshold, so the probability is rounded
//! down to a multiple of 2^-32.

use vstd::prelude::*;

use crate::common::Config;
use crate::probe;
use crate::probe::Interval;
use crate::text;

verus! {

/// The probability that holds unless another is asked for.
pub const DEFAULT_SAMPLE_PROBABILITY: &'static str = "0.001";

/// The threshold below which every 32-bit number lies.
pub const SELECT_ALL: u64 = 0x1_0000_0000;

/// Why a text does not give a probability.
#[derive(Debug, Clone, Copy, PartialEq, Eq, Structural)]
pub enum ProbabilityError {
    /// It is not a decimal number.
    NotANumber,
    /// The number is greater than one.
    OutOfRange,
}

/// A power of ten.
pub open spec fn pow10(exponent: nat) -> nat
    decreases exponent,
{
    if exponent == 0 {
        1
    } else {
        10 * pow10((exponent - 1) as nat)
    }
}

/// Where the decimal point stands, or the length where there is none.
pub open spec fn point(number: Seq<char>) -> nat
    decreases number.len(),
{
    if number.len() == 0 || number[0] == '.' {
        0
    } else {
        1 + point(number.skip(1))
    }
}

/// The digits before the decimal point.
pub open spec fn whole_digits(number: Seq<char>) -> Seq<char> {
    number.take(point(number) as int)
}

/// The digits after the decimal point.
pub open spec fn part_digits(number: Seq<char>) -> Seq<char> {
    if point(number) < number.len() {
        number.skip(point(number) as int + 1)
    } else {
        seq![]
    }
}

/// A text is a decimal number: digits, with a decimal point or without.
pub open spec fn is_number(number: Seq<char>) -> bool {
    &&& text::all_digits(whole_digits(number))
    &&& text::all_digits(part_digits(number))
    &&& whole_digits(number).len() + part_digits(number).len() > 0
}

/// A decimal number is this many parts of `denominator`.
pub open spec fn numerator(number: Seq<char>) -> nat {
    text::decimal_value(whole_digits(number) + part_digits(number))
}

pub open spec fn denominator(number: Seq<char>) -> nat {
    pow10(part_digits(number).len())
}

/// The threshold for a probability, or why there is none.
pub open spec fn threshold(number: Seq<char>) -> Result<u64, ProbabilityError> {
    if !is_number(number) {
        Err(ProbabilityError::NotANumber)
    } else if numerator(number) > denominator(number) {
        Err(ProbabilityError::OutOfRange)
    } else {
        Ok(((numerator(number) * SELECT_ALL) / denominator(number) as int) as u64)
    }
}

/// What digits stand for, least significant digit first.
spec fn value(digits: Seq<u8>) -> nat
    decreases digits.len(),
{
    if digits.len() == 0 {
        0
    } else {
        digits[0] as nat + 10 * value(digits.skip(1))
    }
}

proof fn lemma_pow10_positive(exponent: nat)
    ensures
        pow10(exponent) > 0,
    decreases exponent,
{
    if exponent > 0 {
        lemma_pow10_positive((exponent - 1) as nat);
    }
}

/// One more digit at the most significant end.
proof fn lemma_value_push(digits: Seq<u8>, digit: u8)
    ensures
        value(digits.push(digit)) == value(digits) + digit * pow10(digits.len()),
    decreases digits.len(),
{
    let longer = digits.push(digit);
    if digits.len() == 0 {
        assert(longer.skip(1) =~= seq![]);
        assert(value(seq![]) == 0 && pow10(0) == 1);
        assert(digit * 1 == digit) by (nonlinear_arith);
    } else {
        let rest = digits.skip(1);
        lemma_value_push(rest, digit);
        assert(longer.skip(1) =~= rest.push(digit));
        let power = pow10(rest.len()) as int;
        assert(10 * (digit * power) == digit * (10 * power)) by (nonlinear_arith);
    }
}

proof fn lemma_value_bound(digits: Seq<u8>)
    requires
        forall|i: int| 0 <= i < digits.len() ==> digits[i] <= 9,
    ensures
        value(digits) < pow10(digits.len()),
    decreases digits.len(),
{
    if digits.len() > 0 {
        let rest = digits.skip(1);
        assert forall|i: int| 0 <= i < rest.len() implies rest[i] <= 9 by {
            assert(rest[i] == digits[i + 1]);
        }
        lemma_value_bound(rest);
    }
}

/// A digit is the one that stands so many places before the end.
spec fn is_last_digit(digit: u8, chars: Seq<char>, place: int) -> bool {
    let c = chars[chars.len() - 1 - place];
    text::is_decimal_digit(c) && digit == c as int - 48
}

/// Digits are the last ones, in the opposite order.
spec fn are_last_digits(digits: Seq<u8>, chars: Seq<char>) -> bool {
    forall|i: int| 0 <= i < digits.len() ==> is_last_digit(#[trigger] digits[i], chars, i)
}

/// Digits that read the same from either end of the notation.
proof fn lemma_value_is_decimal(chars: Seq<char>, digits: Seq<u8>)
    requires
        digits.len() == chars.len(),
        are_last_digits(digits, chars),
    ensures
        value(digits) == text::decimal_value(chars),
    decreases chars.len(),
{
    if chars.len() > 0 {
        let fewer = chars.drop_last();
        let rest = digits.skip(1);
        assert forall|i: int| 0 <= i < rest.len() implies is_last_digit(
            #[trigger] rest[i],
            fewer,
            i,
        ) by {
            assert(rest[i] == digits[i + 1]);
        }
        lemma_value_is_decimal(fewer, rest);
        assert(is_last_digit(digits[0], chars, 0));
    }
}

/// Digits before a point count for as much as the digits after it make room.
proof fn lemma_whole_and_part(whole: Seq<char>, part: Seq<char>)
    ensures
        text::decimal_value(whole + part) == text::decimal_value(whole) * pow10(part.len())
            + text::decimal_value(part),
    decreases part.len(),
{
    if part.len() == 0 {
        assert(whole + part =~= whole);
        let w = text::decimal_value(whole) as int;
        assert(pow10(0) == 1 && text::decimal_value(part) == 0);
        assert(w * 1 == w) by (nonlinear_arith);
    } else {
        lemma_whole_and_part(whole, part.drop_last());
        assert((whole + part).drop_last() =~= whole + part.drop_last());
        let w = text::decimal_value(whole) as int;
        let p = pow10((part.len() - 1) as nat) as int;
        assert(10 * (w * p) == w * (10 * p)) by (nonlinear_arith);
    }
}

/// Doubles a number below one that is given by its digits after the point, and
/// gives out the one that this carries before the point, if it does.
fn double(digits: &mut Vec<u8>) -> (carry: u8)
    requires
        forall|i: int| 0 <= i < old(digits)@.len() ==> old(digits)@[i] <= 9,
    ensures
        final(digits)@.len() == old(digits)@.len(),
        forall|i: int| 0 <= i < final(digits)@.len() ==> final(digits)@[i] <= 9,
        2 * value(old(digits)@) == carry * pow10(old(digits)@.len()) + value(final(digits)@),
        carry <= 1,
{
    let ghost before = digits@;
    let mut carry: u8 = 0;
    let mut i: usize = 0;
    assert(before.take(0) =~= seq![] && digits@.take(0) =~= seq![]);
    while i < digits.len()
        invariant
            0 <= i <= digits@.len(),
            before.len() == digits@.len(),
            forall|k: int| 0 <= k < digits@.len() ==> digits@[k] <= 9,
            forall|k: int| i <= k < digits@.len() ==> digits@[k] == before[k],
            carry <= 1,
            2 * value(before.take(i as int)) == carry * pow10(i as nat) + value(
                digits@.take(i as int),
            ),
        decreases digits@.len() - i,
    {
        let ghost at = digits@;
        let ghost carried = carry;
        let doubled = 2 * digits[i] + carry;
        digits.set(i, doubled % 10);
        carry = doubled / 10;
        proof {
            lemma_value_push(before.take(i as int), before[i as int]);
            lemma_value_push(at.take(i as int), doubled % 10);
            assert(before.take(i + 1) =~= before.take(i as int).push(before[i as int]));
            assert(digits@.take(i + 1) =~= at.take(i as int).push(doubled % 10));
            let p = pow10(i as nat) as int;
            let d = before[i as int] as int;
            let low = (doubled % 10) as int;
            let high = carry as int;
            assert(2 * (d * p) + carried * p == low * p + high * (10 * p)) by (nonlinear_arith)
                requires
                    2 * d + carried == low + 10 * high,
            ;
        }
        i = i + 1;
    }
    assert(before.take(i as int) =~= before && digits@.take(i as int) =~= digits@);
    carry
}

/// The 32 bits after the point of a number below one that is given by its
/// digits after the point.
fn leading_bits(digits: &mut Vec<u8>) -> (bits: u64)
    requires
        forall|i: int| 0 <= i < old(digits)@.len() ==> old(digits)@[i] <= 9,
    ensures
        bits == (value(old(digits)@) * SELECT_ALL) / pow10(old(digits)@.len()) as int,
{
    let ghost start = value(digits@) as int;
    let ghost unit = pow10(digits@.len()) as int;
    let mut bits: u64 = 0;
    let mut i: u32 = 0;
    let ghost mut scale: int = 1;
    proof {
        vstd::arithmetic::power2::lemma2_to64();
    }
    while i < 32
        invariant
            0 <= i <= 32,
            unit == pow10(digits@.len()),
            forall|k: int| 0 <= k < digits@.len() ==> digits@[k] <= 9,
            scale == vstd::arithmetic::power2::pow2(i as nat),
            0 <= bits < scale,
            start * scale == bits * unit + value(digits@),
        decreases 32 - i,
    {
        let ghost before = value(digits@) as int;
        let ghost bits0 = bits as int;
        let carry = double(digits);
        proof {
            vstd::arithmetic::power2::lemma_pow2_unfold((i + 1) as nat);
            vstd::arithmetic::power2::lemma2_to64();
            vstd::arithmetic::power2::lemma_pow2_strictly_increases(i as nat, 32);
            let after = value(digits@) as int;
            let c = carry as int;
            assert(start * (2 * scale) == (2 * bits0 + c) * unit + after) by (nonlinear_arith)
                requires
                    start * scale == bits0 * unit + before,
                    2 * before == c * unit + after,
            ;
            scale = 2 * scale;
        }
        bits = 2 * bits + carry as u64;
        i = i + 1;
    }
    proof {
        vstd::arithmetic::power2::lemma2_to64();
        lemma_value_bound(digits@);
        lemma_pow10_positive(digits@.len());
        let rest = value(digits@) as int;
        vstd::arithmetic::div_mod::lemma_fundamental_div_mod_converse(
            start * SELECT_ALL,
            unit,
            bits as int,
            rest,
        );
    }
    bits
}

proof fn lemma_point(number: Seq<char>, position: int)
    requires
        0 <= position <= number.len(),
        forall|i: int| 0 <= i < position ==> number[i] != '.',
        position < number.len() ==> number[position] == '.',
    ensures
        point(number) == position,
    decreases number.len(),
{
    if position > 0 {
        assert forall|i: int| 0 <= i < position - 1 implies number.skip(1)[i] != '.' by {
            assert(number.skip(1)[i] == number[i + 1]);
        }
        lemma_point(number.skip(1), position - 1);
    }
}

/// The threshold for a probability that is given as a decimal number.
pub fn parse_sample_probability(number: &str) -> (result: Result<u64, ProbabilityError>)
    ensures
        result == threshold(number@),
{
    let chars = text::to_chars(number);
    let mut position: usize = 0;
    while position < chars.len() && chars[position] != '.'
        invariant
            0 <= position <= chars@.len(),
            forall|i: int| 0 <= i < position ==> chars@[i] != '.',
        decreases chars@.len() - position,
    {
        position = position + 1;
    }
    proof {
        lemma_point(chars@, position as int);
    }
    let ghost whole = whole_digits(number@);
    let ghost part = part_digits(number@);
    // Zero, one, or more than that.
    let mut units: u8 = 0;
    let mut i: usize = 0;
    assert(whole.take(0) =~= seq![]);
    while i < position
        invariant
            0 <= i <= position <= chars@.len(),
            chars@ == number@,
            whole == chars@.take(position as int),
            whole == whole_digits(number@),
            forall|k: int| 0 <= k < i ==> text::is_decimal_digit(#[trigger] whole[k]),
            units <= 2,
            units < 2 ==> text::decimal_value(whole.take(i as int)) == units,
            units == 2 ==> text::decimal_value(whole.take(i as int)) >= 2,
        decreases position - i,
    {
        let c = chars[i];
        assert(c == whole[i as int]);
        if c < '0' || c > '9' {
            assert(!text::is_decimal_digit(whole[i as int]));
            return Err(ProbabilityError::NotANumber);
        }
        assert(whole.take(i + 1).drop_last() =~= whole.take(i as int));
        let digit = (c as u32 - 48) as u8;
        units =
        if units > 0 || digit > 1 {
            2
        } else {
            digit
        };
        i = i + 1;
    }
    assert(whole.take(i as int) =~= whole);
    let mut digits: Vec<u8> = Vec::new();
    let mut left: usize = chars.len();
    while left > 0 && left - 1 > position
        invariant
            position <= chars@.len(),
            position < chars@.len() ==> position + 1 <= left,
            position >= chars@.len() ==> left == chars@.len(),
            left <= chars.len(),
            chars@ == number@,
            part == part_digits(number@),
            part == (if position < chars@.len() {
                chars@.skip(position + 1)
            } else {
                seq![]
            }),
            digits@.len() == chars@.len() - left,
            are_last_digits(digits@, part),
        decreases left,
    {
        let c = chars[left - 1];
        assert(c == part[part.len() - 1 - digits@.len()]);
        if c < '0' || c > '9' {
            assert(!text::is_decimal_digit(part[part.len() - 1 - digits@.len()]));
            return Err(ProbabilityError::NotANumber);
        }
        let ghost known = digits@;
        digits.push((c as u32 - 48) as u8);
        proof {
            assert forall|k: int| 0 <= k < digits@.len() implies is_last_digit(
                #[trigger] digits@[k],
                part,
                k,
            ) by {
                if k < known.len() {
                    assert(digits@[k] == known[k]);
                }
            }
        }
        left = left - 1;
    }
    assert(digits@.len() == part.len());
    assert(text::all_digits(part)) by {
        assert forall|k: int| 0 <= k < part.len() implies text::is_decimal_digit(
            #[trigger] part[k],
        ) by {
            assert(is_last_digit(digits@[part.len() - 1 - k], part, part.len() - 1 - k));
        }
    }
    assert(text::all_digits(whole));
    if position == 0 && digits.len() == 0 {
        return Err(ProbabilityError::NotANumber);
    }
    proof {
        lemma_value_is_decimal(part, digits@);
        lemma_whole_and_part(whole, part);
        lemma_value_bound(digits@);
        lemma_pow10_positive(part.len());
    }
    let ghost unit = pow10(part.len()) as int;
    let ghost below = value(digits@) as int;
    if units == 0 {
        assert(0 * unit == 0) by (nonlinear_arith);
        return Ok(leading_bits(&mut digits));
    }
    if units == 1 && all_zeros(&digits) {
        proof {
            assert(1 * unit == unit) by (nonlinear_arith);
            vstd::arithmetic::div_mod::lemma_div_multiples_vanish(SELECT_ALL as int, unit);
            assert(unit * SELECT_ALL == SELECT_ALL * unit) by (nonlinear_arith);
        }
        return Ok(SELECT_ALL);
    }
    proof {
        let w = text::decimal_value(whole) as int;
        assert(w * unit + below > unit) by (nonlinear_arith)
            requires
                w >= 1,
                below >= 0,
                unit > 0,
                w >= 2 || below > 0,
        ;
    }
    Err(ProbabilityError::OutOfRange)
}

/// Whether a number is zero.
fn all_zeros(digits: &Vec<u8>) -> (zero: bool)
    ensures
        zero == (value(digits@) == 0),
{
    let mut i: usize = digits.len();
    assert(digits@.skip(i as int) =~= seq![]);
    while i > 0
        invariant
            0 <= i <= digits@.len(),
            value(digits@.skip(i as int)) == 0,
        decreases i,
    {
        i = i - 1;
        let ghost rest = digits@.skip(i as int);
        assert(rest.skip(1) =~= digits@.skip(i + 1));
        if digits[i] != 0 {
            proof {
                lemma_value_of_the_rest(digits@, i as int);
            }
            return false;
        }
    }
    assert(digits@.skip(0) =~= digits@);
    true
}

proof fn lemma_value_of_the_rest(digits: Seq<u8>, count: int)
    requires
        0 <= count <= digits.len(),
    ensures
        value(digits) >= value(digits.skip(count)),
    decreases count,
{
    if count == 0 {
        assert(digits.skip(0) =~= digits);
    } else {
        lemma_value_of_the_rest(digits.skip(1), count - 1);
        assert(digits.skip(1).skip(count - 1) =~= digits.skip(count));
    }
}

/// A probability of zero selects no interval; one selects every interval.
pub proof fn law_zero_selects_none_and_one_selects_all(
    number: Seq<char>,
    config: Config,
    random: u32,
)
    requires
        is_number(number),
        threshold(number) == Ok::<u64, ProbabilityError>(config.sample_threshold),
    ensures
        numerator(number) == 0 ==> !probe::selects(config, random),
        numerator(number) == denominator(number) ==> probe::selects(config, random),
{
    lemma_pow10_positive(part_digits(number).len());
    let unit = denominator(number) as int;
    assert(0 * SELECT_ALL == 0);
    vstd::arithmetic::div_mod::lemma_div_multiples_vanish(SELECT_ALL as int, unit);
    assert(unit * SELECT_ALL == SELECT_ALL * unit) by (nonlinear_arith);
}

/// The numbers below the threshold, out of all of 32 bits, make up the
/// probability rounded down to a multiple of 2^-32.
pub proof fn law_the_threshold_is_the_probability_rounded_down(number: Seq<char>)
    requires
        threshold(number) is Ok,
    ensures
        ({
            let selected = threshold(number)->Ok_0;
            &&& selected <= SELECT_ALL
            &&& selected * denominator(number) <= numerator(number) * SELECT_ALL
            &&& numerator(number) * SELECT_ALL < (selected + 1) * denominator(number)
        }),
{
    lemma_pow10_positive(part_digits(number).len());
    let unit = denominator(number) as int;
    let scaled = numerator(number) * SELECT_ALL as int;
    vstd::arithmetic::div_mod::lemma_fundamental_div_mod(scaled, unit);
    let q = scaled / unit;
    assert(0 <= q <= SELECT_ALL) by {
        vstd::arithmetic::div_mod::lemma_div_is_ordered(scaled, unit * SELECT_ALL, unit);
        vstd::arithmetic::div_mod::lemma_div_multiples_vanish(SELECT_ALL as int, unit);
        vstd::arithmetic::div_mod::lemma_div_pos_is_pos(scaled, unit);
        let n = numerator(number) as int;
        assert(n * SELECT_ALL <= unit * SELECT_ALL) by (nonlinear_arith)
            requires
                n <= unit,
        ;
        assert(unit * SELECT_ALL == SELECT_ALL * unit) by (nonlinear_arith);
    }
    vstd::arithmetic::div_mod::lemma_mod_pos_bound(scaled, unit);
    assert(q * unit == unit * q) by (nonlinear_arith);
    assert((q + 1) * unit == unit * q + unit) by (nonlinear_arith);
}

proof fn lemma_pow10(exponent: nat)
    ensures
        pow10(exponent) == vstd::arithmetic::power::pow(10, exponent),
    decreases exponent,
{
    reveal(vstd::arithmetic::power::pow);
    if exponent > 0 {
        lemma_pow10((exponent - 1) as nat);
    }
}

/// Digits hold no decimal point.
proof fn lemma_number_of_digits(whole: Seq<char>, part: Seq<char>)
    requires
        text::all_digits(whole),
        text::all_digits(part),
    ensures
        ({
            let number = whole + seq!['.'] + part;
            &&& whole_digits(number) == whole
            &&& part_digits(number) == part
        }),
        whole_digits(whole) == whole,
        part_digits(whole) == Seq::<char>::empty(),
{
    let number = whole + seq!['.'] + part;
    assert forall|i: int| 0 <= i < whole.len() implies whole[i] != '.' by {
        assert(text::is_decimal_digit(whole[i]));
    }
    assert forall|i: int| 0 <= i < whole.len() implies number[i] != '.' by {
        assert(number[i] == whole[i]);
    }
    lemma_point(number, whole.len() as int);
    lemma_point(whole, whole.len() as int);
    assert(whole_digits(number) =~= whole);
    assert(part_digits(number) =~= part);
    assert(whole_digits(whole) =~= whole);
}

/// A text is taken as digits with a decimal point and digits after it, one of the two
/// groups of digits possibly empty. A number greater than one is out of range. For any
/// other the threshold is the number times 2^32, rounded down.
pub proof fn law_the_threshold_of_a_decimal_number(whole: Seq<char>, part: Seq<char>)
    requires
        forall|i: int| 0 <= i < whole.len() ==> '0' <= #[trigger] whole[i] <= '9',
        forall|i: int| 0 <= i < part.len() ==> '0' <= #[trigger] part[i] <= '9',
        whole.len() + part.len() > 0,
    ensures
        ({
            let unit = vstd::arithmetic::power::pow(10, part.len());
            let units = text::decimal_value(whole) * unit + text::decimal_value(part);
            match threshold(whole + seq!['.'] + part) {
                Ok(selected) => {
                    &&& units <= unit
                    &&& selected * unit <= units * 0x1_0000_0000
                    &&& units * 0x1_0000_0000 < (selected + 1) * unit
                },
                Err(error) => units > unit && error == ProbabilityError::OutOfRange,
            }
        }),
        whole.len() > 0 ==> threshold(whole) == threshold(whole + seq!['.']),
{
    let number = whole + seq!['.'] + part;
    assert(text::all_digits(whole)) by {
        assert forall|i: int| 0 <= i < whole.len() implies text::is_decimal_digit(
            #[trigger] whole[i],
        ) by {}
    }
    assert(text::all_digits(part)) by {
        assert forall|i: int| 0 <= i < part.len() implies text::is_decimal_digit(
            #[trigger] part[i],
        ) by {}
    }
    lemma_number_of_digits(whole, part);
    lemma_number_of_digits(whole, seq![]);
    assert(whole + seq!['.'] + Seq::<char>::empty() =~= whole + seq!['.']);
    lemma_whole_and_part(whole, part);
    lemma_pow10(part.len());
    if threshold(number) is Ok {
        law_the_threshold_is_the_probability_rounded_down(number);
    }
}

/// A text that holds anything but digits and a decimal point, or more than one decimal
/// point, or no digit, is not a number.
pub proof fn law_what_is_not_a_decimal_number_is_refused(number: Seq<char>, i: int, j: int)
    requires
        ({
            ||| 0 <= i < number.len() && number[i] != '.' && !('0' <= number[i] <= '9')
            ||| 0 <= i < j < number.len() && number[i] == '.' && number[j] == '.'
            ||| number.len() == 0
            ||| number == seq!['.']
        }),
    ensures
        threshold(number) == Err::<u64, ProbabilityError>(ProbabilityError::NotANumber),
{
    lemma_point_is_a_point(number);
    let at = point(number) as int;
    let whole = whole_digits(number);
    let part = part_digits(number);
    if is_number(number) {
        let k = if 0 <= i < number.len() && number[i] != '.' {
            i
        } else {
            j
        };
        if 0 <= k < at {
            assert(text::is_decimal_digit(whole[k]));
        } else if at < k < number.len() {
            assert(part[k - at - 1] == number[k]);
            assert(text::is_decimal_digit(part[k - at - 1]));
        }
        if 0 <= i < at {
            assert(text::is_decimal_digit(whole[i]));
        }
    }
}

/// Where the decimal point stands, there is one, and there is none before it.
proof fn lemma_point_is_a_point(number: Seq<char>)
    ensures
        0 <= point(number) <= number.len(),
        point(number) < number.len() ==> number[point(number) as int] == '.',
        forall|i: int| 0 <= i < point(number) ==> number[i] != '.',
    decreases number.len(),
{
    if number.len() > 0 && number[0] != '.' {
        lemma_point_is_a_point(number.skip(1));
        assert forall|i: int| 0 <= i < point(number) implies number[i] != '.' by {
            if i > 0 {
                assert(number[i] == number.skip(1)[i - 1]);
            }
        }
    }
}

/// Of all 32-bit random numbers the share that select an interval is the probability
/// that was asked for, rounded down to a multiple of 2^-32.
pub proof fn law_intervals_are_selected_with_the_probability_asked_for(
    whole: Seq<char>,
    part: Seq<char>,
    config: Config,
    interval: Interval,
)
    requires
        forall|i: int| 0 <= i < whole.len() ==> '0' <= #[trigger] whole[i] <= '9',
        forall|i: int| 0 <= i < part.len() ==> '0' <= #[trigger] part[i] <= '9',
        whole.len() + part.len() > 0,
        threshold(whole + seq!['.'] + part) == Ok::<u64, ProbabilityError>(
            config.sample_threshold,
        ),
    ensures
        ({
            let unit = vstd::arithmetic::power::pow(10, part.len());
            let units = text::decimal_value(whole) * unit + text::decimal_value(part);
            let selecting = probe::selecting_numbers(config, interval).len();
            &&& selecting * unit <= units * 0x1_0000_0000
            &&& units * 0x1_0000_0000 < (selecting + 1) * unit
        }),
{
    law_the_threshold_of_a_decimal_number(whole, part);
    law_the_threshold_is_the_probability_rounded_down(whole + seq!['.'] + part);
    probe::law_as_many_numbers_select_as_the_threshold_says(config, interval);
}

} // verus!
