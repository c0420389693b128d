//! Numbers and characters as text.

use vstd::prelude::*;
use vstd::string::StringExecFns;

verus! {

/// `String::push` appends one character to the end of a string.
pub assume_specification[ String::push ](string: &mut String, c: char)
    ensures
        final(string)@ == old(string)@.push(c),
;

/// The character for a digit, in lower case.
pub open spec fn digit(value: nat) -> char {
    if value < 10 {
        (48 + value) as char
    } else {
        (87 + value) as char
    }
}

/// A number in decimal, most significant digit first.
pub open spec fn decimal(value: nat) -> Seq<char>
    decreases value,
{
    if value < 10 {
        seq![digit(value)]
    } else {
        decimal(value / 10).push(digit(value % 10))
    }
}

/// A number in decimal with a minus sign where it is negative.
pub open spec fn signed_decimal(value: int) -> Seq<char> {
    if value < 0 {
        seq!['-'] + decimal((-value) as nat)
    } else {
        decimal(value as nat)
    }
}

/// A number in hexadecimal, most significant digit first.
pub open spec fn hexadecimal(value: nat) -> Seq<char>
    decreases value,
{
    if value < 16 {
        seq![digit(value)]
    } else {
        hexadecimal(value / 16).push(digit(value % 16))
    }
}

/// A character that is a decimal digit.
pub open spec fn is_decimal_digit(c: char) -> bool {
    '0' <= c <= '9'
}

/// Every character is a decimal digit.
pub open spec fn all_digits(digits: Seq<char>) -> bool {
    forall|i: int| 0 <= i < digits.len() ==> is_decimal_digit(#[trigger] digits[i])
}

/// What a string of decimal digits stands for.
pub open spec fn decimal_value(digits: Seq<char>) -> nat
    decreases digits.len(),
{
    if digits.len() == 0 {
        0
    } else {
        decimal_value(digits.drop_last()) * 10 + (digits.last() as nat - 48) as nat
    }
}

/// A number can be read back from its decimal digits.
pub proof fn law_decimal_can_be_read_back(value: nat)
    ensures
        decimal_value(decimal(value)) == value,
        decimal(value).len() > 0,
        forall|i: int|
            0 <= i < decimal(value).len() ==> is_decimal_digit(#[trigger] decimal(value)[i]),
    decreases value,
{
    reveal_with_fuel(decimal_value, 2);
    if value >= 10 {
        law_decimal_can_be_read_back(value / 10);
        assert(decimal(value).drop_last() =~= decimal(value / 10));
    } else {
        assert(decimal(value).drop_last() =~= seq![]);
    }
}

/// Ten times a number and a digit is written as the number and then the digit.
pub proof fn law_decimal_digits_stand_for_powers_of_ten(value: nat, last: nat)
    requires
        last < 10,
    ensures
        decimal(last).len() == 1,
        decimal(last)[0] as int == '0' as int + last,
        value > 0 ==> decimal(value * 10 + last) == decimal(value) + decimal(last),
{
    if value > 0 {
        let whole = value * 10 + last;
        vstd::arithmetic::div_mod::lemma_fundamental_div_mod_converse(
            whole as int,
            10,
            value as int,
            last as int,
        );
        assert(decimal(whole) =~= decimal(value) + decimal(last));
    }
}

/// Sixteen times a number and a digit is written as the number and then the digit, in
/// lower case.
pub proof fn law_hexadecimal_digits_stand_for_powers_of_sixteen(value: nat, last: nat)
    requires
        last < 16,
    ensures
        hexadecimal(last).len() == 1,
        last < 10 ==> hexadecimal(last)[0] as int == '0' as int + last,
        last >= 10 ==> hexadecimal(last)[0] as int == 'a' as int + (last - 10),
        value > 0 ==> hexadecimal(value * 16 + last) == hexadecimal(value) + hexadecimal(last),
{
    if value > 0 {
        let whole = value * 16 + last;
        vstd::arithmetic::div_mod::lemma_fundamental_div_mod_converse(
            whole as int,
            16,
            value as int,
            last as int,
        );
        assert(hexadecimal(whole) =~= hexadecimal(value) + hexadecimal(last));
    }
}

/// A negative number is written as a minus sign and the number without it.
pub proof fn law_a_minus_sign_stands_before_a_negative_number(value: nat)
    ensures
        signed_decimal(value as int) == decimal(value),
        value > 0 ==> signed_decimal(-(value as int)) == seq!['-'] + decimal(value),
{
}

/// One more digit counts for itself, and those before it for ten times as much.
pub proof fn law_digits_are_read_as_decimal(digits: Seq<char>, last: char)
    requires
        '0' <= last <= '9',
    ensures
        decimal_value(seq![]) == 0,
        decimal_value(digits.push(last)) == 10 * decimal_value(digits) + (last as int - '0' as int),
        all_digits(digits.push(last)) == all_digits(digits),
        all_digits(digits) <==> forall|i: int|
            0 <= i < digits.len() ==> '0' <= #[trigger] digits[i] <= '9',
{
    let longer = digits.push(last);
    assert(longer.drop_last() =~= digits);
    assert(longer.last() == last);
    if all_digits(longer) {
        assert forall|i: int| 0 <= i < digits.len() implies is_decimal_digit(
            #[trigger] digits[i],
        ) by {
            assert(longer[i] == digits[i]);
        }
    }
    if all_digits(digits) {
        assert forall|i: int| 0 <= i < digits.len() implies '0' <= #[trigger] digits[i] <= '9' by {
            assert(is_decimal_digit(digits[i]));
        }
    }
}

/// Appends a digit.
fn append_digit(out: &mut String, value: u64)
    requires
        value < 16,
    ensures
        final(out)@ == old(out)@.push(digit(value as nat)),
{
    if value < 10 {
        out.push((48 + value as u8) as char);
    } else {
        out.push((87 + value as u8) as char);
    }
}

/// Appends a number in decimal.
pub fn append_decimal(out: &mut String, value: u64)
    ensures
        final(out)@ == old(out)@ + decimal(value as nat),
    decreases value,
{
    if value >= 10 {
        append_decimal(out, value / 10);
    }
    append_digit(out, value % 10);
    assert(out@ =~= old(out)@ + decimal(value as nat));
}

/// Appends a signed number in decimal.
pub fn append_signed_decimal(out: &mut String, value: i64)
    ensures
        final(out)@ == old(out)@ + signed_decimal(value as int),
{
    if value < 0 {
        out.push('-');
        append_decimal(out, (-(value as i128)) as u64);
    } else {
        append_decimal(out, value as u64);
    }
    assert(out@ =~= old(out)@ + signed_decimal(value as int));
}

/// Appends a number in hexadecimal.
pub fn append_hexadecimal(out: &mut String, value: u64)
    ensures
        final(out)@ == old(out)@ + hexadecimal(value as nat),
    decreases value,
{
    if value >= 16 {
        append_hexadecimal(out, value / 16);
    }
    append_digit(out, value % 16);
    assert(out@ =~= old(out)@ + hexadecimal(value as nat));
}

/// The characters of a string.
pub fn to_chars(text: &str) -> (chars: Vec<char>)
    ensures
        chars@ == text@,
{
    let mut chars: Vec<char> = Vec::new();
    for c in iter: text.chars()
        invariant
            chars@ == iter.seq().take(iter.index() as int),
            iter.seq() == text@,
            iter.index() == iter.seq().len() ==> chars@ == text@,
    {
        chars.push(c);
    }
    chars
}

/// Appends a string.
pub fn append(out: &mut String, text: &str)
    ensures
        final(out)@ == old(out)@ + text@,
{
    out.append(text);
}

/// A copy of a string.
pub fn copied(text: &str) -> (copy: String)
    ensures
        copy@ == text@,
{
    let mut copy = String::new();
    append(&mut copy, text);
    assert(copy@ =~= text@);
    copy
}

/// What bytes say as text: what is not UTF-8 is replaced.
pub uninterp spec fn lossy_text(bytes: Seq<u8>) -> Seq<char>;

/// Calls `String::from_utf8_lossy`: bytes that are UTF-8 give the characters
/// that they encode, and others a text that they determine.
#[verifier::external_body]
pub(crate) fn from_utf8_lossy(bytes: &[u8]) -> (text: String)
    ensures
        text@ == lossy_text(bytes@),
        vstd::utf8::valid_utf8(bytes@) ==> text@ == vstd::utf8::decode_utf8(bytes@),
{
    String::from_utf8_lossy(bytes).into_owned()
}

/// Whether a part stands at a position of some characters.
fn stands_at(chars: &Vec<char>, position: usize, part: &Vec<char>) -> (found: bool)
    requires
        position + part@.len() <= chars@.len(),
    ensures
        found == (chars@.subrange(position as int, position + part@.len()) == part@),
{
    let mut i: usize = 0;
    while i < part.len()
        invariant
            0 <= i <= part@.len(),
            position + part.len() <= chars.len(),
            forall|k: int| 0 <= k < i ==> #[trigger] part@[k] == chars@[position + k],
        decreases part@.len() - i,
    {
        if chars[position + i] != part[i] {
            assert(chars@.subrange(position as int, position + part@.len())[i as int]
                != part@[i as int]);
            return false;
        }
        i = i + 1;
    }
    assert(chars@.subrange(position as int, position + part@.len()) =~= part@);
    true
}

/// Whether some characters are the same as others.
pub fn equal(chars: &Vec<char>, others: &Vec<char>) -> (same: bool)
    ensures
        same == (chars@ == others@),
{
    if chars.len() != others.len() {
        return false;
    }
    assert(chars@.subrange(0, others@.len() as int) =~= chars@);
    stands_at(chars, 0, others)
}

/// Whether some characters begin with a prefix.
pub fn starts_with(chars: &Vec<char>, prefix: &Vec<char>) -> (found: bool)
    ensures
        found == prefix@.is_prefix_of(chars@),
{
    if prefix.len() > chars.len() {
        return false;
    }
    stands_at(chars, 0, prefix)
}

/// Whether some characters end with a suffix.
pub fn ends_with(chars: &Vec<char>, suffix: &Vec<char>) -> (found: bool)
    ensures
        found == suffix@.is_suffix_of(chars@),
{
    if suffix.len() > chars.len() {
        return false;
    }
    stands_at(chars, chars.len() - suffix.len(), suffix)
}

} // verus!
