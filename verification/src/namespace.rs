//! Thread identifiers across PID namespaces.

use vstd::prelude::*;

use crate::text;

verus! {

/// The characters that separate words: those with the Unicode property
/// `White_Space`.
pub open spec fn is_whitespace(c: char) -> bool {
    ||| '\u{9}' <= c <= '\u{d}'
    ||| c == '\u{20}'
    ||| c == '\u{85}'
    ||| c == '\u{a0}'
    ||| c == '\u{1680}'
    ||| '\u{2000}' <= c <= '\u{200a}'
    ||| c == '\u{2028}'
    ||| c == '\u{2029}'
    ||| c == '\u{202f}'
    ||| c == '\u{205f}'
    ||| c == '\u{3000}'
}

/// How many characters stand before the first line feed, or in all if there is
/// none.
pub open spec fn line_len(text: Seq<char>) -> nat
    decreases text.len(),
{
    if text.len() == 0 || text[0] == '\n' {
        0
    } else {
        1 + line_len(text.skip(1))
    }
}

/// What follows `NSpid:` on the first line that begins with it.
pub open spec fn namespace_field(status: Seq<char>) -> Option<Seq<char>>
    decreases status.len(),
{
    let line = status.take(line_len(status) as int);
    if "NSpid:"@.is_prefix_of(line) {
        Some(line.skip("NSpid:"@.len() as int))
    } else if line_len(status) < status.len() {
        namespace_field(status.skip(line_len(status) as int + 1))
    } else {
        None
    }
}

/// The characters at the end that no whitespace interrupts.
pub open spec fn word_at_end(text: Seq<char>) -> Seq<char>
    decreases text.len(),
{
    if text.len() == 0 || is_whitespace(text.last()) {
        seq![]
    } else {
        word_at_end(text.drop_last()).push(text.last())
    }
}

/// The last of the words that whitespace separates; empty if there is none.
pub open spec fn last_word(text: Seq<char>) -> Seq<char>
    decreases text.len(),
{
    if text.len() > 0 && is_whitespace(text.last()) {
        last_word(text.drop_last())
    } else {
        word_at_end(text)
    }
}

/// The number that a word stands for: decimal digits, after a plus sign or not.
pub open spec fn number(word: Seq<char>) -> Option<u32> {
    let digits = if word.len() > 0 && word[0] == '+' {
        word.skip(1)
    } else {
        word
    };
    if digits.len() > 0 && text::all_digits(digits) && text::decimal_value(digits) <= u32::MAX {
        Some(text::decimal_value(digits) as u32)
    } else {
        None
    }
}

/// The identifier in the innermost namespace that a task's status gives.
pub open spec fn innermost_pid(status: Seq<char>) -> Option<u32> {
    match namespace_field(status) {
        Some(field) => number(last_word(field)),
        None => None,
    }
}

fn whitespace(c: char) -> (is: bool)
    ensures
        is == is_whitespace(c),
{
    ('\u{9}' <= c && c <= '\u{d}') || c == '\u{20}' || c == '\u{85}' || c == '\u{a0}' || c
        == '\u{1680}' || ('\u{2000}' <= c && c <= '\u{200a}') || c == '\u{2028}' || c == '\u{2029}'
        || c == '\u{202f}' || c == '\u{205f}' || c == '\u{3000}'
}

proof fn lemma_line_len(text: Seq<char>, end: int)
    requires
        0 <= end <= text.len(),
        forall|i: int| 0 <= i < end ==> text[i] != '\n',
        end < text.len() ==> text[end] == '\n',
    ensures
        line_len(text) == end,
    decreases text.len(),
{
    if end > 0 {
        assert forall|i: int| 0 <= i < end - 1 implies text.skip(1)[i] != '\n' by {
            assert(text.skip(1)[i] == text[i + 1]);
        }
        lemma_line_len(text.skip(1), end - 1);
    }
}

/// Copies characters from one position up to another.
fn copy_range(chars: &Vec<char>, from: usize, to: usize) -> (part: Vec<char>)
    requires
        from <= to <= chars@.len(),
    ensures
        part@ == chars@.subrange(from as int, to as int),
{
    let mut part: Vec<char> = Vec::new();
    let mut i: usize = from;
    while i < to
        invariant
            from <= i <= to <= chars@.len(),
            part@ == chars@.subrange(from as int, i as int),
        decreases to - i,
    {
        part.push(chars[i]);
        assert(part@ =~= chars@.subrange(from as int, i + 1));
        i = i + 1;
    }
    part
}

/// Finds what follows `NSpid:` on the first line that begins with it.
fn find_namespace_field(status: &Vec<char>) -> (field: Option<Vec<char>>)
    ensures
        match field {
            Some(field) => namespace_field(status@) == Some(field@),
            None => namespace_field(status@) is None,
        },
{
    let key = text::to_chars("NSpid:");
    let mut start: usize = 0;
    assert(status@.skip(0) =~= status@);
    loop
        invariant
            key@ == "NSpid:"@,
            0 <= start <= status@.len(),
            namespace_field(status@) == namespace_field(status@.skip(start as int)),
        decreases status@.len() - start,
    {
        let ghost rest = status@.skip(start as int);
        let mut end: usize = start;
        while end < status.len() && status[end] != '\n'
            invariant
                start <= end <= status@.len(),
                forall|i: int| start <= i < end ==> status@[i] != '\n',
            decreases status@.len() - end,
        {
            end = end + 1;
        }
        let line = copy_range(status, start, end);
        proof {
            lemma_line_len(rest, end - start);
            assert(line@ =~= rest.take(end - start));
        }
        if text::starts_with(&line, &key) {
            let field = copy_range(&line, key.len(), line.len());
            assert(field@ =~= line@.skip(key@.len() as int));
            return Some(field);
        }
        if end >= status.len() {
            return None;
        }
        assert(rest.skip(end - start + 1) =~= status@.skip(end + 1));
        start = end + 1;
    }
}

/// Finds the last of the words that whitespace separates.
fn find_last_word(field: &Vec<char>) -> (word: Vec<char>)
    ensures
        word@ == last_word(field@),
{
    let mut end: usize = field.len();
    assert(field@.take(end as int) =~= field@);
    while end > 0 && whitespace(field[end - 1])
        invariant
            0 <= end <= field@.len(),
            last_word(field@) == last_word(field@.take(end as int)),
        decreases end,
    {
        assert(field@.take(end as int).drop_last() =~= field@.take(end - 1));
        end = end - 1;
    }
    let mut start: usize = end;
    assert(field@.subrange(end as int, end as int) =~= seq![]);
    assert(word_at_end(field@.take(end as int)) =~= word_at_end(field@.take(end as int))
        + field@.subrange(end as int, end as int));
    while start > 0 && !whitespace(field[start - 1])
        invariant
            0 <= start <= end <= field@.len(),
            word_at_end(field@.take(end as int)) == word_at_end(field@.take(start as int))
                + field@.subrange(start as int, end as int),
        decreases start,
    {
        assert(field@.take(start as int).drop_last() =~= field@.take(start - 1));
        assert(word_at_end(field@.take(start - 1)).push(field@[start - 1]) + field@.subrange(
            start as int,
            end as int,
        ) =~= word_at_end(field@.take(start - 1)) + field@.subrange(start - 1, end as int));
        start = start - 1;
    }
    assert(Seq::<char>::empty() + field@.subrange(start as int, end as int) =~= field@.subrange(
        start as int,
        end as int,
    ));
    copy_range(field, start, end)
}

proof fn lemma_decimal_value_grows(digits: Seq<char>, count: int)
    requires
        0 <= count <= digits.len(),
    ensures
        text::decimal_value(digits.take(count)) <= text::decimal_value(digits),
    decreases digits.len(),
{
    if count < digits.len() {
        lemma_decimal_value_grows(digits.drop_last(), count);
        assert(digits.drop_last().take(count) =~= digits.take(count));
    } else {
        assert(digits.take(count) =~= digits);
    }
}

/// Reads the number that a word stands for.
fn parse_number(word: &Vec<char>) -> (value: Option<u32>)
    ensures
        value == number(word@),
{
    let start: usize = if word.len() > 0 && word[0] == '+' {
        1
    } else {
        0
    };
    let ghost digits = word@.skip(start as int);
    assert(digits =~= if word@.len() > 0 && word@[0] == '+' {
        word@.skip(1)
    } else {
        word@
    });
    if start >= word.len() {
        return None;
    }
    let mut value: u64 = 0;
    let mut i: usize = start;
    assert(digits.take(0) =~= seq![]);
    while i < word.len()
        invariant
            start <= i <= word@.len(),
            digits == word@.skip(start as int),
            digits.len() > 0,
            number(word@) == (if text::all_digits(digits) && text::decimal_value(digits) <= u32::MAX {
                Some(text::decimal_value(digits) as u32)
            } else {
                None
            }),
            value <= u32::MAX,
            value == text::decimal_value(digits.take(i - start)),
            forall|k: int| 0 <= k < i - start ==> text::is_decimal_digit(#[trigger] digits[k]),
        decreases word@.len() - i,
    {
        let c = word[i];
        assert(c == digits[i - start]);
        if c < '0' || c > '9' {
            assert(!text::is_decimal_digit(digits[i - start]));
            return None;
        }
        assert(digits.take(i - start + 1).drop_last() =~= digits.take(i - start));
        value = value * 10 + (c as u32 - 48) as u64;
        if value > u32::MAX as u64 {
            proof {
                lemma_decimal_value_grows(digits, i - start + 1);
            }
            return None;
        }
        i = i + 1;
    }
    assert(digits.take(i - start) =~= digits);
    Some(value as u32)
}

/// The identifier of a task in the innermost PID namespace, out of its status.
pub fn parse_innermost_namespace_pid(status: &str) -> (pid: Option<u32>)
    ensures
        pid == innermost_pid(status@),
{
    let chars = text::to_chars(status);
    match find_namespace_field(&chars) {
        Some(field) => {
            let word = find_last_word(&field);
            parse_number(&word)
        },
        None => None,
    }
}

/// Where the status of a task is found.
pub fn status_path(host_tgid: u32, host_tid: u32) -> (path: String)
    ensures
        path@ == "/proc/"@ + text::decimal(host_tgid as nat) + "/task/"@ + text::decimal(
            host_tid as nat,
        ) + "/status"@,
{
    let mut path = text::copied("/proc/");
    text::append_decimal(&mut path, host_tgid as u64);
    text::append(&mut path, "/task/");
    text::append_decimal(&mut path, host_tid as u64);
    text::append(&mut path, "/status");
    path
}

/// The identifier of a task in the innermost PID namespace, given its status or
/// why it could not be read.
pub fn namespace_tid(status: &Result<String, String>) -> (tid: Result<u32, String>)
    ensures
        match (*status, tid) {
            (Ok(status), Ok(tid)) => innermost_pid(status@) == Some(tid),
            (Ok(status), Err(error)) => innermost_pid(status@) is None && error@
                == "NSpid is missing from task status"@,
            (Err(unread), Ok(_)) => false,
            (Err(unread), Err(error)) => error@ == unread@,
        },
{
    match status {
        Ok(status) => match parse_innermost_namespace_pid(status.as_str()) {
            Some(tid) => Ok(tid),
            None => Err(text::copied("NSpid is missing from task status")),
        },
        Err(error) => Err(error.clone()),
    }
}

/// No line of a text begins with a key: neither its first nor one after a line feed.
pub open spec fn no_line_begins_with(text: Seq<char>, key: Seq<char>) -> bool {
    forall|i: int|
        0 <= i <= text.len() && (i == 0 || text[i - 1] == '\n') ==> !key.is_prefix_of(
            #[trigger] text.skip(i),
        )
}

/// The first line of a text.
proof fn lemma_first_line(text: Seq<char>)
    ensures
        line_len(text) <= text.len(),
        forall|i: int| 0 <= i < line_len(text) ==> text[i] != '\n',
        line_len(text) < text.len() ==> text[line_len(text) as int] == '\n',
    decreases text.len(),
{
    if text.len() > 0 && text[0] != '\n' {
        lemma_first_line(text.skip(1));
        assert forall|i: int| 0 <= i < line_len(text) implies text[i] != '\n' by {
            if i > 0 {
                assert(text[i] == text.skip(1)[i - 1]);
            }
        }
    }
}

/// A part of a text that begins after a line feed has no more lines than the text.
proof fn lemma_no_later_line_begins(text: Seq<char>, key: Seq<char>, at: int)
    requires
        no_line_begins_with(text, key),
        0 < at <= text.len(),
        text[at - 1] == '\n',
    ensures
        no_line_begins_with(text.skip(at), key),
{
    let rest = text.skip(at);
    assert forall|i: int|
        0 <= i <= rest.len() && (i == 0 || rest[i - 1] == '\n') implies !key.is_prefix_of(
        #[trigger] rest.skip(i),
    ) by {
        assert(rest.skip(i) =~= text.skip(at + i));
        assert(i > 0 ==> rest[i - 1] == text[at + i - 1]);
    }
}

/// Lines that do not begin with the key do not matter.
proof fn lemma_other_lines_do_not_matter(before: Seq<char>, rest: Seq<char>)
    requires
        before.len() == 0 || before.last() == '\n',
        no_line_begins_with(before, "NSpid:"@),
    ensures
        namespace_field(before + rest) == namespace_field(rest),
    decreases before.len(),
{
    let status = before + rest;
    if before.len() == 0 {
        assert(status =~= rest);
    } else {
        lemma_first_line(before);
        let end = line_len(before) as int;
        assert(end < before.len()) by {
            if end == before.len() {
                assert(before[before.len() - 1] != '\n');
            }
        }
        assert forall|i: int| 0 <= i < end implies status[i] != '\n' by {
            assert(status[i] == before[i]);
        }
        lemma_line_len(status, end);
        let line = status.take(end);
        assert(before.skip(0) =~= before);
        if "NSpid:"@.is_prefix_of(line) {
            assert("NSpid:"@ =~= before.subrange(0, "NSpid:"@.len() as int));
            assert("NSpid:"@.is_prefix_of(before.skip(0)));
        }
        let later = before.skip(end + 1);
        lemma_no_later_line_begins(before, "NSpid:"@, end + 1);
        assert(later.len() > 0 ==> later.last() == before.last());
        lemma_other_lines_do_not_matter(later, rest);
        assert(status.skip(end + 1) =~= later + rest);
    }
}

/// A status in which no line begins with `NSpid:` gives no identifier.
pub proof fn law_without_the_line_there_is_no_identifier(status: Seq<char>)
    requires
        no_line_begins_with(status, "NSpid:"@),
    ensures
        innermost_pid(status) is None,
    decreases status.len(),
{
    lemma_first_line(status);
    let end = line_len(status) as int;
    let line = status.take(end);
    assert(status.skip(0) =~= status);
    if "NSpid:"@.is_prefix_of(line) {
        assert("NSpid:"@ =~= status.subrange(0, "NSpid:"@.len() as int));
        assert("NSpid:"@.is_prefix_of(status.skip(0)));
    }
    if end < status.len() {
        lemma_no_later_line_begins(status, "NSpid:"@, end + 1);
        law_without_the_line_there_is_no_identifier(status.skip(end + 1));
    }
}

/// The last word of a text that ends in a word and whitespace.
proof fn lemma_last_word(head: Seq<char>, word: Seq<char>, tail: Seq<char>)
    requires
        head.len() == 0 || is_whitespace(head.last()),
        forall|i: int| 0 <= i < word.len() ==> !is_whitespace(#[trigger] word[i]),
        word.len() > 0,
        forall|i: int| 0 <= i < tail.len() ==> is_whitespace(#[trigger] tail[i]),
    ensures
        last_word(head + word + tail) == word,
    decreases tail.len(),
{
    let text = head + word + tail;
    if tail.len() > 0 {
        let fewer = tail.drop_last();
        assert(text.last() == tail[tail.len() - 1]);
        assert forall|i: int| 0 <= i < fewer.len() implies is_whitespace(#[trigger] fewer[i]) by {
            assert(fewer[i] == tail[i]);
        }
        lemma_last_word(head, word, fewer);
        assert(text.drop_last() =~= head + word + fewer);
    } else {
        assert(text =~= head + word);
        assert(text.last() == word[word.len() - 1]);
        lemma_word_at_end(head, word);
    }
}

proof fn lemma_word_at_end(head: Seq<char>, word: Seq<char>)
    requires
        head.len() == 0 || is_whitespace(head.last()),
        forall|i: int| 0 <= i < word.len() ==> !is_whitespace(#[trigger] word[i]),
    ensures
        word_at_end(head + word) == word,
    decreases word.len(),
{
    let text = head + word;
    if word.len() > 0 {
        let fewer = word.drop_last();
        assert(text.last() == word[word.len() - 1]);
        assert forall|i: int| 0 <= i < fewer.len() implies !is_whitespace(#[trigger] fewer[i]) by {
            assert(fewer[i] == word[i]);
        }
        lemma_word_at_end(head, fewer);
        assert(text.drop_last() =~= head + fewer);
        assert(word_at_end(text) =~= word);
    } else {
        assert(text =~= head);
        assert(word_at_end(text) =~= word);
    }
}

/// The field on the first line that begins with `NSpid:`, whatever follows that line.
proof fn lemma_field_of_the_first_line(before: Seq<char>, field: Seq<char>, after: Seq<char>)
    requires
        before.len() == 0 || before.last() == '\n',
        no_line_begins_with(before, "NSpid:"@),
        forall|i: int| 0 <= i < field.len() ==> field[i] != '\n',
        after.len() == 0 || after[0] == '\n',
    ensures
        namespace_field(before + ("NSpid:"@ + field + after)) == Some(field),
{
    reveal_strlit("NSpid:");
    let rest = "NSpid:"@ + field + after;
    lemma_other_lines_do_not_matter(before, rest);
    let end = "NSpid:"@.len() + field.len();
    assert forall|i: int| 0 <= i < end implies rest[i] != '\n' by {
        if i >= "NSpid:"@.len() {
            assert(rest[i] == field[i - "NSpid:"@.len()]);
        } else {
            assert(rest[i] == "NSpid:"@[i]);
        }
    }
    lemma_line_len(rest, end as int);
    let line = rest.take(end as int);
    assert(line =~= "NSpid:"@ + field);
    assert("NSpid:"@.is_prefix_of(line));
    assert(line.skip("NSpid:"@.len() as int) =~= field);
}

/// The identifier is the last word on the first line that begins with `NSpid:`, and no
/// other line matters. The word stands for a number if it is made up of decimal
/// digits, after a plus sign or not, and the number has 32 bits.
pub proof fn law_the_identifier_is_the_last_word_of_its_line(
    before: Seq<char>,
    outer: Seq<char>,
    sign: Seq<char>,
    digits: Seq<char>,
    space: Seq<char>,
    after: Seq<char>,
)
    requires
        before.len() == 0 || before.last() == '\n',
        no_line_begins_with(before, "NSpid:"@),
        outer.len() == 0 || is_whitespace(outer.last()),
        forall|i: int| 0 <= i < outer.len() ==> outer[i] != '\n',
        sign == Seq::<char>::empty() || sign == seq!['+'],
        digits.len() > 0,
        forall|i: int| 0 <= i < digits.len() ==> '0' <= #[trigger] digits[i] <= '9',
        forall|i: int| 0 <= i < space.len() ==> is_whitespace(#[trigger] space[i]),
        forall|i: int| 0 <= i < space.len() ==> space[i] != '\n',
        after.len() == 0 || after[0] == '\n',
    ensures
        ({
            let field = outer + (sign + digits) + space;
            innermost_pid(before + ("NSpid:"@ + field + after)) == if text::decimal_value(digits)
                <= 0xffff_ffff {
                Some(text::decimal_value(digits) as u32)
            } else {
                None
            }
        }),
{
    let word = sign + digits;
    let field = outer + word + space;
    assert forall|i: int| 0 <= i < digits.len() implies text::is_decimal_digit(
        #[trigger] digits[i],
    ) by {}
    assert forall|i: int| 0 <= i < word.len() implies !is_whitespace(#[trigger] word[i]) by {
        if i >= sign.len() {
            assert(word[i] == digits[i - sign.len()]);
            assert(text::is_decimal_digit(digits[i - sign.len()]));
        } else {
            assert(word[i] == '+');
        }
    }
    lemma_last_word(outer, word, space);
    assert forall|i: int| 0 <= i < field.len() implies field[i] != '\n' by {
        if i < outer.len() {
            assert(field[i] == outer[i]);
        } else if i < outer.len() + word.len() {
            assert(field[i] == word[i - outer.len()]);
            assert(!is_whitespace(word[i - outer.len()]));
        } else {
            assert(field[i] == space[i - outer.len() - word.len()]);
        }
    }
    lemma_field_of_the_first_line(before, field, after);
    if sign.len() > 0 {
        assert(word.skip(1) =~= digits);
    } else {
        assert(word =~= digits);
        assert(text::is_decimal_digit(digits[0]));
    }
}

/// A line that begins with `NSpid:` whose last word is not a number, or that has no
/// word, gives no identifier, whatever other lines say.
pub proof fn law_a_line_without_a_number_gives_no_identifier(
    before: Seq<char>,
    outer: Seq<char>,
    word: Seq<char>,
    space: Seq<char>,
    after: Seq<char>,
    at: int,
)
    requires
        before.len() == 0 || before.last() == '\n',
        no_line_begins_with(before, "NSpid:"@),
        outer.len() == 0 || is_whitespace(outer.last()),
        forall|i: int| 0 <= i < outer.len() ==> outer[i] != '\n',
        forall|i: int| 0 <= i < word.len() ==> !is_whitespace(#[trigger] word[i]),
        forall|i: int| 0 <= i < space.len() ==> is_whitespace(#[trigger] space[i]),
        forall|i: int| 0 <= i < space.len() ==> space[i] != '\n',
        after.len() == 0 || after[0] == '\n',
        ({
            ||| outer.len() == 0 && word.len() == 0
            ||| word == seq!['+']
            ||| 0 <= at < word.len() && !('0' <= word[at] <= '9') && (at > 0 || word[at] != '+')
        }),
    ensures
        innermost_pid(before + ("NSpid:"@ + (outer + word + space) + after)) is None,
{
    let field = outer + word + space;
    assert forall|i: int| 0 <= i < field.len() implies field[i] != '\n' by {
        if i < outer.len() {
            assert(field[i] == outer[i]);
        } else if i < outer.len() + word.len() {
            assert(field[i] == word[i - outer.len()]);
            assert(!is_whitespace(word[i - outer.len()]));
        } else {
            assert(field[i] == space[i - outer.len() - word.len()]);
        }
    }
    lemma_field_of_the_first_line(before, field, after);
    if word.len() > 0 {
        lemma_last_word(outer, word, space);
        if 0 <= at < word.len() && !('0' <= word[at] <= '9') && (at > 0 || word[at] != '+') {
            let digits = if word[0] == '+' {
                word.skip(1)
            } else {
                word
            };
            if text::all_digits(digits) {
                if word[0] == '+' {
                    assert(digits[at - 1] == word[at]);
                    assert(text::is_decimal_digit(digits[at - 1]));
                } else {
                    assert(text::is_decimal_digit(digits[at]));
                }
            }
        } else {
            assert(word.skip(1).len() == 0);
        }
    } else {
        assert(field =~= space);
        lemma_no_word(space);
    }
}

proof fn lemma_no_word(space: Seq<char>)
    requires
        forall|i: int| 0 <= i < space.len() ==> is_whitespace(#[trigger] space[i]),
    ensures
        last_word(space).len() == 0,
    decreases space.len(),
{
    if space.len() > 0 {
        let fewer = space.drop_last();
        assert(is_whitespace(space[space.len() - 1]));
        assert forall|i: int| 0 <= i < fewer.len() implies is_whitespace(#[trigger] fewer[i]) by {
            assert(fewer[i] == space[i]);
        }
        lemma_no_word(fewer);
    }
}

/// Which characters separate words, by number.
pub proof fn law_words_are_separated_by_white_space(c: char)
    ensures
        is_whitespace(c) <==> {
            let code = c as int;
            ||| 9 <= code <= 13
            ||| code == 32
            ||| code == 133
            ||| code == 160
            ||| code == 5_760
            ||| 8_192 <= code <= 8_202
            ||| code == 8_232
            ||| code == 8_233
            ||| code == 8_239
            ||| code == 8_287
            ||| code == 12_288
        },
{
}

/// The identifiers of a thread are listed from the outermost namespace to the
/// innermost, with tabs before them: the innermost is found.
pub proof fn law_the_innermost_of_the_listed_identifiers_is_found(
    before: Seq<char>,
    outer: Seq<u32>,
    tid: u32,
    after: Seq<char>,
)
    requires
        before.len() == 0 || before.last() == '\n',
        no_line_begins_with(before, "NSpid:"@),
        after.len() == 0 || after[0] == '\n',
    ensures
        innermost_pid(before + ("NSpid:"@ + listed(outer.push(tid)) + after)) == Some(tid),
{
    let digits = text::decimal(tid as nat);
    text::law_decimal_can_be_read_back(tid as nat);
    let head = listed(outer).push('\t');
    lemma_listed(outer);
    assert forall|i: int| 0 <= i < digits.len() implies '0' <= #[trigger] digits[i] <= '9' by {
        assert(text::is_decimal_digit(digits[i]));
    }
    law_the_identifier_is_the_last_word_of_its_line(before, head, seq![], digits, seq![], after);
    assert(outer.push(tid).drop_last() =~= outer);
    assert(listed(outer.push(tid)) =~= head + (Seq::<char>::empty() + digits) + Seq::<
        char,
    >::empty());
}

/// Identifiers, with a tab before each.
pub open spec fn listed(ids: Seq<u32>) -> Seq<char>
    decreases ids.len(),
{
    if ids.len() == 0 {
        seq![]
    } else {
        listed(ids.drop_last()).push('\t') + text::decimal(ids.last() as nat)
    }
}

proof fn lemma_listed(ids: Seq<u32>)
    ensures
        forall|i: int| 0 <= i < listed(ids).len() ==> listed(ids)[i] != '\n',
    decreases ids.len(),
{
    if ids.len() > 0 {
        lemma_listed(ids.drop_last());
        let digits = text::decimal(ids.last() as nat);
        let head = listed(ids.drop_last()).push('\t');
        text::law_decimal_can_be_read_back(ids.last() as nat);
        assert forall|i: int| 0 <= i < listed(ids).len() implies listed(ids)[i] != '\n' by {
            if i >= head.len() {
                assert(listed(ids)[i] == digits[i - head.len()]);
                assert(text::is_decimal_digit(digits[i - head.len()]));
            }
        }
    }
}

} // verus!
