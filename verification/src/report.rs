//! How results are shown.

use vstd::prelude::*;

use crate::events::{BpfEvent, JvmEvent, JvmFrame};
use crate::namespace;
use crate::text;

verus! {

/// A frame: its position, its address or method, and what it is called.
pub open spec fn frame_text(position: nat, address: u64, symbol: Seq<char>) -> Seq<char> {
    "  "@ + text::decimal(position) + ": [0x"@ + text::hexadecimal(address as nat) + "] "@ + symbol
}

/// The frames of a native stack, each on a line.
pub open spec fn native_text(frames: Seq<(u64, String)>) -> Seq<char>
    decreases frames.len(),
{
    if frames.len() == 0 {
        seq![]
    } else {
        native_text(frames.drop_last()) + frame_text(
            (frames.len() - 1) as nat,
            frames.last().0,
            frames.last().1@,
        ) + "\n"@
    }
}

/// The frames of a JVM stack, with line breaks between them.
pub open spec fn jvm_text(frames: Seq<JvmFrame>) -> Seq<char>
    decreases frames.len(),
{
    if frames.len() == 0 {
        seq![]
    } else {
        jvm_text(frames.drop_last()) + (if frames.len() > 1 {
            "\n"@
        } else {
            seq![]
        }) + frame_text(
            (frames.len() - 1) as nat,
            frames.last().method_id,
            frames.last().symbol@,
        )
    }
}

/// The thread ID in the target JVM.
pub open spec fn tid_text(tid: Option<u32>) -> Seq<char> {
    match tid {
        Some(tid) => text::decimal(tid as nat),
        None => "unknown"@,
    }
}

/// A result for a reader, given the times of the interval and of the sample as
/// text.
pub open spec fn event_text(
    event: BpfEvent,
    sample: Option<JvmEvent>,
    event_time: Seq<char>,
    sample_time: Seq<char>,
) -> Seq<char> {
    "=== "@ + event_time + " "@ + text::decimal(event.timestamp as nat) + " PID: "@
        + text::decimal(event.pid as nat) + ", TID: "@ + tid_text(event.tid) + " ("@ + event.comm@
        + "), DURATION: "@ + text::decimal(event.duration_us as nat) + " us\n"@
        + "Native Stack:\n"@ + native_text(event.stacktrace@) + match sample {
        Some(sample) => {
            "--------------------------------------------------------------------------------\n"@
                + "JVM Stack (took: "@ + sample_time + "):\n"@ + jvm_text(sample.frames@)
        },
        None => seq![],
    }
}

/// Appends a frame.
fn append_frame(out: &mut String, position: usize, address: u64, symbol: &str)
    ensures
        final(out)@ == old(out)@ + frame_text(position as nat, address, symbol@),
{
    text::append(out, "  ");
    text::append_decimal(out, position as u64);
    text::append(out, ": [0x");
    text::append_hexadecimal(out, address);
    text::append(out, "] ");
    text::append(out, symbol);
    assert(out@ =~= old(out)@ + frame_text(position as nat, address, symbol@));
}

/// Appends the frames of a native stack.
fn append_native_stack(out: &mut String, frames: &Vec<(u64, String)>)
    ensures
        final(out)@ == old(out)@ + native_text(frames@),
{
    let ghost before = out@;
    let mut i: usize = 0;
    assert(frames@.take(0) =~= seq![]);
    assert(out@ =~= before + native_text(frames@.take(0)));
    while i < frames.len()
        invariant
            0 <= i <= frames@.len(),
            out@ == before + native_text(frames@.take(i as int)),
        decreases frames@.len() - i,
    {
        append_frame(out, i, frames[i].0, frames[i].1.as_str());
        text::append(out, "\n");
        assert(frames@.take(i + 1).drop_last() =~= frames@.take(i as int));
        assert(out@ =~= before + native_text(frames@.take(i + 1)));
        i = i + 1;
    }
    assert(frames@.take(i as int) =~= frames@);
}

/// Appends the frames of a JVM stack.
fn append_jvm_stack(out: &mut String, frames: &Vec<JvmFrame>)
    ensures
        final(out)@ == old(out)@ + jvm_text(frames@),
{
    let ghost before = out@;
    let mut i: usize = 0;
    assert(frames@.take(0) =~= seq![]);
    assert(out@ =~= before + jvm_text(frames@.take(0)));
    while i < frames.len()
        invariant
            0 <= i <= frames@.len(),
            out@ == before + jvm_text(frames@.take(i as int)),
        decreases frames@.len() - i,
    {
        if i > 0 {
            text::append(out, "\n");
        }
        append_frame(out, i, frames[i].method_id, frames[i].symbol.as_str());
        assert(frames@.take(i + 1).drop_last() =~= frames@.take(i as int));
        assert(out@ =~= before + jvm_text(frames@.take(i + 1)));
        i = i + 1;
    }
    assert(frames@.take(i as int) =~= frames@);
}

/// A result for a reader, given the times of the interval and of the sample as
/// text.
pub fn event_report(
    event: &BpfEvent,
    sample: &Option<JvmEvent>,
    event_time: &str,
    sample_time: &str,
) -> (out: String)
    ensures
        out@ == event_text(*event, *sample, event_time@, sample_time@),
{
    let mut out = text::copied("=== ");
    text::append(&mut out, event_time);
    text::append(&mut out, " ");
    text::append_decimal(&mut out, event.timestamp);
    text::append(&mut out, " PID: ");
    text::append_decimal(&mut out, event.pid as u64);
    text::append(&mut out, ", TID: ");
    match event.tid {
        Some(tid) => text::append_decimal(&mut out, tid as u64),
        None => text::append(&mut out, "unknown"),
    }
    text::append(&mut out, " (");
    text::append(&mut out, event.comm.as_str());
    text::append(&mut out, "), DURATION: ");
    text::append_decimal(&mut out, event.duration_us);
    text::append(&mut out, " us\n");
    text::append(&mut out, "Native Stack:\n");
    append_native_stack(&mut out, &event.stacktrace);
    let ghost native = out@;
    if let Some(sample) = sample {
        text::append(
            &mut out,
            "--------------------------------------------------------------------------------\n",
        );
        text::append(&mut out, "JVM Stack (took: ");
        text::append(&mut out, sample_time);
        text::append(&mut out, "):\n");
        append_jvm_stack(&mut out, &sample.frames);
    }
    assert(out@ =~= event_text(*event, *sample, event_time@, sample_time@));
    out
}

/// The frames of a JVM stack from the outermost in, with semicolons between
/// them.
pub open spec fn collapsed_frames(frames: Seq<JvmFrame>) -> Seq<char>
    decreases frames.len(),
{
    if frames.len() == 0 {
        seq![]
    } else if frames.len() == 1 {
        frames[0].symbol@
    } else {
        collapsed_frames(frames.skip(1)) + ";"@ + frames[0].symbol@
    }
}

/// What an interval is kept under in the collapsed format: the stack of its
/// sample, or a frame that says that there is none.
pub open spec fn collapsed_stack(sample: Option<JvmEvent>) -> Seq<char> {
    match sample {
        Some(sample) => if sample.frames@.len() > 0 {
            collapsed_frames(sample.frames@)
        } else {
            "[no JVM stack]"@
        },
        None => "[no JVM stack]"@,
    }
}

/// A result in the collapsed format: the stack, and the duration of the
/// interval in microseconds as its weight.
pub open spec fn collapsed(event: BpfEvent, sample: Option<JvmEvent>) -> Seq<char> {
    collapsed_stack(sample) + " "@ + text::decimal(event.duration_us as nat)
}

/// Appends the frames of a JVM stack from the outermost in.
fn append_collapsed_frames(out: &mut String, frames: &Vec<JvmFrame>)
    ensures
        final(out)@ == old(out)@ + collapsed_frames(frames@),
{
    let ghost before = out@;
    let mut left: usize = frames.len();
    assert(frames@.skip(left as int) =~= seq![]);
    assert(out@ =~= before + collapsed_frames(frames@.skip(left as int)));
    while left > 0
        invariant
            0 <= left <= frames@.len(),
            out@ == before + collapsed_frames(frames@.skip(left as int)),
        decreases left,
    {
        if left < frames.len() {
            text::append(out, ";");
        }
        text::append(out, frames[left - 1].symbol.as_str());
        assert(frames@.skip(left - 1).skip(1) =~= frames@.skip(left as int));
        assert(out@ =~= before + collapsed_frames(frames@.skip(left - 1)));
        left = left - 1;
    }
    assert(frames@.skip(0) =~= frames@);
}

/// A result in the collapsed format.
pub fn collapsed_line(event: &BpfEvent, sample: &Option<JvmEvent>) -> (line: String)
    ensures
        line@ == collapsed(*event, *sample),
{
    let mut line = String::new();
    let mut has_stack = false;
    if let Some(sample) = sample {
        if sample.frames.len() > 0 {
            append_collapsed_frames(&mut line, &sample.frames);
            has_stack = true;
        }
    }
    if !has_stack {
        text::append(&mut line, "[no JVM stack]");
    }
    assert(line@ =~= collapsed_stack(*sample));
    text::append(&mut line, " ");
    text::append_decimal(&mut line, event.duration_us);
    line
}

/// The weight of a line in the collapsed format.
pub open spec fn weight(line: Seq<char>) -> nat {
    text::decimal_value(namespace::last_word(line))
}

/// Digits after a space are the last word.
proof fn lemma_last_word(before: Seq<char>, digits: Seq<char>)
    requires
        text::all_digits(digits),
    ensures
        namespace::word_at_end(before + " "@ + digits) == digits,
    decreases digits.len(),
{
    reveal_strlit(" ");
    let line = before + " "@ + digits;
    if digits.len() == 0 {
        assert(line.last() == ' ');
        assert(namespace::is_whitespace(line.last()));
        assert(namespace::word_at_end(line) =~= digits);
    } else {
        let fewer = digits.drop_last();
        assert forall|i: int| 0 <= i < fewer.len() implies text::is_decimal_digit(
            #[trigger] fewer[i],
        ) by {
            assert(fewer[i] == digits[i]);
        }
        lemma_last_word(before, fewer);
        assert(line.drop_last() =~= before + " "@ + fewer);
        assert(text::is_decimal_digit(digits[digits.len() - 1]));
        assert(line.last() == digits.last());
        assert(namespace::word_at_end(line) =~= digits);
    }
}

/// Each line is weighted by the duration of its interval, with a sample or
/// without.
pub proof fn law_a_line_is_weighted_by_the_duration(event: BpfEvent, sample: Option<JvmEvent>)
    ensures
        weight(collapsed(event, sample)) == event.duration_us,
{
    let digits = text::decimal(event.duration_us as nat);
    text::law_decimal_can_be_read_back(event.duration_us as nat);
    let line = collapsed(event, sample);
    lemma_last_word(collapsed_stack(sample), digits);
    assert(line.last() == digits.last());
    assert(text::is_decimal_digit(digits[digits.len() - 1]));
}

/// The total duration of some results.
pub open spec fn total_duration(results: Seq<(BpfEvent, Option<JvmEvent>)>) -> nat
    decreases results.len(),
{
    if results.len() == 0 {
        0
    } else {
        total_duration(results.drop_last()) + results.last().0.duration_us as nat
    }
}

/// The total weight of some lines.
pub open spec fn total_weight(lines: Seq<Seq<char>>) -> nat
    decreases lines.len(),
{
    if lines.len() == 0 {
        0
    } else {
        total_weight(lines.drop_last()) + weight(lines.last())
    }
}

/// The profile total is the duration of all results: intervals without a sample
/// are in it as well.
pub proof fn law_the_collapsed_output_preserves_the_total_duration(
    results: Seq<(BpfEvent, Option<JvmEvent>)>,
)
    ensures
        total_weight(
            results.map_values(
                |result: (BpfEvent, Option<JvmEvent>)| collapsed(result.0, result.1),
            ),
        ) == total_duration(results),
    decreases results.len(),
{
    let lines = results.map_values(
        |result: (BpfEvent, Option<JvmEvent>)| collapsed(result.0, result.1),
    );
    if results.len() > 0 {
        let fewer = results.drop_last();
        law_the_collapsed_output_preserves_the_total_duration(fewer);
        assert(lines.drop_last() =~= fewer.map_values(
            |result: (BpfEvent, Option<JvmEvent>)| collapsed(result.0, result.1),
        ));
        law_a_line_is_weighted_by_the_duration(results.last().0, results.last().1);
    }
}

/// A stack holds every frame: one of more than one frame is the outermost frame, a
/// semicolon, and the stack of the frames within it.
pub proof fn law_the_outermost_frame_comes_first(frames: Seq<JvmFrame>)
    ensures
        frames.len() == 0 ==> collapsed_frames(frames).len() == 0,
        frames.len() == 1 ==> collapsed_frames(frames) == frames[0].symbol@,
        frames.len() > 1 ==> collapsed_frames(frames) == frames.last().symbol@ + seq![';']
            + collapsed_frames(frames.drop_last()),
    decreases frames.len(),
{
    reveal_strlit(";");
    reveal_with_fuel(collapsed_frames, 2);
    if frames.len() > 1 {
        let inner = frames.skip(1);
        law_the_outermost_frame_comes_first(inner);
        let fewer = frames.drop_last();
        assert(fewer.skip(1) =~= inner.drop_last());
        assert(fewer[0] == frames[0]);
        assert(collapsed_frames(frames) =~= frames.last().symbol@ + seq![';'] + collapsed_frames(
            fewer,
        ));
    }
}

/// How many characters the symbols of some frames have.
pub open spec fn total_symbol_len(frames: Seq<JvmFrame>) -> nat
    decreases frames.len(),
{
    if frames.len() == 0 {
        0
    } else {
        total_symbol_len(frames.drop_last()) + frames.last().symbol@.len()
    }
}

/// A stack is as long as the symbols of all its frames and the semicolons between
/// them.
pub proof fn law_a_stack_is_as_long_as_all_its_frames(frames: Seq<JvmFrame>)
    requires
        frames.len() > 0,
    ensures
        collapsed_frames(frames).len() == total_symbol_len(frames) + frames.len() - 1,
    decreases frames.len(),
{
    law_the_outermost_frame_comes_first(frames);
    if frames.len() > 1 {
        law_a_stack_is_as_long_as_all_its_frames(frames.drop_last());
    } else {
        assert(frames.drop_last() =~= seq![]);
        assert(total_symbol_len(frames.drop_last()) == 0);
    }
}

/// The parts of a text between separators.
pub open spec fn split(text: Seq<char>, separator: char) -> Seq<Seq<char>>
    decreases text.len(),
{
    if text.len() == 0 {
        seq![seq![]]
    } else {
        let rest = split(text.skip(1), separator);
        if text[0] == separator {
            seq![Seq::<char>::empty()] + rest
        } else {
            seq![seq![text[0]] + rest[0]] + rest.skip(1)
        }
    }
}

proof fn lemma_split(part: Seq<char>, rest: Seq<char>, separator: char)
    requires
        forall|i: int| 0 <= i < part.len() ==> part[i] != separator,
    ensures
        split(part, separator) == seq![part],
        split(part + seq![separator] + rest, separator) == seq![part] + split(rest, separator),
    decreases part.len(),
{
    let text = part + seq![separator] + rest;
    if part.len() == 0 {
        assert(text.skip(1) =~= rest);
        assert(part =~= seq![]);
        assert(split(text, separator) =~= seq![part] + split(rest, separator));
    } else {
        let fewer = part.skip(1);
        assert forall|i: int| 0 <= i < fewer.len() implies fewer[i] != separator by {
            assert(fewer[i] == part[i + 1]);
        }
        lemma_split(fewer, rest, separator);
        assert(text.skip(1) =~= fewer + seq![separator] + rest);
        assert(text[0] == part[0]);
        assert(seq![part[0]] + fewer =~= part);
        assert(split(part, separator) =~= seq![part]);
        assert(split(text, separator) =~= seq![part] + split(rest, separator));
    }
}

/// The frames can be read back from a stack: split at the semicolons, it gives the
/// symbols of all frames, the outermost first, if no symbol holds a semicolon.
pub proof fn law_every_frame_can_be_read_back(frames: Seq<JvmFrame>)
    requires
        frames.len() > 0,
        forall|i: int, k: int|
            0 <= i < frames.len() && 0 <= k < frames[i].symbol@.len() ==> #[trigger] frames[i].symbol@[k]
                != ';',
    ensures
        split(collapsed_frames(frames), ';') == Seq::new(
            frames.len(),
            |i: int| frames[frames.len() - 1 - i].symbol@,
        ),
    decreases frames.len(),
{
    law_the_outermost_frame_comes_first(frames);
    let outermost = frames.last().symbol@;
    assert forall|k: int| 0 <= k < outermost.len() implies outermost[k] != ';' by {
        assert(frames[frames.len() - 1].symbol@[k] != ';');
    }
    let fewer = frames.drop_last();
    lemma_split(outermost, collapsed_frames(fewer), ';');
    if frames.len() > 1 {
        assert forall|i: int, k: int|
            0 <= i < fewer.len() && 0 <= k < fewer[i].symbol@.len() implies #[trigger] fewer[i].symbol@[k]
            != ';' by {
            assert(frames[i].symbol@[k] != ';');
        }
        law_every_frame_can_be_read_back(fewer);
    }
    assert(split(collapsed_frames(frames), ';') =~= Seq::new(
        frames.len(),
        |i: int| frames[frames.len() - 1 - i].symbol@,
    ));
}

/// A line in the collapsed format is the stack of the sample, a space, and the
/// duration of the interval in decimal. An interval without a sample, or with one
/// without frames, stands under a frame that says so.
pub proof fn law_a_line_is_a_stack_and_its_weight(event: BpfEvent, sample: Option<JvmEvent>)
    ensures
        (sample is Some && sample->0.frames@.len() > 0) ==> collapsed(event, sample)
            == collapsed_frames(sample->0.frames@) + seq![' '] + text::decimal(
            event.duration_us as nat,
        ),
        !(sample is Some && sample->0.frames@.len() > 0) ==> collapsed(event, sample)
            == "[no JVM stack] "@ + text::decimal(event.duration_us as nat),
{
    reveal_strlit(" ");
    reveal_strlit("[no JVM stack]");
    reveal_strlit("[no JVM stack] ");
    assert("[no JVM stack]"@ + " "@ =~= "[no JVM stack] "@);
    assert(" "@ =~= seq![' ']);
}

/// Each frame of a native stack has a line of its own, with its position, its address
/// in hexadecimal and its symbol.
pub proof fn law_every_native_frame_has_a_line(frames: Seq<(u64, String)>, frame: (u64, String))
    ensures
        native_text(seq![]).len() == 0,
        native_text(frames.push(frame)) == native_text(frames) + "  "@ + text::decimal(frames.len())
            + ": [0x"@ + text::hexadecimal(frame.0 as nat) + "] "@ + frame.1@ + "\n"@,
{
    let longer = frames.push(frame);
    assert(longer.drop_last() =~= frames);
    assert(native_text(longer) =~= native_text(frames) + "  "@ + text::decimal(frames.len())
        + ": [0x"@ + text::hexadecimal(frame.0 as nat) + "] "@ + frame.1@ + "\n"@);
}

/// Each frame of a JVM stack stands on a line of its own, with its position, its
/// method in hexadecimal and its symbol; line breaks stand between the frames.
pub proof fn law_every_jvm_frame_has_a_line(frames: Seq<JvmFrame>, frame: JvmFrame)
    ensures
        jvm_text(seq![]).len() == 0,
        jvm_text(frames.push(frame)) == jvm_text(frames) + (if frames.len() > 0 {
            "\n"@
        } else {
            seq![]
        }) + "  "@ + text::decimal(frames.len()) + ": [0x"@ + text::hexadecimal(
            frame.method_id as nat,
        ) + "] "@ + frame.symbol@,
{
    let longer = frames.push(frame);
    assert(longer.drop_last() =~= frames);
    let between = if frames.len() > 0 {
        "\n"@
    } else {
        seq![]
    };
    assert(jvm_text(longer) =~= jvm_text(frames) + between + "  "@ + text::decimal(frames.len())
        + ": [0x"@ + text::hexadecimal(frame.method_id as nat) + "] "@ + frame.symbol@);
}

/// A result for a reader shows the times, the process, the thread, its name, the
/// duration in microseconds and all frames of the native stack, and then, if there is
/// a sample, all frames of the JVM stack.
pub proof fn law_a_report_shows_the_interval_and_both_stacks(
    event: BpfEvent,
    sample: Option<JvmEvent>,
    event_time: Seq<char>,
    sample_time: Seq<char>,
)
    ensures
        ({
            let tid = match event.tid {
                Some(tid) => text::decimal(tid as nat),
                None => "unknown"@,
            };
            let interval = "=== "@ + event_time + " "@ + text::decimal(event.timestamp as nat)
                + " PID: "@ + text::decimal(event.pid as nat) + ", TID: "@ + tid + " ("@
                + event.comm@ + "), DURATION: "@ + text::decimal(event.duration_us as nat)
                + " us\n"@ + "Native Stack:\n"@ + native_text(event.stacktrace@);
            let rule = Seq::new(80, |i: int| '-');
            &&& event_text(event, None, event_time, sample_time) == interval
            &&& sample matches Some(sampled) ==> event_text(event, sample, event_time, sample_time)
                == interval + rule + "\n"@ + "JVM Stack (took: "@ + sample_time + "):\n"@
                + jvm_text(sampled.frames@)
        }),
{
    reveal_strlit(
        "--------------------------------------------------------------------------------\n",
    );
    reveal_strlit("\n");
    let rule = Seq::new(80, |i: int| '-');
    assert(
    "--------------------------------------------------------------------------------\n"@
        =~= rule + "\n"@);
    let tid = match event.tid {
        Some(tid) => text::decimal(tid as nat),
        None => "unknown"@,
    };
    let interval = "=== "@ + event_time + " "@ + text::decimal(event.timestamp as nat) + " PID: "@
        + text::decimal(event.pid as nat) + ", TID: "@ + tid + " ("@ + event.comm@
        + "), DURATION: "@ + text::decimal(event.duration_us as nat) + " us\n"@
        + "Native Stack:\n"@ + native_text(event.stacktrace@);
    assert(event_text(event, None, event_time, sample_time) =~= interval);
    if let Some(sampled) = sample {
        assert(event_text(event, sample, event_time, sample_time) =~= interval + rule + "\n"@
            + "JVM Stack (took: "@ + sample_time + "):\n"@ + jvm_text(sampled.frames@));
    }
}

} // verus!
