//! Lines out of a stream of bytes that arrives piece by piece.

use vstd::prelude::*;

verus! {

/// The byte that ends a line.
pub const NEWLINE: u8 = 10;

/// How many bytes stand before the first newline, or in all if there is none.
pub open spec fn first_newline(bytes: Seq<u8>) -> nat
    decreases bytes.len(),
{
    if bytes.len() == 0 || bytes[0] == NEWLINE {
        0
    } else {
        1 + first_newline(bytes.skip(1))
    }
}

/// The lines that a newline completes, without it and without the empty ones.
pub open spec fn complete_lines(bytes: Seq<u8>) -> Seq<Seq<u8>>
    decreases bytes.len(),
{
    let end = first_newline(bytes);
    if end >= bytes.len() {
        seq![]
    } else {
        let rest = complete_lines(bytes.skip(end as int + 1));
        if end == 0 {
            rest
        } else {
            seq![bytes.take(end as int)] + rest
        }
    }
}

/// What follows the last newline.
pub open spec fn incomplete_line(bytes: Seq<u8>) -> Seq<u8>
    decreases bytes.len(),
{
    let end = first_newline(bytes);
    if end >= bytes.len() {
        bytes
    } else {
        incomplete_line(bytes.skip(end as int + 1))
    }
}

proof fn lemma_first_newline(bytes: Seq<u8>)
    ensures
        first_newline(bytes) <= bytes.len(),
        forall|i: int| 0 <= i < first_newline(bytes) ==> bytes[i] != NEWLINE,
        first_newline(bytes) < bytes.len() ==> bytes[first_newline(bytes) as int] == NEWLINE,
    decreases bytes.len(),
{
    if bytes.len() > 0 && bytes[0] != NEWLINE {
        lemma_first_newline(bytes.skip(1));
        assert forall|i: int| 0 <= i < first_newline(bytes) implies bytes[i] != NEWLINE by {
            if i > 0 {
                assert(bytes[i] == bytes.skip(1)[i - 1]);
            }
        }
    }
}

/// The first newline is where it is.
proof fn lemma_first_newline_is(bytes: Seq<u8>, end: int)
    requires
        0 <= end <= bytes.len(),
        forall|i: int| 0 <= i < end ==> bytes[i] != NEWLINE,
        end < bytes.len() ==> bytes[end] == NEWLINE,
    ensures
        first_newline(bytes) == end,
{
    lemma_first_newline(bytes);
    let n = first_newline(bytes) as int;
    if n < end {
        assert(bytes[n] == NEWLINE);
    } else if end < n {
        assert(bytes[end] != NEWLINE);
    }
}

/// It makes no difference in which pieces the bytes arrive: an incomplete line
/// is kept until its newline comes.
pub proof fn law_pieces_do_not_matter(bytes: Seq<u8>, more: Seq<u8>)
    ensures
        complete_lines(bytes + more) == complete_lines(bytes) + complete_lines(
            incomplete_line(bytes) + more,
        ),
        incomplete_line(bytes + more) == incomplete_line(incomplete_line(bytes) + more),
    decreases bytes.len(),
{
    lemma_first_newline(bytes);
    let end = first_newline(bytes) as int;
    if end >= bytes.len() {
        assert(complete_lines(bytes) + complete_lines(bytes + more) =~= complete_lines(
            bytes + more,
        ));
    } else {
        let whole = bytes + more;
        lemma_first_newline_is(whole, end);
        assert(whole.skip(end + 1) =~= bytes.skip(end + 1) + more);
        assert(whole.take(end) =~= bytes.take(end));
        law_pieces_do_not_matter(bytes.skip(end + 1), more);
        assert(complete_lines(whole) =~= complete_lines(bytes) + complete_lines(
            incomplete_line(bytes) + more,
        ));
    }
}

/// A line is neither empty nor does it hold a newline; nor does what is kept.
pub proof fn law_lines_hold_no_newline(bytes: Seq<u8>)
    ensures
        forall|i: int|
            0 <= i < complete_lines(bytes).len() ==> (#[trigger] complete_lines(bytes)[i]).len()
                > 0 && !complete_lines(bytes)[i].contains(NEWLINE),
        !incomplete_line(bytes).contains(NEWLINE),
    decreases bytes.len(),
{
    lemma_first_newline(bytes);
    let end = first_newline(bytes) as int;
    if end < bytes.len() {
        let later = bytes.skip(end + 1);
        law_lines_hold_no_newline(later);
        let lines = complete_lines(bytes);
        assert forall|i: int| 0 <= i < lines.len() implies (#[trigger] lines[i]).len() > 0
            && !lines[i].contains(NEWLINE) by {
            if end == 0 {
                assert(lines[i] == complete_lines(later)[i]);
            } else if i > 0 {
                assert(lines[i] == complete_lines(later)[i - 1]);
            }
        }
    }
}

/// Takes the complete lines out of the pending bytes.
pub fn drain_complete_lines(pending: &mut Vec<u8>) -> (lines: Vec<Vec<u8>>)
    ensures
        lines@.map_values(|line: Vec<u8>| line@) == complete_lines(old(pending)@),
        final(pending)@ == incomplete_line(old(pending)@),
{
    let ghost all = pending@;
    let mut lines: Vec<Vec<u8>> = Vec::new();
    let mut current: Vec<u8> = Vec::new();
    let mut i: usize = 0;
    assert(current@ + all.skip(0) =~= all);
    assert(lines@.map_values(|line: Vec<u8>| line@) + complete_lines(all) =~= complete_lines(all));
    while i < pending.len()
        invariant
            pending@ == all,
            0 <= i <= all.len(),
            forall|k: int| 0 <= k < current@.len() ==> current@[k] != NEWLINE,
            complete_lines(all) == lines@.map_values(|line: Vec<u8>| line@) + complete_lines(
                current@ + all.skip(i as int),
            ),
            incomplete_line(all) == incomplete_line(current@ + all.skip(i as int)),
        decreases all.len() - i,
    {
        let byte = pending[i];
        let ghost left = current@ + all.skip(i as int);
        let ghost before = lines@.map_values(|line: Vec<u8>| line@);
        if byte == NEWLINE {
            proof {
                lemma_first_newline_is(left, current@.len() as int);
                assert(left.skip(current@.len() as int + 1) =~= all.skip(i + 1));
                assert(left.take(current@.len() as int) =~= current@);
                assert(Seq::<u8>::empty() + all.skip(i + 1) =~= all.skip(i + 1));
            }
            if current.len() > 0 {
                let ghost line = current@;
                lines.push(current);
                current = Vec::new();
                assert(lines@.map_values(|line: Vec<u8>| line@) =~= before.push(line));
                assert(before.push(line) + complete_lines(all.skip(i + 1)) =~= before + (seq![line]
                    + complete_lines(all.skip(i + 1))));
            }
        } else {
            current.push(byte);
            assert(current@ + all.skip(i + 1) =~= left);
        }
        i = i + 1;
    }
    proof {
        assert(current@ + all.skip(i as int) =~= current@);
        lemma_first_newline_is(current@, current@.len() as int);
        assert(lines@.map_values(|line: Vec<u8>| line@) + Seq::<Seq<u8>>::empty()
            =~= lines@.map_values(|line: Vec<u8>| line@));
    }
    *pending = current;
    lines
}

/// Bytes up to a newline, which has the number 10, are a line unless there are none,
/// and what follows the newline is dealt with in the same way. Bytes without a newline
/// are kept.
pub proof fn law_a_newline_completes_a_line(line: Seq<u8>, rest: Seq<u8>)
    requires
        forall|i: int| 0 <= i < line.len() ==> line[i] != 10,
    ensures
        complete_lines(line).len() == 0,
        incomplete_line(line) == line,
        line.len() == 0 ==> complete_lines(line + seq![10u8] + rest) == complete_lines(rest),
        line.len() > 0 ==> complete_lines(line + seq![10u8] + rest) == seq![line]
            + complete_lines(rest),
        incomplete_line(line + seq![10u8] + rest) == incomplete_line(rest),
{
    let bytes = line + seq![10u8] + rest;
    lemma_first_newline_is(line, line.len() as int);
    lemma_first_newline_is(bytes, line.len() as int);
    assert(bytes.skip(line.len() as int + 1) =~= rest);
    assert(bytes.take(line.len() as int) =~= line);
}

} // verus!
