//! The lines of a text and the index of their offsets, as mathematics: what
//! the lines of a text are, where they start, and how splitting a text into
//! lines and joining lines into a text undo each other.
//!
//! A text is a sequence of characters or of bytes here, and a newline is one
//! of its elements. What holds of the one kind of text holds of the other,
//! and the lines of the bytes of a text are the bytes of its lines.

use crate::scan::{first_at, lemma_first_at, lemma_first_at_is};
use crate::utf8::{
    bytes_of, lemma_first_at_in_bytes, lemma_offset_of_next, lemma_offsets, offset,
};
use vstd::prelude::*;

verus! {

/// The byte that ends a line.
pub const NEWLINE: u8 = 10;

/// The place of the first newline of `text` at or after `from`, or the length
/// of `text` where there is none.
pub open spec fn line_end<T>(text: Seq<T>, from: int, newline: T) -> int {
    first_at(text, from, newline, true)
}

/// The lines of `text` that start at or after the place `from`, which is the
/// start of a line: the part up to the next newline, and then the lines after
/// that newline. A text that ends in a newline has no line after it.
pub open spec fn lines_from<T>(text: Seq<T>, from: int, newline: T) -> Seq<Seq<T>>
    decreases text.len() + 1 - from,
{
    if from < 0 || from >= text.len() {
        Seq::empty()
    } else {
        proof {
            lemma_first_at(text, from, newline, true);
        }
        seq![text.subrange(from, line_end(text, from, newline))] + lines_from(
            text,
            line_end(text, from, newline) + 1,
            newline,
        )
    }
}

/// The lines of `text`, each without the newline that ends it.
pub open spec fn split_lines<T>(text: Seq<T>, newline: T) -> Seq<Seq<T>> {
    lines_from(text, 0, newline)
}

/// The lines of a text of characters.
pub open spec fn text_lines(text: Seq<char>) -> Seq<Seq<char>> {
    split_lines(text, '\n')
}

/// The places at which the lines of `text` at or after `from` start, followed
/// by the length of `text`.
pub open spec fn starts_from<T>(text: Seq<T>, from: int, newline: T) -> Seq<int>
    decreases text.len() + 1 - from,
{
    if from < 0 || from >= text.len() {
        seq![text.len() as int]
    } else {
        proof {
            lemma_first_at(text, from, newline, true);
        }
        seq![from] + starts_from(text, line_end(text, from, newline) + 1, newline)
    }
}

/// The index of the bytes of a file: the offset at which each line starts,
/// then the number of bytes, then a last entry one past that number.
pub open spec fn line_breaks_of(text: Seq<u8>) -> Seq<int> {
    starts_from(text, 0, NEWLINE).push(text.len() as int + 1)
}

/// The offsets of an index as mathematical integers.
pub open spec fn offsets(line_breaks: Seq<usize>) -> Seq<int> {
    line_breaks.map_values(|offset: usize| offset as int)
}

/// Line `j` reaches from place `j` of `starts` to its first newline, and the
/// next place stands behind that newline, or at the end of the text where
/// the line has none.
pub open spec fn line_spans<T>(
    text: Seq<T>,
    starts: Seq<int>,
    lines: Seq<Seq<T>>,
    j: int,
    newline: T,
) -> bool {
    let start = starts[j];
    let next = starts[j + 1];
    let end = line_end(text, start, newline);
    &&& start < next
    &&& lines[j] == text.subrange(start, end)
    &&& next == if end < text.len() {
        end + 1
    } else {
        end
    }
}

/// What the places of the line starts say about the lines: there is one more
/// place than there are lines, the places grow, each is the start of the text
/// or stands behind a newline or at the end of the text, the last is the
/// length of the text, and line `j` reaches from place `j` to its first
/// newline, behind which the next place stands.
pub proof fn lemma_starts_and_lines<T>(text: Seq<T>, from: int, newline: T)
    requires
        0 <= from <= text.len(),
        from == 0 || text[from - 1] == newline,
    ensures
        starts_from(text, from, newline).len() == lines_from(text, from, newline).len() + 1,
        starts_from(text, from, newline)[0] == from,
        starts_from(text, from, newline).last() == text.len(),
        forall|j: int|
            #![trigger starts_from(text, from, newline)[j]]
            0 <= j < starts_from(text, from, newline).len() ==> {
                let start = starts_from(text, from, newline)[j];
                &&& from <= start <= text.len()
                &&& start == 0 || start == text.len() || text[start - 1] == newline
            },
        forall|j: int|
            0 <= j < lines_from(text, from, newline).len() ==> #[trigger] line_spans(
                text,
                starts_from(text, from, newline),
                lines_from(text, from, newline),
                j,
                newline,
            ),
    decreases text.len() - from,
{
    if from < text.len() {
        let end = line_end(text, from, newline);
        lemma_first_at(text, from, newline, true);
        let starts = starts_from(text, from, newline);
        let lines = lines_from(text, from, newline);
        let later_starts = starts_from(text, end + 1, newline);
        let later_lines = lines_from(text, end + 1, newline);
        if end < text.len() {
            lemma_starts_and_lines(text, end + 1, newline);
        } else {
            assert(later_starts =~= seq![text.len() as int]);
            assert(later_lines =~= Seq::empty());
        }
        assert(starts =~= seq![from] + later_starts);
        assert(lines =~= seq![text.subrange(from, end)] + later_lines);
        assert forall|j: int| #![trigger starts[j]] 0 <= j < starts.len() implies {
            let start = starts[j];
            &&& from <= start <= text.len()
            &&& start == 0 || start == text.len() || text[start - 1] == newline
        } by {
            if j > 0 {
                assert(starts[j] == later_starts[j - 1]);
            }
        }
        assert forall|j: int| 0 <= j < lines.len() implies #[trigger] line_spans(
            text,
            starts,
            lines,
            j,
            newline,
        ) by {
            assert(starts[j + 1] == later_starts[j]);
            if j > 0 {
                assert(starts[j] == later_starts[j - 1]);
                assert(lines[j] == later_lines[j - 1]);
                assert(line_spans(text, later_starts, later_lines, j - 1, newline));
            }
        }
    } else {
        assert(lines_from(text, from, newline) =~= Seq::empty());
    }
}

/// The text that holds `lines`, each followed by a newline.
pub open spec fn joined<T>(lines: Seq<Seq<T>>, newline: T) -> Seq<T>
    decreases lines.len(),
{
    if lines.len() == 0 {
        Seq::empty()
    } else {
        lines[0] + seq![newline] + joined(lines.drop_first(), newline)
    }
}

/// Nothing in `line` is a newline.
pub open spec fn holds_no_newline<T>(line: Seq<T>, newline: T) -> bool {
    forall|k: int| 0 <= k < line.len() ==> line[k] != newline
}

/// The part of `text` from `from` on, with a newline behind it unless it is
/// empty or ends in one.
pub open spec fn terminated<T>(text: Seq<T>, from: int, newline: T) -> Seq<T> {
    if from >= text.len() {
        Seq::empty()
    } else if text.last() == newline {
        text.subrange(from, text.len() as int)
    } else {
        text.subrange(from, text.len() as int).push(newline)
    }
}

/// No line of a text holds a newline.
pub proof fn lemma_lines_hold_no_newline<T>(text: Seq<T>, from: int, newline: T)
    requires
        0 <= from <= text.len(),
    ensures
        forall|i: int|
            0 <= i < lines_from(text, from, newline).len() ==> holds_no_newline(
                #[trigger] lines_from(text, from, newline)[i],
                newline,
            ),
    decreases text.len() - from,
{
    if from < text.len() {
        let end = line_end(text, from, newline);
        let lines = lines_from(text, from, newline);
        let later = lines_from(text, end + 1, newline);
        lemma_first_at(text, from, newline, true);
        if end < text.len() {
            lemma_lines_hold_no_newline(text, end + 1, newline);
        } else {
            assert(later =~= Seq::empty());
        }
        assert forall|i: int| 0 <= i < lines.len() implies holds_no_newline(
            #[trigger] lines[i],
            newline,
        ) by {
            if i > 0 {
                assert(lines[i] == later[i - 1]);
            }
        }
    }
}

/// Joining the lines of a text from a line start on gives the text from there
/// on back, with a newline behind its last line where it had none.
pub proof fn lemma_joined_lines_from<T>(text: Seq<T>, from: int, newline: T)
    requires
        0 <= from <= text.len(),
    ensures
        joined(lines_from(text, from, newline), newline) == terminated(text, from, newline),
    decreases text.len() - from,
{
    if from < text.len() {
        let end = line_end(text, from, newline);
        let lines = lines_from(text, from, newline);
        let later = lines_from(text, end + 1, newline);
        lemma_first_at(text, from, newline, true);
        assert(lines.drop_first() =~= later);
        if end < text.len() {
            lemma_joined_lines_from(text, end + 1, newline);
            assert(lines[0] + seq![newline] =~= text.subrange(from, end + 1));
            assert(joined(lines, newline) =~= terminated(text, from, newline));
        } else {
            assert(later =~= Seq::empty());
            assert(joined(later, newline) =~= Seq::empty());
            assert(joined(lines, newline) =~= terminated(text, from, newline));
        }
    } else {
        assert(lines_from(text, from, newline) =~= Seq::empty());
    }
}

/// Joining the lines of a text gives the text back, with a newline behind its
/// last line where it had none.
pub proof fn lemma_join_of_split<T>(text: Seq<T>, newline: T)
    ensures
        joined(split_lines(text, newline), newline) == if text.len() == 0 || text.last()
            == newline {
            text
        } else {
            text.push(newline)
        },
{
    lemma_joined_lines_from(text, 0, newline);
    assert(text.subrange(0, text.len() as int) =~= text);
}

/// A line of `tail` ends where it ends in `head + tail`, counted from the start
/// of `tail`.
proof fn lemma_line_end_shifts<T>(head: Seq<T>, tail: Seq<T>, from: int, newline: T)
    requires
        0 <= from <= tail.len(),
    ensures
        line_end(head + tail, head.len() + from, newline) == head.len() + line_end(
            tail,
            from,
            newline,
        ),
    decreases tail.len() - from,
{
    if from < tail.len() {
        assert((head + tail)[head.len() + from] == tail[from]);
        if tail[from] != newline {
            lemma_line_end_shifts(head, tail, from + 1, newline);
        }
    }
}

/// The lines of `head + tail` from a place within `tail` on are the lines of
/// `tail` from that place on.
proof fn lemma_lines_shift<T>(head: Seq<T>, tail: Seq<T>, from: int, newline: T)
    requires
        0 <= from <= tail.len() + 1,
    ensures
        lines_from(head + tail, head.len() + from, newline) == lines_from(tail, from, newline),
    decreases tail.len() + 1 - from,
{
    if from < tail.len() {
        let end = line_end(tail, from, newline);
        lemma_first_at(tail, from, newline, true);
        lemma_line_end_shifts(head, tail, from, newline);
        lemma_lines_shift(head, tail, end + 1, newline);
        assert((head + tail).subrange(head.len() + from, head.len() + end) =~= tail.subrange(
            from,
            end,
        ));
    }
}

/// Splitting the text that holds some lines, each followed by a newline, gives
/// these lines back, as many as there were.
pub proof fn lemma_split_of_join<T>(lines: Seq<Seq<T>>, newline: T)
    requires
        forall|i: int| 0 <= i < lines.len() ==> holds_no_newline(#[trigger] lines[i], newline),
    ensures
        split_lines(joined(lines, newline), newline) == lines,
    decreases lines.len(),
{
    if lines.len() > 0 {
        let first = lines[0];
        let rest = lines.drop_first();
        let head = first + seq![newline];
        let text = joined(lines, newline);
        assert(text =~= head + joined(rest, newline));
        assert forall|i: int| 0 <= i < rest.len() implies holds_no_newline(
            #[trigger] rest[i],
            newline,
        ) by {
            assert(rest[i] == lines[i + 1]);
        }
        lemma_split_of_join(rest, newline);
        assert(holds_no_newline(first, newline));
        lemma_first_at_is(text, 0, first.len() as int, newline, true);
        lemma_lines_shift(head, joined(rest, newline), 0, newline);
        assert(text.subrange(0, first.len() as int) =~= first);
        assert(split_lines(text, newline) =~= seq![first] + split_lines(
            joined(rest, newline),
            newline,
        ));
        assert(seq![first] + rest =~= lines);
    }
}

/// Splitting gives the lines back too where the text has no newline behind
/// its last line, as long as that line is not empty.
pub proof fn lemma_split_of_join_without_last_newline<T>(lines: Seq<Seq<T>>, newline: T)
    requires
        forall|i: int| 0 <= i < lines.len() ==> holds_no_newline(#[trigger] lines[i], newline),
        lines.len() > 0,
        lines.last().len() > 0,
    ensures
        joined(lines, newline).len() > 0,
        split_lines(joined(lines, newline).drop_last(), newline) == lines,
    decreases lines.len(),
{
    let first = lines[0];
    let rest = lines.drop_first();
    let head = first + seq![newline];
    let text = joined(lines, newline).drop_last();
    assert(holds_no_newline(first, newline));
    if rest.len() == 0 {
        assert(joined(rest, newline) =~= Seq::empty());
        assert(text =~= first);
        lemma_first_at_is(text, 0, first.len() as int, newline, true);
        assert(lines_from(text, first.len() as int + 1, newline) =~= Seq::empty());
        assert(text.subrange(0, first.len() as int) =~= first);
        assert(split_lines(text, newline) =~= seq![first]);
        assert(seq![first] =~= lines);
    } else {
        assert forall|i: int| 0 <= i < rest.len() implies holds_no_newline(
            #[trigger] rest[i],
            newline,
        ) by {
            assert(rest[i] == lines[i + 1]);
        }
        assert(rest.last() == lines.last());
        lemma_split_of_join_without_last_newline(rest, newline);
        let tail = joined(rest, newline).drop_last();
        assert(text =~= head + tail);
        lemma_first_at_is(text, 0, first.len() as int, newline, true);
        lemma_lines_shift(head, tail, 0, newline);
        assert(text.subrange(0, first.len() as int) =~= first);
        assert(split_lines(text, newline) =~= seq![first] + split_lines(tail, newline));
        assert(seq![first] + rest =~= lines);
    }
}

/// The bytes of each of some lines.
pub open spec fn encoded(lines: Seq<Seq<char>>) -> Seq<Seq<u8>> {
    lines.map_values(|line: Seq<char>| bytes_of(line))
}

/// The lines of the bytes of a text, from the offset of a line start on, are
/// the bytes of the lines of the text from that line start on.
pub proof fn lemma_lines_of_bytes_from(text: Seq<char>, from: int)
    requires
        0 <= from <= text.len(),
    ensures
        lines_from(bytes_of(text), offset(text, from), NEWLINE) == encoded(
            lines_from(text, from, '\n'),
        ),
    decreases text.len() - from,
{
    let bytes = bytes_of(text);
    let start = offset(text, from);
    lemma_offsets(text, from, from);
    if from < text.len() {
        let end = line_end(text, from, '\n');
        lemma_first_at(text, from, '\n', true);
        lemma_first_at_in_bytes(text, from, '\n', true);
        lemma_offsets(text, from, end);
        lemma_offset_of_next(text, from);
        let later = lines_from(text, end + 1, '\n');
        let later_bytes = lines_from(bytes, offset(text, end) + 1, NEWLINE);
        if end < text.len() {
            lemma_offset_of_next(text, end);
            lemma_lines_of_bytes_from(text, end + 1);
        } else {
            assert(later =~= Seq::empty());
            assert(later_bytes =~= Seq::empty());
        }
        assert(later_bytes =~= encoded(later));
        assert(lines_from(bytes, start, NEWLINE) =~= seq![
            bytes.subrange(start, offset(text, end)),
        ] + later_bytes);
        assert(encoded(lines_from(text, from, '\n')) =~= seq![
            bytes_of(text.subrange(from, end)),
        ] + encoded(later));
    } else {
        assert(lines_from(text, from, '\n') =~= Seq::empty());
        assert(lines_from(bytes, start, NEWLINE) =~= Seq::empty());
        assert(encoded(Seq::empty()) =~= Seq::empty());
    }
}

/// The lines of the bytes of a text are the bytes of the lines of the text.
pub proof fn lemma_lines_of_bytes(text: Seq<char>)
    ensures
        split_lines(bytes_of(text), NEWLINE) == encoded(text_lines(text)),
        split_lines(bytes_of(text), NEWLINE).len() == text_lines(text).len(),
        forall|i: int|
            0 <= i < text_lines(text).len() ==> #[trigger] split_lines(bytes_of(text), NEWLINE)[i]
                == bytes_of(text_lines(text)[i]),
{
    lemma_lines_of_bytes_from(text, 0);
    lemma_offsets(text, 0, 0);
}

/// The index of a file has two entries more than the file has lines: it
/// starts with offset 0, ends with the number of bytes and one more than that,
/// and no entry is smaller than the one before it.
pub proof fn lemma_line_breaks(text: Seq<char>)
    ensures
        line_breaks_of(bytes_of(text)).len() == text_lines(text).len() + 2,
        line_breaks_of(bytes_of(text))[0] == 0,
        line_breaks_of(bytes_of(text))[text_lines(text).len() as int] == bytes_of(text).len(),
        line_breaks_of(bytes_of(text)).last() == bytes_of(text).len() + 1,
        forall|i: int, j: int|
            #![trigger line_breaks_of(bytes_of(text))[i], line_breaks_of(bytes_of(text))[j]]
            0 <= i <= j < line_breaks_of(bytes_of(text)).len() ==> line_breaks_of(
                bytes_of(text),
            )[i] <= line_breaks_of(bytes_of(text))[j],
{
    let bytes = bytes_of(text);
    let starts = starts_from(bytes, 0, NEWLINE);
    let breaks = line_breaks_of(bytes);
    lemma_lines_of_bytes(text);
    lemma_starts_and_lines(bytes, 0, NEWLINE);
    lemma_starts_grow(bytes, 0, NEWLINE);
    assert forall|i: int, j: int|
        #![trigger breaks[i], breaks[j]]
        0 <= i <= j < breaks.len() implies breaks[i] <= breaks[j] by {
        if j < starts.len() {
            assert(breaks[i] == starts[i] && breaks[j] == starts[j]);
        } else if i < starts.len() {
            assert(breaks[i] == starts[i]);
            assert(starts[i] <= bytes.len());
        }
    }
}

/// The places at which the lines start grow from line to line.
proof fn lemma_starts_grow<T>(text: Seq<T>, from: int, newline: T)
    requires
        0 <= from <= text.len(),
    ensures
        forall|i: int, j: int|
            #![trigger starts_from(text, from, newline)[i], starts_from(text, from, newline)[j]]
            0 <= i <= j < starts_from(text, from, newline).len() ==> {
                &&& from <= starts_from(text, from, newline)[i]
                &&& starts_from(text, from, newline)[i] <= starts_from(text, from, newline)[j]
                &&& starts_from(text, from, newline)[j] <= text.len()
            },
    decreases text.len() - from,
{
    let starts = starts_from(text, from, newline);
    if from < text.len() {
        let end = line_end(text, from, newline);
        lemma_first_at(text, from, newline, true);
        let later = starts_from(text, end + 1, newline);
        if end < text.len() {
            lemma_starts_grow(text, end + 1, newline);
        } else {
            assert(later =~= seq![text.len() as int]);
        }
        assert(starts =~= seq![from] + later);
        assert forall|i: int, j: int|
            #![trigger starts[i], starts[j]]
            0 <= i <= j < starts.len() implies {
            &&& from <= starts[i]
            &&& starts[i] <= starts[j]
            &&& starts[j] <= text.len()
        } by {
            if i > 0 {
                assert(starts[i] == later[i - 1]);
            }
            if j > 0 {
                assert(starts[j] == later[j - 1]);
            }
        }
    }
}

} // verus!
