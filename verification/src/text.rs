//! A file held in memory together with the byte offsets of its lines, so that
//! any line can be served without scanning the text again.

use crate::lines::{
    lemma_lines_of_bytes, lemma_starts_and_lines, line_breaks_of, line_end, line_spans, offsets,
    split_lines, starts_from, text_lines, NEWLINE,
};
use crate::mergeline::Line;
use crate::scan::{lemma_first_at, lemma_first_at_is};
use crate::timestamp::{get_timestamp_from_line, line_instant, ErrorKind, LineError};
use crate::utf8::{bytes_of, lemma_boundaries_around_ascii, lemma_bytes_give_the_text, slice};
use vstd::prelude::*;
use vstd::string::*;
use vstd::utf8::*;

verus! {

/// The records of the first `count` of `lines`, which belong to the file with
/// the number `file`: one for each line, with the instant of the line and its
/// number. Where a line has no instant, the reason of the first such line
/// takes the place of the records.
pub open spec fn annotated_prefix(lines: Seq<Seq<char>>, file: usize, count: int) -> Result<
    Seq<Line>,
    ErrorKind,
>
    decreases count,
{
    if count <= 0 {
        Ok(Seq::empty())
    } else {
        match annotated_prefix(lines, file, count - 1) {
            Err(kind) => Err(kind),
            Ok(records) => match line_instant(lines[count - 1]) {
                Err(kind) => Err(kind),
                Ok(micros) => Ok(
                    records.push(
                        Line { timestamp: micros, source_file: file, index: (count - 1) as usize },
                    ),
                ),
            },
        }
    }
}

/// The records of `lines`, the lines of the file with the number `file`.
pub open spec fn annotated(lines: Seq<Seq<char>>, file: usize) -> Result<Seq<Line>, ErrorKind> {
    annotated_prefix(lines, file, lines.len() as int)
}

/// The record stands for the line with the number `number` of the file with
/// the number `file`, which reads `line`.
pub open spec fn is_record_of(record: Line, line: Seq<char>, file: usize, number: int) -> bool {
    &&& line_instant(line) == Ok::<i64, ErrorKind>(record.timestamp)
    &&& record.source_file == file
    &&& record.index == number
}

/// The records of a file, once there are any: one for each line and in the
/// order of the lines, each with the instant and the number of its line.
pub proof fn lemma_annotated_records(lines: Seq<Seq<char>>, file: usize, count: int)
    requires
        0 <= count <= lines.len() <= usize::MAX,
        annotated_prefix(lines, file, count) is Ok,
    ensures
        annotated_prefix(lines, file, count)->Ok_0.len() == count,
        forall|i: int|
            0 <= i < count ==> #[trigger] is_record_of(
                annotated_prefix(lines, file, count)->Ok_0[i],
                lines[i],
                file,
                i,
            ),
    decreases count,
{
    if count > 0 {
        let records = annotated_prefix(lines, file, count)->Ok_0;
        let earlier = annotated_prefix(lines, file, count - 1)->Ok_0;
        lemma_annotated_records(lines, file, count - 1);
        assert forall|i: int| 0 <= i < count implies #[trigger] is_record_of(
            records[i],
            lines[i],
            file,
            i,
        ) by {
            if i < count - 1 {
                assert(is_record_of(earlier[i], lines[i], file, i));
            }
        }
    }
}

/// The reason why a file has no records is the reason of its first line
/// without an instant.
pub proof fn lemma_annotated_error(lines: Seq<Seq<char>>, file: usize, count: int) -> (first: int)
    requires
        0 <= count <= lines.len() <= usize::MAX,
        annotated_prefix(lines, file, count) is Err,
    ensures
        0 <= first < count,
        forall|i: int| 0 <= i < first ==> (#[trigger] line_instant(lines[i])) is Ok,
        line_instant(lines[first]) == Err::<i64, ErrorKind>(
            annotated_prefix(lines, file, count)->Err_0,
        ),
    decreases count,
{
    if annotated_prefix(lines, file, count - 1) is Err {
        lemma_annotated_error(lines, file, count - 1)
    } else {
        let earlier = annotated_prefix(lines, file, count - 1)->Ok_0;
        lemma_annotated_records(lines, file, count - 1);
        assert forall|i: int| 0 <= i < count - 1 implies (#[trigger] line_instant(
            lines[i],
        )) is Ok by {
            assert(is_record_of(earlier[i], lines[i], file, i));
        }
        count - 1
    }
}

/// Once the records of the first lines of a file have failed, the records of
/// more of its lines fail for the same reason.
proof fn lemma_annotated_fails(lines: Seq<Seq<char>>, file: usize, failed: int, count: int)
    requires
        failed <= count,
        annotated_prefix(lines, file, failed) is Err,
    ensures
        annotated_prefix(lines, file, count) == annotated_prefix(lines, file, failed),
    decreases count - failed,
{
    if failed < count {
        lemma_annotated_fails(lines, file, failed, count - 1);
    }
}

/// One of the files that were read was asked for under `number`.
pub open spec fn has_number(read: Seq<(usize, FileWithLines)>, number: int) -> bool {
    exists|j: int| 0 <= j < read.len() && (#[trigger] read[j]).0 == number
}

/// Every number from 0 up to the number of files was given to one of the files
/// that were read, and to one only.
pub open spec fn numbered_once(read: Seq<(usize, FileWithLines)>) -> bool {
    &&& forall|j: int| 0 <= j < read.len() ==> (#[trigger] read[j]).0 < read.len()
    &&& forall|j: int, k: int|
        0 <= j < read.len() && 0 <= k < read.len() && j != k ==> (#[trigger] read[j]).0 != (
        #[trigger] read[k]).0
    &&& forall|number: int| 0 <= number < read.len() ==> #[trigger] has_number(read, number)
}

/// The byte offsets of the line starts of `text`: offset 0, the offset behind
/// each newline, the length of the text where its last line has no newline,
/// and a last entry one past the length.
pub fn get_line_breaks(text: &String) -> (line_breaks: Vec<usize>)
    requires
        bytes_of(text@).len() < usize::MAX,
    ensures
        offsets(line_breaks@) == line_breaks_of(bytes_of(text@)),
{
    let bytes = text.as_str().as_bytes();
    let ghost all = bytes_of(text@);
    let mut line_breaks: Vec<usize> = Vec::new();
    line_breaks.push(0);
    let mut last: usize = 0;
    let mut i: usize = 0;
    proof {
        assert(offsets(line_breaks@).drop_last() + starts_from(all, 0, NEWLINE) =~= starts_from(
            all,
            0,
            NEWLINE,
        ));
    }
    while i < bytes.len()
        invariant
            bytes@ == all,
            all.len() < usize::MAX,
            last <= i <= all.len(),
            line_breaks@.len() >= 1,
            line_breaks@.last() == last,
            forall|k: int| last <= k < i ==> all[k] != NEWLINE,
            offsets(line_breaks@).drop_last() + starts_from(all, last as int, NEWLINE)
                == starts_from(all, 0, NEWLINE),
        decreases all.len() - i,
    {
        if bytes[i] == NEWLINE {
            proof {
                lemma_first_at_is(all, last as int, i as int, NEWLINE, true);
                assert(offsets(line_breaks@.push((i + 1) as usize)).drop_last() =~= offsets(
                    line_breaks@,
                ));
                assert(offsets(line_breaks@) =~= offsets(line_breaks@).drop_last().push(
                    last as int,
                ));
                assert(offsets(line_breaks@).drop_last().push(last as int) + starts_from(
                    all,
                    i + 1,
                    NEWLINE,
                ) =~= offsets(line_breaks@).drop_last() + starts_from(all, last as int, NEWLINE));
            }
            line_breaks.push(i + 1);
            last = i + 1;
        }
        i += 1;
    }
    if last != bytes.len() {
        proof {
            lemma_first_at_is(all, last as int, all.len() as int, NEWLINE, true);
            assert(starts_from(all, all.len() as int + 1, NEWLINE) =~= seq![all.len() as int]);
            assert(starts_from(all, last as int, NEWLINE) =~= seq![
                last as int,
                all.len() as int,
            ]);
            assert(offsets(line_breaks@.push(all.len() as usize)) =~= offsets(
                line_breaks@,
            ).drop_last() + starts_from(all, last as int, NEWLINE));
        }
        line_breaks.push(bytes.len());
    } else {
        proof {
            assert(offsets(line_breaks@) =~= offsets(line_breaks@).drop_last() + starts_from(
                all,
                last as int,
                NEWLINE,
            ));
        }
    }
    proof {
        assert(offsets(line_breaks@.push((all.len() + 1) as usize)) =~= offsets(
            line_breaks@,
        ).push(all.len() as int + 1));
    }
    line_breaks.push(bytes.len() + 1);
    line_breaks
}

/// A file that was read into memory, with the index of its lines.
#[derive(Debug)]
pub struct FileWithLines {
    filename: String,
    text: String,
    line_breaks: Vec<usize>,
}

impl View for FileWithLines {
    type V = Seq<char>;

    /// The text of the file.
    closed spec fn view(&self) -> Seq<char> {
        self.text@
    }
}

impl FileWithLines {
    #[verifier::type_invariant]
    spec fn indexed(&self) -> bool {
        offsets(self.line_breaks@) == line_breaks_of(bytes_of(self.text@))
    }

    /// The name the file was opened under.
    pub closed spec fn name(&self) -> Seq<char> {
        self.filename@
    }

    /// The lines of the file, each without the newline that ends it.
    pub open spec fn lines(&self) -> Seq<Seq<char>> {
        text_lines(self@)
    }

    /// Indexes the text of a file.
    pub fn new(filename: String, text: String) -> (file: FileWithLines)
        requires
            bytes_of(text@).len() < usize::MAX,
        ensures
            file@ == text@,
            file.name() == filename@,
    {
        let line_breaks = get_line_breaks(&text);
        FileWithLines { filename, text, line_breaks }
    }

    /// The files that were read, in the order in which they were asked for.
    /// Each comes with the number under which it was asked for, and they come
    /// in the order in which the reading ended. The number of a file is its
    /// place in the result, and so the number by which its lines are known.
    /// There is no result where the numbers are not the numbers from 0 on,
    /// each once.
    pub fn from_files(read: Vec<(usize, FileWithLines)>) -> (result: Option<Vec<FileWithLines>>)
        ensures
            match result {
                Some(files) => {
                    &&& numbered_once(read@)
                    &&& files@.len() == read@.len()
                    &&& forall|j: int|
                        0 <= j < read@.len() ==> files@[(#[trigger] read@[j]).0 as int]
                            == read@[j].1
                },
                None => !numbered_once(read@),
            },
    {
        let ghost all = read@;
        let count = read.len();
        let mut slots: Vec<Option<FileWithLines>> = Vec::new();
        while slots.len() < count
            invariant
                slots@.len() <= count,
                forall|place: int| 0 <= place < slots@.len() ==> slots@[place] is None,
            decreases count - slots@.len(),
        {
            slots.push(None);
        }
        let mut rest = read;
        while rest.len() > 0
            invariant
                all == read@,
                count == all.len(),
                slots@.len() == count,
                rest@ == all.subrange(0, rest@.len() as int),
                rest@.len() <= count,
                forall|j: int|
                    rest@.len() <= j < count ==> (#[trigger] all[j]).0 < count
                        && slots@[all[j].0 as int] == Some(all[j].1),
                forall|place: int|
                    0 <= place < count && (#[trigger] slots@[place]) is Some ==> exists|j: int|
                        rest@.len() <= j < count && (#[trigger] all[j]).0 == place,
                forall|j: int, k: int|
                    rest@.len() <= j < count && rest@.len() <= k < count && j != k ==> (
                    #[trigger] all[j]).0 != (#[trigger] all[k]).0,
            decreases rest@.len(),
        {
            let ghost last = rest@.len() - 1;
            let (place, file) = rest.pop().unwrap();
            assert(all[last] == (place, file));
            if place >= count {
                assert(!numbered_once(all));
                return None;
            }
            if slots[place].is_some() {
                proof {
                    let j = choose|j: int| last < j < count && (#[trigger] all[j]).0 == place;
                    assert(all[j].0 == all[last].0);
                    assert(!numbered_once(all));
                }
                return None;
            }
            let ghost before = slots@;
            slots[place] = Some(file);
            proof {
                assert forall|j: int| last <= j < count implies (#[trigger] all[j]).0 < count
                    && slots@[all[j].0 as int] == Some(all[j].1) by {
                    if j > last {
                        assert(before[all[j].0 as int] == Some(all[j].1));
                    }
                }
                assert forall|p: int|
                    0 <= p < count && (#[trigger] slots@[p]) is Some implies exists|j: int|
                    last <= j < count && (#[trigger] all[j]).0 == p by {
                    if p == place {
                        assert(all[last].0 == p);
                    } else {
                        assert(before[p] is Some);
                        let j = choose|j: int| last < j < count && (#[trigger] all[j]).0 == p;
                        assert(all[j].0 == p);
                    }
                }
                assert forall|j: int, k: int|
                    last <= j < count && last <= k < count && j != k implies (#[trigger] all[j]).0
                    != (#[trigger] all[k]).0 by {
                    if j == last {
                        assert(before[all[k].0 as int] == Some(all[k].1));
                    } else if k == last {
                        assert(before[all[j].0 as int] == Some(all[j].1));
                    }
                }
            }
        }
        let ghost filled = slots@;
        let mut reversed: Vec<FileWithLines> = Vec::new();
        while slots.len() > 0
            invariant
                all == read@,
                count == all.len(),
                filled.len() == count,
                slots@ == filled.subrange(0, slots@.len() as int),
                slots@.len() + reversed@.len() == count,
                forall|i: int|
                    0 <= i < reversed@.len() ==> filled[count - 1 - i] == Some(
                        #[trigger] reversed@[i],
                    ),
                forall|j: int|
                    0 <= j < count ==> (#[trigger] all[j]).0 < count && filled[all[j].0 as int]
                        == Some(all[j].1),
            decreases slots@.len(),
        {
            let ghost place = slots@.len() - 1;
            match slots.pop().unwrap() {
                Some(file) => {
                    reversed.push(file);
                },
                None => {
                    proof {
                        assert(filled[place] is None);
                        assert forall|j: int| 0 <= j < count implies (#[trigger] all[j]).0
                            != place by {
                            assert(filled[all[j].0 as int] == Some(all[j].1));
                        }
                        assert(!has_number(all, place));
                        assert(!numbered_once(all));
                    }
                    return None;
                },
            }
        }
        let mut files: Vec<FileWithLines> = Vec::new();
        while reversed.len() > 0
            invariant
                filled.len() == count,
                files@.len() + reversed@.len() == count,
                forall|i: int|
                    0 <= i < reversed@.len() ==> filled[count - 1 - i] == Some(
                        #[trigger] reversed@[i],
                    ),
                forall|i: int| 0 <= i < files@.len() ==> filled[i] == Some(#[trigger] files@[i]),
            decreases reversed@.len(),
        {
            let file = reversed.pop().unwrap();
            files.push(file);
        }
        proof {
            assert forall|number: int| 0 <= number < count implies #[trigger] has_number(
                all,
                number,
            ) by {
                assert(filled[number] == Some(files@[number]));
            }
            assert forall|j: int| 0 <= j < count implies files@[(#[trigger] all[j]).0 as int]
                == all[j].1 by {
                assert(filled[all[j].0 as int] == Some(all[j].1));
                assert(filled[all[j].0 as int] == Some(files@[all[j].0 as int]));
            }
        }
        Some(files)
    }

    /// The name the file was opened under.
    pub fn filename(&self) -> (name: String)
        ensures
            name@ == self.name(),
    {
        self.filename.clone()
    }

    /// The number of lines of the file.
    pub fn len(&self) -> (count: usize)
        ensures
            count == self.lines().len(),
    {
        proof {
            use_type_invariant(self);
            lemma_starts_and_lines(bytes_of(self@), 0, NEWLINE);
            lemma_lines_of_bytes(self@);
            assert(offsets(self.line_breaks@).len() == self.line_breaks@.len());
        }
        self.line_breaks.len() - 2
    }

    /// Line `i` of the file, counted from 0, without the newline that ends it.
    /// A carriage return before that newline is part of the line.
    pub fn get_ith_line(&self, i: usize) -> (result: Result<&str, LineError>)
        ensures
            match result {
                Ok(line) => i < self.lines().len() && line@ == self.lines()[i as int],
                Err(error) => i >= self.lines().len() && error.is_kind(ErrorKind::OutOfRange),
            },
    {
        let ghost all = bytes_of(self@);
        proof {
            use_type_invariant(self);
            lemma_starts_and_lines(all, 0, NEWLINE);
            lemma_lines_of_bytes(self@);
            assert(offsets(self.line_breaks@).len() == self.line_breaks@.len());
        }
        if i >= self.line_breaks.len() - 2 {
            return Err(LineError::new(ErrorKind::OutOfRange));
        }
        let text = self.text.as_str();
        let bytes = text.as_bytes();
        let from = self.line_breaks[i];
        let next = self.line_breaks[i + 1];
        let ghost starts = starts_from(all, 0, NEWLINE);
        proof {
            assert(offsets(self.line_breaks@)[i as int] == starts[i as int]);
            assert(offsets(self.line_breaks@)[i + 1] == starts[i + 1]);
            assert(line_spans(all, starts, split_lines(all, NEWLINE), i as int, NEWLINE));
            lemma_first_at(all, from as int, NEWLINE, true);
            encode_utf8_valid_utf8(self.text@);
            is_char_boundary_start_end_of_seq(all);
            if from > 0 && from < all.len() {
                lemma_boundaries_around_ascii(all, from - 1);
            }
        }
        let to = if bytes[next - 1] == NEWLINE {
            next - 1
        } else {
            next
        };
        proof {
            if to < all.len() {
                lemma_boundaries_around_ascii(all, to as int);
            }
        }
        let line = slice(text, from, to);
        proof {
            assert(to == line_end(all, from as int, NEWLINE));
            assert(bytes_of(line@) == split_lines(all, NEWLINE)[i as int]);
            lemma_bytes_give_the_text(line@, self.lines()[i as int]);
        }
        Ok(line)
    }

    /// The records of the lines of the file, which is known by the number
    /// `source_file_index`. The first line without an instant ends the work
    /// with its error.
    pub fn get_annotated_lines(&self, source_file_index: usize) -> (result: Result<
        Vec<Line>,
        LineError,
    >)
        ensures
            match (result, annotated(self.lines(), source_file_index)) {
                (Ok(records), Ok(expected)) => records@ == expected,
                (Err(error), Err(kind)) => error.is_kind(kind),
                _ => false,
            },
            result is Ok ==> result->Ok_0@.len() == self.lines().len(),
            result is Ok ==> forall|i: int|
                0 <= i < self.lines().len() ==> #[trigger] is_record_of(
                    result->Ok_0@[i],
                    self.lines()[i],
                    source_file_index,
                    i,
                ),
    {
        let mut result: Vec<Line> = Vec::new();
        let count = self.len();
        let mut i: usize = 0;
        while i < count
            invariant
                i <= count == self.lines().len(),
                annotated_prefix(self.lines(), source_file_index, i as int) == Ok::<
                    Seq<Line>,
                    ErrorKind,
                >(result@),
            decreases count - i,
        {
            let line = match self.get_ith_line(i) {
                Ok(line) => line,
                Err(error) => {
                    return Err(error);
                },
            };
            let timestamp = match get_timestamp_from_line(line) {
                Ok(instant) => instant.timestamp_micros(),
                Err(error) => {
                    proof {
                        lemma_annotated_fails(self.lines(), source_file_index, i + 1, count as int);
                    }
                    return Err(error);
                },
            };
            result.push(Line { timestamp, source_file: source_file_index, index: i });
            i += 1;
        }
        proof {
            lemma_annotated_records(self.lines(), source_file_index, count as int);
        }
        Ok(result)
    }
}

} // verus!
