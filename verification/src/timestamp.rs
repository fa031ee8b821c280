//! The instant a log line was written at, read from the start of the line.

use crate::scan::{first_where, lemma_first_where};
use crate::utf8::{
    bytes_of, lemma_boundaries_around_ascii, lemma_bytes_give_the_text,
    lemma_first_where_in_bytes, lemma_offset_of_next, lemma_offsets, offset, same_kind, slice,
};
use vstd::prelude::*;
use vstd::string::*;
use vstd::utf8::*;

verus! {

/// Why a line could not be served or could not be given an instant.
#[derive(Debug, Clone, Copy, PartialEq, Eq, Structural)]
pub enum ErrorKind {
    /// The line holds no date: it is empty or blank.
    MissingDate,
    /// The line holds a date and nothing after it.
    MissingTime,
    /// The date and time of the line are in none of the accepted forms.
    UnparseableTimestamp,
    /// The file has no line with the number asked for.
    OutOfRange,
}

impl ErrorKind {
    /// The text that reports this kind of error.
    pub open spec fn message(self) -> Seq<char> {
        match self {
            ErrorKind::MissingDate => "line does not have a date"@,
            ErrorKind::MissingTime => "line does not have a time"@,
            ErrorKind::UnparseableTimestamp => "cannot parse timestamp"@,
            ErrorKind::OutOfRange => "line index is out of range"@,
        }
    }
}

/// An error about one line of a file.
#[derive(Debug, Clone)]
pub struct LineError {
    pub kind: ErrorKind,
    pub error_message: String,
}

impl LineError {
    /// The error is of the given kind and carries that kind's message.
    pub open spec fn is_kind(&self, kind: ErrorKind) -> bool {
        self.kind == kind && self.error_message@ == kind.message()
    }

    /// The error of the given kind.
    pub fn new(kind: ErrorKind) -> (error: LineError)
        ensures
            error.is_kind(kind),
    {
        let text = match kind {
            ErrorKind::MissingDate => "line does not have a date",
            ErrorKind::MissingTime => "line does not have a time",
            ErrorKind::UnparseableTimestamp => "cannot parse timestamp",
            ErrorKind::OutOfRange => "line index is out of range",
        };
        LineError { kind, error_message: text.to_owned() }
    }

    /// The message of the error, as it is shown to the operator.
    pub fn to_string(&self) -> (text: String)
        ensures
            text@ == self.error_message@,
    {
        self.error_message.clone()
    }
}

/// An instant, counted in microseconds from the start of 1970 in UTC. Instants
/// before that are negative.
#[derive(Debug, Clone, Copy, PartialEq, Eq, Structural)]
pub struct Timestamp {
    pub micros: i64,
}

impl Timestamp {
    /// The instant that lies `micros` microseconds after the start of 1970.
    pub fn from_micros(micros: i64) -> (instant: Timestamp)
        ensures
            instant.micros == micros,
    {
        Timestamp { micros }
    }

    /// The microseconds from the start of 1970 to this instant.
    pub fn timestamp_micros(&self) -> (micros: i64)
        ensures
            micros == self.micros,
    {
        self.micros
    }

    /// The instant that a parser found, or the error that reports that it
    /// found none.
    pub fn from_parsed(parsed: Option<i64>) -> (result: Result<Timestamp, LineError>)
        ensures
            match result {
                Ok(instant) => parsed == Some(instant.micros),
                Err(error) => parsed is None && error.is_kind(ErrorKind::UnparseableTimestamp),
            },
    {
        match parsed {
            Some(micros) => Ok(Timestamp { micros }),
            None => Err(LineError::new(ErrorKind::UnparseableTimestamp)),
        }
    }
}

/// The space as a byte.
pub const SPACE: u8 = 32;

/// The tab as a byte: the first of the five control characters that count as
/// white space.
pub const TAB: u8 = 9;

/// The carriage return as a byte: the last of the five control characters that
/// count as white space.
pub const CARRIAGE_RETURN: u8 = 13;

/// Whether a character separates the parts of a line. The white space of
/// ASCII does: the space, the tab, the line feed, the vertical tab, the form
/// feed and the carriage return. No other character does; a space from beyond
/// ASCII, such as the no-break space, is part of the word it stands in.
pub open spec fn is_blank(c: char) -> bool {
    c as u32 == SPACE || TAB <= c as u32 <= CARRIAGE_RETURN
}

/// Whether a byte is one of the characters that separate the parts of a line.
pub open spec fn is_blank_byte(byte: u8) -> bool {
    byte == SPACE || TAB <= byte <= CARRIAGE_RETURN
}

/// The kind of the characters that separate the parts of a line.
pub open spec fn blank() -> spec_fn(char) -> bool {
    |c: char| is_blank(c)
}

/// The kind of the bytes that separate the parts of a line.
pub open spec fn blank_byte() -> spec_fn(u8) -> bool {
    |byte: u8| is_blank_byte(byte)
}

/// Where the date of `line` starts: at its first character that is no white
/// space.
pub open spec fn date_start(line: Seq<char>) -> int {
    first_where(line, 0, blank(), false)
}

/// Where the date of `line` ends: at the first white space behind its start.
pub open spec fn date_end(line: Seq<char>) -> int {
    first_where(line, date_start(line), blank(), true)
}

/// Where the time of `line` starts: at the first character behind the date that
/// is no white space.
pub open spec fn time_start(line: Seq<char>) -> int {
    first_where(line, date_end(line), blank(), false)
}

/// Where the time of `line` ends: at the first white space behind its start.
pub open spec fn time_end(line: Seq<char>) -> int {
    first_where(line, time_start(line), blank(), true)
}

/// The text that is tried as the timestamp of `line`: its date and its time
/// with one space between them.
pub open spec fn candidate(line: Seq<char>) -> Seq<char> {
    line.subrange(date_start(line), date_end(line)) + seq![' '] + line.subrange(
        time_start(line),
        time_end(line),
    )
}

/// The pattern of a timestamp: year, month and day with hyphens, a space,
/// hours, minutes and seconds with colons, an optional fraction of a second
/// behind a dot, a space, and the offset from UTC.
pub open spec fn pattern() -> Seq<char> {
    "%Y-%m-%d %H:%M:%S%.f %z"@
}

/// The offset from UTC that is appended to every timestamp before it is
/// parsed: none.
pub open spec fn utc_marker() -> Seq<char> {
    " +0000"@
}

/// The instant, in microseconds from the start of 1970, that the date and time
/// parser reads from `text` under `pattern`, or `None` where it rejects the
/// text.
pub uninterp spec fn parsed_micros(text: Seq<char>, pattern: Seq<char>) -> Option<i64>;

/// `text` with every occurrence of the character `from` replaced by the text
/// `to`.
pub open spec fn replaced(text: Seq<char>, from: char, to: Seq<char>) -> Seq<char>
    decreases text.len(),
{
    if text.len() == 0 {
        text
    } else if text[0] == from {
        to + replaced(text.drop_first(), from, to)
    } else {
        seq![text[0]] + replaced(text.drop_first(), from, to)
    }
}

/// The instant that `time`, a date and a time without an offset, stands for:
/// what the parser reads from it as a time in UTC, and where it rejects that,
/// what it reads after every comma was made a dot.
pub open spec fn instant_of(time: Seq<char>) -> Option<i64> {
    let text = time + utc_marker();
    match parsed_micros(text, pattern()) {
        Some(micros) => Some(micros),
        None => parsed_micros(replaced(text, ',', "."@), pattern()),
    }
}

/// The instant of a line, or the reason why it has none.
pub open spec fn line_instant(line: Seq<char>) -> Result<i64, ErrorKind> {
    if date_start(line) >= line.len() {
        Err(ErrorKind::MissingDate)
    } else if time_start(line) >= line.len() {
        Err(ErrorKind::MissingTime)
    } else {
        match instant_of(candidate(line)) {
            Some(micros) => Ok(micros),
            None => Err(ErrorKind::UnparseableTimestamp),
        }
    }
}

/// The result carries the instant or the kind of error that `expected` names.
pub open spec fn reports(
    result: Result<Timestamp, LineError>,
    expected: Result<i64, ErrorKind>,
) -> bool {
    match (result, expected) {
        (Ok(instant), Ok(micros)) => instant.micros == micros,
        (Err(error), Err(kind)) => error.is_kind(kind),
        _ => false,
    }
}

/// Calls `chrono::DateTime::parse_from_str` on `text` with `pattern` and, where
/// that gives a date and time, `chrono::DateTime::timestamp_micros` on it.
/// Taken on trust: that the outcome depends on the two texts alone. It is
/// `None` exactly where the parser returns an error.
#[verifier::external_body]
fn parse_micros(text: &str, pattern: &str) -> (micros: Option<i64>)
    ensures
        micros == parsed_micros(text@, pattern@),
{
    match chrono::DateTime::parse_from_str(text, pattern) {
        Ok(instant) => Some(instant.timestamp_micros()),
        Err(_) => None,
    }
}

/// Calls `str::replace` with a character to look for. Taken on trust: that
/// the result is `text` with each occurrence of `from` replaced by `to` and
/// every other character kept.
#[verifier::external_body]
fn replace_char(text: &str, from: char, to: &str) -> (result: String)
    ensures
        result@ == replaced(text@, from, to@),
{
    text.replace(from, to)
}

/// Whether a byte is one of the characters that separate the parts of a line.
fn separates(byte: u8) -> (blank: bool)
    ensures
        blank == is_blank_byte(byte),
{
    byte == SPACE || (TAB <= byte && byte <= CARRIAGE_RETURN)
}

/// The offset of the first white space of `bytes` at or after `from`, where
/// `space` is set, or of the first byte that is none, where it is not.
fn scan(bytes: &[u8], from: usize, space: bool) -> (offset: usize)
    requires
        from <= bytes@.len(),
    ensures
        offset == first_where(bytes@, from as int, blank_byte(), space),
        from <= offset <= bytes@.len(),
{
    let mut i = from;
    while i < bytes.len() && separates(bytes[i]) != space
        invariant
            from <= i <= bytes@.len(),
            first_where(bytes@, i as int, blank_byte(), space) == first_where(
                bytes@,
                from as int,
                blank_byte(),
                space,
            ),
        decreases bytes@.len() - i,
    {
        i += 1;
    }
    i
}

/// Reads a date and time without an offset, such as
/// `2023-05-03 10:25:50.262116`, as a time in UTC. The fraction of a second may
/// stand behind a comma instead of a dot.
pub fn parse_timestamp_utc(time: &str) -> (result: Result<Timestamp, LineError>)
    ensures
        match result {
            Ok(instant) => instant_of(time@) == Some(instant.micros),
            Err(error) => instant_of(time@) is None && error.is_kind(
                ErrorKind::UnparseableTimestamp,
            ),
        },
{
    let mut time_utc = time.to_owned();
    time_utc.append(" +0000");
    match parse_micros(time_utc.as_str(), "%Y-%m-%d %H:%M:%S%.f %z") {
        Some(micros) => Ok(Timestamp::from_micros(micros)),
        None => {
            let with_dots = replace_char(time_utc.as_str(), ',', ".");
            Timestamp::from_parsed(parse_micros(with_dots.as_str(), "%Y-%m-%d %H:%M:%S%.f %z"))
        },
    }
}

/// The instant a log line was written at. The line starts with a date and a
/// time, which white space separates from each other and from the rest: the
/// date and the time are the first two words of the line. White space is the
/// white space of ASCII, which is the space, the tab and the four other control
/// characters from the line feed to the carriage return. A space from beyond
/// ASCII does not separate.
pub fn get_timestamp_from_line(line: &str) -> (result: Result<Timestamp, LineError>)
    ensures
        reports(result, line_instant(line@)),
{
    let bytes = line.as_bytes();
    let ghost text = line@;
    let ghost all = bytes_of(text);
    proof {
        encode_utf8_valid_utf8(text);
        is_char_boundary_start_end_of_seq(all);
        lemma_places_in_bytes(text);
    }
    let date_from = scan(bytes, 0, false);
    if date_from >= bytes.len() {
        return Err(LineError::new(ErrorKind::MissingDate));
    }
    let date_to = scan(bytes, date_from, true);
    let time_from = scan(bytes, date_to, false);
    if time_from >= bytes.len() {
        return Err(LineError::new(ErrorKind::MissingTime));
    }
    let time_to = scan(bytes, time_from, true);
    proof {
        lemma_first_where(all, 0, blank_byte(), false);
        lemma_first_where(all, date_from as int, blank_byte(), true);
        lemma_first_where(all, date_to as int, blank_byte(), false);
        lemma_first_where(all, time_from as int, blank_byte(), true);
        if date_from > 0 {
            lemma_boundaries_around_ascii(all, date_from - 1);
        }
        lemma_boundaries_around_ascii(all, date_to as int);
        lemma_boundaries_around_ascii(all, time_from - 1);
        if time_to < all.len() {
            lemma_boundaries_around_ascii(all, time_to as int);
        }
    }
    let date = slice(line, date_from, date_to);
    let time = slice(line, time_from, time_to);
    let mut timestamp = date.to_owned();
    timestamp.append(" ");
    timestamp.append(time);
    proof {
        reveal_strlit(" ");
        assert(" "@ =~= seq![' ']);
        lemma_bytes_give_the_text(date@, text.subrange(date_start(text), date_end(text)));
        lemma_bytes_give_the_text(time@, text.subrange(time_start(text), time_end(text)));
        assert(timestamp@ =~= candidate(text));
    }
    parse_timestamp_utc(timestamp.as_str())
}

/// The characters that separate and the bytes that separate are the same
/// kind.
proof fn lemma_blank_kinds()
    ensures
        same_kind(blank(), blank_byte()),
{
    assert forall|c: char| (c as u32) < 0x80 implies #[trigger] blank()(c) == blank_byte()(
        c as u8,
    ) by {
        char_u32_cast(c, c as u32);
        assert((c as u8) as u32 == c as u32);
    }
}

/// Where the date and the time of a line start and end in its bytes: at the
/// offsets of the characters at which they start and end in the line. The
/// date, or the time, is missing from the line where it is missing from the
/// bytes.
proof fn lemma_places_in_bytes(line: Seq<char>)
    ensures
        first_where(bytes_of(line), 0, blank_byte(), false) == offset(line, date_start(line)),
        first_where(bytes_of(line), offset(line, date_start(line)), blank_byte(), true) == offset(
            line,
            date_end(line),
        ),
        first_where(bytes_of(line), offset(line, date_end(line)), blank_byte(), false) == offset(
            line,
            time_start(line),
        ),
        first_where(bytes_of(line), offset(line, time_start(line)), blank_byte(), true) == offset(
            line,
            time_end(line),
        ),
        date_start(line) <= date_end(line) <= time_start(line) <= time_end(line) <= line.len(),
        date_start(line) >= line.len() <==> offset(line, date_start(line)) >= bytes_of(line).len(),
        time_start(line) >= line.len() <==> offset(line, time_start(line)) >= bytes_of(line).len(),
        bytes_of(line).subrange(offset(line, date_start(line)), offset(line, date_end(line)))
            == bytes_of(line.subrange(date_start(line), date_end(line))),
        bytes_of(line).subrange(offset(line, time_start(line)), offset(line, time_end(line)))
            == bytes_of(line.subrange(time_start(line), time_end(line))),
{
    lemma_offsets(line, 0, 0);
    lemma_blank_kinds();
    lemma_first_where(line, 0, blank(), false);
    lemma_first_where_in_bytes(line, 0, blank(), blank_byte(), false);
    lemma_first_where(line, date_start(line), blank(), true);
    lemma_first_where_in_bytes(line, date_start(line), blank(), blank_byte(), true);
    lemma_first_where(line, date_end(line), blank(), false);
    lemma_first_where_in_bytes(line, date_end(line), blank(), blank_byte(), false);
    lemma_first_where(line, time_start(line), blank(), true);
    lemma_first_where_in_bytes(line, time_start(line), blank(), blank_byte(), true);
    lemma_offsets(line, date_start(line), date_end(line));
    lemma_offsets(line, time_start(line), time_end(line));
    if date_start(line) < line.len() {
        lemma_offset_of_next(line, date_start(line));
        lemma_offsets(line, date_start(line) + 1, line.len() as int);
    }
    if time_start(line) < line.len() {
        lemma_offset_of_next(line, time_start(line));
        lemma_offsets(line, time_start(line) + 1, line.len() as int);
    }
}

} // verus!
