//! How grave a line of a log is, by the words it holds.

use crate::utf8::bytes_of;
use vstd::prelude::*;
use vstd::string::*;

verus! {

/// How grave a line is. The screen shows errors and warnings in colours of
/// their own.
#[derive(Debug, Clone, Copy, PartialEq, Eq, Structural)]
pub enum Severity {
    Error,
    Warning,
    Plain,
}

/// `word` stands in `text` at the offset `at`.
pub open spec fn stands_at(text: Seq<u8>, word: Seq<u8>, at: int) -> bool {
    0 <= at && at + word.len() <= text.len() && text.subrange(at, at + word.len()) == word
}

/// `word` stands somewhere in `text`.
pub open spec fn holds(text: Seq<u8>, word: Seq<u8>) -> bool {
    exists|at: int| stands_at(text, word, at)
}

/// The word that marks an error.
pub open spec fn error_word() -> Seq<u8> {
    bytes_of("ERROR"@)
}

/// The word that marks a warning.
pub open spec fn warning_word() -> Seq<u8> {
    bytes_of("WARN"@)
}

/// How grave a line with the bytes `row` is: an error where it holds the word
/// for errors, else a warning where it holds the word for warnings.
pub open spec fn severity_of(row: Seq<u8>) -> Severity {
    if holds(row, error_word()) {
        Severity::Error
    } else if holds(row, warning_word()) {
        Severity::Warning
    } else {
        Severity::Plain
    }
}

/// Whether `word` stands in `text` at the offset `at`.
fn matches_at(text: &[u8], word: &[u8], at: usize) -> (found: bool)
    requires
        at + word@.len() <= text@.len(),
    ensures
        found == stands_at(text@, word@, at as int),
{
    let total = text.len();
    let mut i: usize = 0;
    while i < word.len()
        invariant
            i <= word@.len(),
            at + word@.len() <= text@.len() == total,
            text@.subrange(at as int, at + i) == word@.subrange(0, i as int),
        decreases word@.len() - i,
    {
        if text[at + i] != word[i] {
            proof {
                if stands_at(text@, word@, at as int) {
                    let part = text@.subrange(at as int, at + word@.len());
                    assert(part[i as int] == word@[i as int]);
                }
            }
            return false;
        }
        proof {
            assert(text@.subrange(at as int, at + i + 1) =~= text@.subrange(at as int, at + i).push(
                text@[at + i],
            ));
            assert(word@.subrange(0, i + 1) =~= word@.subrange(0, i as int).push(word@[i as int]));
        }
        i += 1;
    }
    proof {
        assert(word@.subrange(0, i as int) =~= word@);
    }
    true
}

/// Whether `word` stands somewhere in `text`.
pub fn contains_word(text: &[u8], word: &[u8]) -> (found: bool)
    ensures
        found == holds(text@, word@),
{
    if word.len() > text.len() {
        return false;
    }
    let last = text.len() - word.len();
    let mut at: usize = 0;
    while at < last
        invariant
            at <= last == text@.len() - word@.len(),
            forall|earlier: int| 0 <= earlier < at ==> !stands_at(text@, word@, earlier),
        decreases last - at,
    {
        if matches_at(text, word, at) {
            return true;
        }
        at += 1;
    }
    matches_at(text, word, last)
}

/// How grave a line is.
pub fn severity(row: &str) -> (grade: Severity)
    ensures
        grade == severity_of(bytes_of(row@)),
{
    let bytes = row.as_bytes();
    if contains_word(bytes, "ERROR".as_bytes()) {
        Severity::Error
    } else if contains_word(bytes, "WARN".as_bytes()) {
        Severity::Warning
    } else {
        Severity::Plain
    }
}

} // verus!
