//! The list of the files to choose from: which files of a directory it
//! holds, in what order, and how each of them is labelled.

use crate::decimal::{append_decimal, decimal};
use crate::model::Entry;
use crate::utf8::bytes_of;
use core::cmp::Ordering;
use vstd::prelude::*;
use vstd::string::*;

verus! {

/// The byte that a hidden file's name starts with.
pub const DOT: u8 = 46;

/// Whether a file with this name and size is listed: it is not empty, and its
/// name does not start with a dot.
pub open spec fn listed(name: Seq<u8>, size: u64) -> bool {
    size > 0 && !(name.len() > 0 && name[0] == DOT)
}

/// Whether a file with this name and size is listed.
pub fn is_listed(file_name: &str, size: u64) -> (keep: bool)
    ensures
        keep == listed(bytes_of(file_name@), size),
{
    let bytes = file_name.as_bytes();
    if bytes.len() > 0 && bytes[0] == DOT {
        return false;
    }
    size != 0
}

/// `left` comes before `right` in a dictionary of byte strings, or equals it:
/// at the first place where they differ `left` has the smaller byte, or `left`
/// ends where `right` goes on.
pub open spec fn precedes(left: Seq<u8>, right: Seq<u8>) -> bool
    decreases left.len(),
{
    if left.len() == 0 {
        true
    } else if right.len() == 0 {
        false
    } else if left[0] != right[0] {
        left[0] < right[0]
    } else {
        precedes(left.drop_first(), right.drop_first())
    }
}

/// Of two byte strings one comes before the other, or they are equal.
pub proof fn lemma_precedes_is_total(left: Seq<u8>, right: Seq<u8>)
    ensures
        precedes(left, right) || precedes(right, left),
    decreases left.len(),
{
    if left.len() > 0 && right.len() > 0 && left[0] == right[0] {
        lemma_precedes_is_total(left.drop_first(), right.drop_first());
    }
}

/// Two byte strings that each come before the other are equal.
pub proof fn lemma_precedes_is_antisymmetric(left: Seq<u8>, right: Seq<u8>)
    requires
        precedes(left, right),
        precedes(right, left),
    ensures
        left == right,
    decreases left.len(),
{
    if left.len() > 0 && right.len() > 0 {
        lemma_precedes_is_antisymmetric(left.drop_first(), right.drop_first());
        assert(left =~= seq![left[0]] + left.drop_first());
        assert(right =~= seq![right[0]] + right.drop_first());
    } else {
        assert(left =~= right);
    }
}

/// What comes before a byte string comes before what that string comes
/// before.
pub proof fn lemma_precedes_is_transitive(first: Seq<u8>, second: Seq<u8>, third: Seq<u8>)
    requires
        precedes(first, second),
        precedes(second, third),
    ensures
        precedes(first, third),
    decreases first.len(),
{
    if first.len() > 0 && second.len() > 0 && third.len() > 0 && first[0] == second[0]
        && second[0] == third[0] {
        lemma_precedes_is_transitive(
            first.drop_first(),
            second.drop_first(),
            third.drop_first(),
        );
    }
}

/// Whether `left` comes before `right` in a dictionary of byte strings, or
/// equals it.
pub fn names_in_order(left: &[u8], right: &[u8]) -> (in_order: bool)
    ensures
        in_order == precedes(left@, right@),
{
    let mut i: usize = 0;
    proof {
        assert(left@.skip(0) =~= left@);
        assert(right@.skip(0) =~= right@);
    }
    while i < left.len() && i < right.len() && left[i] == right[i]
        invariant
            i <= left@.len(),
            i <= right@.len(),
            precedes(left@, right@) == precedes(left@.skip(i as int), right@.skip(i as int)),
        decreases left@.len() - i,
    {
        proof {
            assert(left@.skip(i as int).drop_first() =~= left@.skip(i + 1));
            assert(right@.skip(i as int).drop_first() =~= right@.skip(i + 1));
        }
        i += 1;
    }
    if i == left.len() {
        true
    } else if i == right.len() {
        false
    } else {
        left[i] < right[i]
    }
}

/// A file that can be chosen: its full path and its size in bytes.
#[derive(Debug, Clone)]
pub struct FileEntry {
    pub filename: String,
    pub file_size: u64,
}

impl FileEntry {
    /// The name and the size of the file.
    pub open spec fn entry(&self) -> Entry {
        Entry { name: self.filename@, size: self.file_size }
    }
}

/// The names and the sizes of the files.
pub open spec fn entries(files: Seq<FileEntry>) -> Seq<Entry> {
    files.map_values(|file: FileEntry| file.entry())
}

/// Two files compare equal when they have the same name.
impl PartialEq for FileEntry {
    fn eq(&self, other: &FileEntry) -> (r: bool) {
        self.filename == other.filename
    }
}

impl vstd::std_specs::cmp::PartialEqSpecImpl for FileEntry {
    open spec fn obeys_eq_spec() -> bool {
        true
    }

    open spec fn eq_spec(&self, other: &FileEntry) -> bool {
        self.filename@ == other.filename@
    }
}

impl Eq for FileEntry {

}

/// Files are ordered by the bytes of their names.
impl PartialOrd for FileEntry {
    fn partial_cmp(&self, other: &FileEntry) -> (r: Option<Ordering>) {
        let left = self.filename.as_str().as_bytes();
        let right = other.filename.as_str().as_bytes();
        if names_in_order(left, right) {
            if names_in_order(right, left) {
                Some(Ordering::Equal)
            } else {
                Some(Ordering::Less)
            }
        } else {
            Some(Ordering::Greater)
        }
    }
}

impl vstd::std_specs::cmp::PartialOrdSpecImpl for FileEntry {
    open spec fn obeys_partial_cmp_spec() -> bool {
        true
    }

    open spec fn partial_cmp_spec(&self, other: &FileEntry) -> Option<Ordering> {
        if precedes(bytes_of(self.filename@), bytes_of(other.filename@)) {
            if precedes(bytes_of(other.filename@), bytes_of(self.filename@)) {
                Some(Ordering::Equal)
            } else {
                Some(Ordering::Less)
            }
        } else {
            Some(Ordering::Greater)
        }
    }
}

/// The bytes of the name of a file.
pub open spec fn name_bytes(entry: Entry) -> Seq<u8> {
    bytes_of(entry.name)
}

/// The files are in the order of their names.
pub open spec fn sorted_by_name(files: Seq<Entry>) -> bool {
    forall|i: int, j: int|
        0 <= i <= j < files.len() ==> precedes(name_bytes(files[i]), name_bytes(files[j]))
}

/// How many files at the start of `sorted` have a name that comes before
/// `name` and differs from it.
pub open spec fn insertion_point(sorted: Seq<Entry>, name: Seq<u8>) -> int
    decreases sorted.len(),
{
    if sorted.len() == 0 || precedes(name, name_bytes(sorted[0])) {
        0
    } else {
        1 + insertion_point(sorted.drop_first(), name)
    }
}

/// The files of `files` from the place `from` on, in the order of their names.
/// Files of the same name stay in the order in which they were given.
pub open spec fn sorted_from(files: Seq<Entry>, from: int) -> Seq<Entry>
    decreases files.len() - from,
{
    if from < 0 || from >= files.len() {
        Seq::empty()
    } else {
        let later = sorted_from(files, from + 1);
        later.insert(insertion_point(later, name_bytes(files[from])), files[from])
    }
}

/// The files in the order of their names.
pub open spec fn sorted_entries(files: Seq<Entry>) -> Seq<Entry> {
    sorted_from(files, 0)
}

/// The insertion point lies within the list; the files before it have names
/// that come before the new name and differ from it, and the file at it has
/// none such.
pub proof fn lemma_insertion_point(sorted: Seq<Entry>, name: Seq<u8>)
    ensures
        0 <= insertion_point(sorted, name) <= sorted.len(),
        forall|k: int|
            0 <= k < insertion_point(sorted, name) ==> !precedes(name, name_bytes(sorted[k])),
        insertion_point(sorted, name) < sorted.len() ==> precedes(
            name,
            name_bytes(sorted[insertion_point(sorted, name)]),
        ),
    decreases sorted.len(),
{
    if sorted.len() == 0 || precedes(name, name_bytes(sorted[0])) {
    } else {
        let later = sorted.drop_first();
        lemma_insertion_point(later, name);
        assert forall|k: int| 0 <= k < insertion_point(sorted, name) implies !precedes(
            name,
            name_bytes(sorted[k]),
        ) by {
            if k > 0 {
                assert(sorted[k] == later[k - 1]);
            }
        }
        if insertion_point(sorted, name) < sorted.len() {
            assert(sorted[insertion_point(sorted, name)] == later[insertion_point(later, name)]);
        }
    }
}

/// A file put in at its insertion point leaves a sorted list sorted.
pub proof fn lemma_insert_keeps_sorted(sorted: Seq<Entry>, file: Entry)
    requires
        sorted_by_name(sorted),
    ensures
        sorted_by_name(sorted.insert(insertion_point(sorted, name_bytes(file)), file)),
{
    let name = name_bytes(file);
    let point = insertion_point(sorted, name);
    let longer = sorted.insert(point, file);
    lemma_insertion_point(sorted, name);
    assert forall|i: int, j: int| 0 <= i <= j < longer.len() implies precedes(
        name_bytes(longer[i]),
        name_bytes(longer[j]),
    ) by {
        let left = name_bytes(longer[i]);
        let right = name_bytes(longer[j]);
        if i == j {
            lemma_precedes_is_total(left, left);
        } else if j == point {
            assert(longer[i] == sorted[i]);
            lemma_precedes_is_total(left, name);
        } else if i == point {
            assert(longer[j] == sorted[j - 1]);
            assert(precedes(name_bytes(sorted[point]), name_bytes(sorted[j - 1])));
            lemma_precedes_is_transitive(name, name_bytes(sorted[point]), right);
        } else {
            let before_i = if i < point {
                i
            } else {
                i - 1
            };
            let before_j = if j < point {
                j
            } else {
                j - 1
            };
            assert(longer[i] == sorted[before_i]);
            assert(longer[j] == sorted[before_j]);
        }
    }
}

/// Sorting gives the files in the order of their names, and gives every file
/// as often as it was given.
pub proof fn lemma_sorted_from(files: Seq<Entry>, from: int)
    requires
        0 <= from <= files.len(),
    ensures
        sorted_by_name(sorted_from(files, from)),
        sorted_from(files, from).len() == files.len() - from,
        sorted_from(files, from).to_multiset() == files.skip(from).to_multiset(),
    decreases files.len() - from,
{
    broadcast use vstd::seq_lib::group_to_multiset_ensures;

    if from < files.len() {
        let later = sorted_from(files, from + 1);
        let point = insertion_point(later, name_bytes(files[from]));
        lemma_sorted_from(files, from + 1);
        lemma_insertion_point(later, name_bytes(files[from]));
        lemma_insert_keeps_sorted(later, files[from]);
        assert(files.skip(from) =~= files.skip(from + 1).insert(0, files[from]));
        assert(later.insert(point, files[from]).to_multiset() =~= later.to_multiset().insert(
            files[from],
        ));
    } else {
        assert(files.skip(from) =~= Seq::empty());
    }
}

/// Sorting gives the files in the order of their names, and gives every file
/// as often as it was given.
pub proof fn lemma_sorted_entries(files: Seq<Entry>)
    ensures
        sorted_by_name(sorted_entries(files)),
        sorted_entries(files).len() == files.len(),
        sorted_entries(files).to_multiset() == files.to_multiset(),
{
    lemma_sorted_from(files, 0);
    assert(files.skip(0) =~= files);
}

/// The files in the order of their names. Files of the same name stay in the
/// order in which they were given.
pub fn sort_entries(files: Vec<FileEntry>) -> (sorted: Vec<FileEntry>)
    ensures
        entries(sorted@) == sorted_entries(entries(files@)),
        sorted_by_name(entries(sorted@)),
        entries(sorted@).to_multiset() == entries(files@).to_multiset(),
{
    let ghost all = entries(files@);
    let mut rest = files;
    let mut sorted: Vec<FileEntry> = Vec::new();
    proof {
        assert(entries(sorted@) =~= sorted_from(all, rest@.len() as int));
        assert(entries(rest@) =~= all.subrange(0, rest@.len() as int));
    }
    while rest.len() > 0
        invariant
            rest@.len() <= all.len(),
            entries(rest@) == all.subrange(0, rest@.len() as int),
            entries(sorted@) == sorted_from(all, rest@.len() as int),
        decreases rest@.len(),
    {
        let ghost before = rest@;
        let file = rest.pop().unwrap();
        proof {
            assert(entries(before)[before.len() - 1] == file.entry());
            assert(entries(rest@) =~= all.subrange(0, rest@.len() as int));
        }
        let ghost name = name_bytes(file.entry());
        let ghost later = entries(sorted@);
        let mut position: usize = 0;
        proof {
            assert(later.skip(0) =~= later);
        }
        while position < sorted.len() && !names_in_order(
            file.filename.as_str().as_bytes(),
            sorted[position].filename.as_str().as_bytes(),
        )
            invariant
                position <= sorted@.len(),
                later == entries(sorted@),
                name == name_bytes(file.entry()),
                insertion_point(later, name) == position + insertion_point(
                    later.skip(position as int),
                    name,
                ),
            decreases sorted@.len() - position,
        {
            proof {
                assert(later.skip(position as int)[0] == sorted@[position as int].entry());
                assert(later.skip(position as int).drop_first() =~= later.skip(position + 1));
            }
            position += 1;
        }
        proof {
            if position < sorted@.len() {
                assert(later.skip(position as int)[0] == sorted@[position as int].entry());
            }
            assert(insertion_point(later, name) == position);
            assert(entries(sorted@.insert(position as int, file)) =~= later.insert(
                position as int,
                file.entry(),
            ));
        }
        sorted.insert(position, file);
    }
    proof {
        lemma_sorted_entries(all);
    }
    sorted
}

/// A file as the list shows it: its name without the directory, whether it
/// is chosen, and its size in bytes.
#[derive(Debug, Clone)]
pub struct ListedFile {
    pub name: String,
    pub loaded: bool,
    pub file_size: u64,
}

/// `count` spaces.
pub open spec fn spaces(count: int) -> Seq<char> {
    Seq::new(count as nat, |i: int| ' ')
}

/// The number of bytes of the longest name among the first `count` files.
pub open spec fn longest_name(files: Seq<ListedFile>, count: int) -> int
    decreases count,
{
    if count <= 0 {
        0
    } else {
        vstd::math::max(
            longest_name(files, count - 1),
            bytes_of(files[count - 1].name@).len() as int,
        )
    }
}

/// The label of a file in a list whose longest name has `longest` bytes: a mark
/// in square brackets, which is an `x` where the file is chosen; the name,
/// followed by spaces up to the length of the longest name and five more;
/// and the size in round brackets.
pub open spec fn label(file: ListedFile, longest: int) -> Seq<char> {
    "["@ + (if file.loaded {
        "x"@
    } else {
        " "@
    }) + "] "@ + file.name@ + spaces(longest - bytes_of(file.name@).len()) + "     "@ + " ("@
        + decimal(file.file_size as nat) + " B)"@
}

/// No name is longer than the longest.
pub proof fn lemma_longest_name(files: Seq<ListedFile>, count: int)
    requires
        0 <= count <= files.len(),
    ensures
        0 <= longest_name(files, count),
        forall|i: int| 0 <= i < count ==> bytes_of(#[trigger] files[i].name@).len() <= longest_name(
            files,
            count,
        ),
    decreases count,
{
    if count > 0 {
        lemma_longest_name(files, count - 1);
    }
}

/// Writes `count` spaces behind what `out` holds.
fn append_spaces(out: &mut String, count: usize)
    ensures
        final(out)@ == old(out)@ + spaces(count as int),
{
    let mut written: usize = 0;
    proof {
        reveal_strlit(" ");
        assert(out@ =~= old(out)@ + spaces(0));
    }
    while written < count
        invariant
            written <= count,
            out@ == old(out)@ + spaces(written as int),
            " "@ == seq![' '],
        decreases count - written,
    {
        out.append(" ");
        written += 1;
        proof {
            assert(out@ =~= old(out)@ + spaces(written as int));
        }
    }
}

/// The labels of the files of a list, in the order of the files.
pub fn generate_file_list(files: &Vec<ListedFile>) -> (labels: Vec<String>)
    ensures
        labels@.len() == files@.len(),
        forall|i: int|
            0 <= i < files@.len() ==> #[trigger] labels@[i]@ == label(
                files@[i],
                longest_name(files@, files@.len() as int),
            ),
{
    let mut max_filename_len: usize = 0;
    let mut i: usize = 0;
    while i < files.len()
        invariant
            i <= files@.len(),
            max_filename_len == longest_name(files@, i as int),
        decreases files@.len() - i,
    {
        let len = files[i].name.as_str().as_bytes().len();
        if len > max_filename_len {
            max_filename_len = len;
        }
        i += 1;
    }
    proof {
        lemma_longest_name(files@, files@.len() as int);
    }
    let mut labels: Vec<String> = Vec::new();
    let mut i: usize = 0;
    while i < files.len()
        invariant
            i <= files@.len(),
            labels@.len() == i,
            max_filename_len == longest_name(files@, files@.len() as int),
            forall|k: int|
                0 <= k < files@.len() ==> bytes_of(#[trigger] files@[k].name@).len()
                    <= max_filename_len,
            forall|k: int|
                0 <= k < i ==> #[trigger] labels@[k]@ == label(files@[k], max_filename_len as int),
        decreases files@.len() - i,
    {
        let file = &files[i];
        let loaded_marker = if file.loaded {
            "x"
        } else {
            " "
        };
        let mut text = "[".to_owned();
        text.append(loaded_marker);
        text.append("] ");
        text.append(file.name.as_str());
        append_spaces(&mut text, max_filename_len - file.name.as_str().as_bytes().len());
        text.append("     ");
        text.append(" (");
        append_decimal(&mut text, file.file_size);
        text.append(" B)");
        proof {
            assert(text@ =~= label(*file, max_filename_len as int));
        }
        labels.push(text);
        i += 1;
    }
    labels
}

} // verus!
