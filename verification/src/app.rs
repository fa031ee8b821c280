//! The state of the viewer: the list of files to choose from, and the window
//! over the merged lines of the files that were chosen.

use crate::listing::{entries, FileEntry};
use crate::mergeline::{
    lemma_merged_comes_from_inputs, lemma_merged_is_sorted, lemma_merged_len, merge, merged,
    sorted_by_timestamp, Line,
};
use crate::model::{
    distinct, entry_names, filler, lemma_window_shows_the_lines, lemma_without_none,
    lemma_without_the_only, padded, window, without, Loaded, Screen, State, Window,
};
use crate::text::{annotated, is_record_of, lemma_annotated_records, FileWithLines};
use crate::timestamp::{ErrorKind, LineError};
use std::collections::VecDeque;
use vstd::prelude::*;
use vstd::string::*;

verus! {

/// The texts of a sequence of strings.
pub open spec fn texts(strings: Seq<String>) -> Seq<Seq<char>> {
    strings.map_values(|string: String| string@)
}

/// The texts of a sequence of strings are as many as the strings, and each
/// is the text of the string in its place.
pub proof fn lemma_texts(strings: Seq<String>)
    ensures
        texts(strings).len() == strings.len(),
        forall|i: int| 0 <= i < strings.len() ==> #[trigger] texts(strings)[i] == strings[i]@,
{
}

/// The record points at a line of one of `files`.
pub open spec fn points_into(record: Line, files: Seq<FileWithLines>) -> bool {
    &&& record.source_file < files.len()
    &&& record.index < files[record.source_file as int].lines().len()
}

/// The records of the first `count` of `files`, merged file by file in the
/// order of the files: the records of each file are merged into what the
/// files before it gave. Where a file has a line without an instant, the
/// reason of the first such file takes the place of the records.
pub open spec fn merged_records(files: Seq<FileWithLines>, count: int) -> Result<
    Seq<Line>,
    ErrorKind,
>
    decreases count,
{
    if count <= 0 {
        Ok(Seq::empty())
    } else {
        match merged_records(files, count - 1) {
            Err(kind) => Err(kind),
            Ok(earlier) => match annotated(files[count - 1].lines(), (count - 1) as usize) {
                Err(kind) => Err(kind),
                Ok(records) => Ok(merged(earlier, records)),
            },
        }
    }
}

/// The records of the file with the number `file`, or none where it has a
/// line without an instant.
pub open spec fn records_of(files: Seq<FileWithLines>, file: int) -> Seq<Line> {
    match annotated(files[file].lines(), file as usize) {
        Ok(records) => records,
        Err(_) => Seq::empty(),
    }
}

/// The number of lines of the first `count` files together.
pub open spec fn lines_in(files: Seq<FileWithLines>, count: int) -> int
    decreases count,
{
    if count <= 0 {
        0
    } else {
        lines_in(files, count - 1) + files[count - 1].lines().len()
    }
}

/// The merged records are as many as the files have lines.
pub proof fn lemma_merged_records_len(files: Seq<FileWithLines>, count: int)
    requires
        0 <= count <= files.len(),
        merged_records(files, count) is Ok,
        forall|file: int|
            0 <= file < count ==> (#[trigger] files[file]).lines().len() <= usize::MAX,
    ensures
        merged_records(files, count)->Ok_0.len() == lines_in(files, count),
    decreases count,
{
    if count > 0 {
        let lines = files[count - 1].lines();
        lemma_merged_records_len(files, count - 1);
        lemma_annotated_records(lines, (count - 1) as usize, lines.len() as int);
        lemma_merged_len(
            merged_records(files, count - 1)->Ok_0,
            annotated(lines, (count - 1) as usize)->Ok_0,
        );
    }
}

/// Where the lines of every file are in order of time, the merged records of
/// the files are in order of time.
pub proof fn lemma_merged_records_are_sorted(files: Seq<FileWithLines>, count: int)
    requires
        0 <= count <= files.len(),
        merged_records(files, count) is Ok,
        forall|file: int|
            0 <= file < count ==> sorted_by_timestamp(
                #[trigger] records_of(files, file),
            ),
    ensures
        sorted_by_timestamp(merged_records(files, count)->Ok_0),
    decreases count,
{
    if count > 0 {
        lemma_merged_records_are_sorted(files, count - 1);
        assert(sorted_by_timestamp(records_of(files, count - 1)));
        lemma_merged_is_sorted(
            merged_records(files, count - 1)->Ok_0,
            records_of(files, count - 1),
        );
    }
}

/// Once the merge of the first files has failed, the merge of more files fails
/// for the same reason.
proof fn lemma_merged_records_fail(files: Seq<FileWithLines>, failed: int, count: int)
    requires
        failed <= count,
        merged_records(files, failed) is Err,
    ensures
        merged_records(files, count) == merged_records(files, failed),
    decreases count - failed,
{
    if failed < count {
        lemma_merged_records_fail(files, failed, count - 1);
    }
}

/// The files that were chosen for loading, in the order in which they were
/// chosen. No file is held twice.
pub struct FileListMenu {
    loaded_items: Vec<String>,
}

impl View for FileListMenu {
    type V = Seq<Seq<char>>;

    /// The names of the chosen files, in the order in which they were chosen.
    closed spec fn view(&self) -> Seq<Seq<char>> {
        texts(self.loaded_items@)
    }
}

impl FileListMenu {
    #[verifier::type_invariant]
    spec fn distinct(&self) -> bool {
        texts(self.loaded_items@).no_duplicates()
    }

    /// No file is chosen.
    pub fn new() -> (menu: FileListMenu)
        ensures
            menu@ == Seq::<Seq<char>>::empty(),
    {
        let menu = FileListMenu { loaded_items: Vec::new() };
        assert(menu@ =~= Seq::empty());
        menu
    }

    /// Where `path` stands among the chosen files.
    fn position(&self, path: &String) -> (found: Option<usize>)
        ensures
            match found {
                Some(i) => i < self@.len() && self@[i as int] == path@,
                None => !self@.contains(path@),
            },
    {
        let mut i: usize = 0;
        while i < self.loaded_items.len()
            invariant
                i <= self.loaded_items@.len(),
                forall|k: int| 0 <= k < i ==> self@[k] != path@,
            decreases self.loaded_items@.len() - i,
        {
            if self.loaded_items[i] == *path {
                return Some(i);
            }
            i += 1;
        }
        None
    }

    /// Whether the file is chosen.
    pub fn contains(&self, path: &String) -> (found: bool)
        ensures
            found == self@.contains(path@),
    {
        self.position(path).is_some()
    }

    /// The number of chosen files.
    pub fn len(&self) -> (count: usize)
        ensures
            count == self@.len(),
    {
        self.loaded_items.len()
    }

    /// Chooses the file, unless it is chosen already.
    pub fn insert(&mut self, path: String)
        ensures
            final(self)@ == if old(self)@.contains(path@) {
                old(self)@
            } else {
                old(self)@.push(path@)
            },
    {
        proof {
            use_type_invariant(&*self);
        }
        if self.position(&path).is_none() {
            proof {
                assert(texts(self.loaded_items@.push(path)) =~= texts(self.loaded_items@).push(
                    path@,
                ));
            }
            let mut items: Vec<String> = Vec::new();
            core::mem::swap(&mut self.loaded_items, &mut items);
            items.push(path);
            self.loaded_items = items;
        }
    }

    /// Drops the file from the chosen ones, if it is among them.
    pub fn remove(&mut self, path: &String)
        ensures
            final(self)@ == without(old(self)@, path@),
    {
        proof {
            use_type_invariant(&*self);
        }
        match self.position(path) {
            Some(i) => {
                proof {
                    lemma_without_the_only(self@, i as int);
                    assert(texts(self.loaded_items@.remove(i as int)) =~= texts(
                        self.loaded_items@,
                    ).remove(i as int));
                    assert(self@.remove(i as int).no_duplicates()) by {
                        let shorter = self@.remove(i as int);
                        assert forall|a: int, b: int|
                            0 <= a < shorter.len() && 0 <= b < shorter.len() && a
                                != b implies shorter[a] != shorter[b] by {
                            let before_a = if a < i {
                                a
                            } else {
                                a + 1
                            };
                            let before_b = if b < i {
                                b
                            } else {
                                b + 1
                            };
                            assert(shorter[a] == self@[before_a]);
                            assert(shorter[b] == self@[before_b]);
                        }
                    }
                }
                let mut items: Vec<String> = Vec::new();
                core::mem::swap(&mut self.loaded_items, &mut items);
                items.remove(i);
                self.loaded_items = items;
            },
            None => {
                proof {
                    lemma_without_none(self@, path@);
                }
            },
        }
    }

    /// The names of the chosen files, in the order in which they were chosen.
    pub fn paths(&self) -> (paths: Vec<String>)
        ensures
            texts(paths@) == self@,
            texts(paths@).no_duplicates(),
    {
        proof {
            use_type_invariant(self);
        }
        let mut paths: Vec<String> = Vec::new();
        let mut i: usize = 0;
        while i < self.loaded_items.len()
            invariant
                i <= self.loaded_items@.len(),
                texts(paths@) == self@.subrange(0, i as int),
            decreases self.loaded_items@.len() - i,
        {
            proof {
                assert(texts(paths@.push(self.loaded_items@[i as int])) =~= texts(paths@).push(
                    self.loaded_items@[i as int]@,
                ));
                assert(self@.subrange(0, i as int).push(self@[i as int]) =~= self@.subrange(
                    0,
                    i + 1,
                ));
            }
            paths.push(self.loaded_items[i].clone());
            i += 1;
        }
        proof {
            assert(self@.subrange(0, i as int) =~= self@);
        }
        paths
    }
}

/// The merged lines of the files that were loaded, and the files themselves.
pub struct ViewMenu {
    files: Vec<FileWithLines>,
    all_lines: Vec<Line>,
    details_dialog: Option<String>,
}

impl ViewMenu {
    #[verifier::type_invariant]
    spec fn records_point_into_files(&self) -> bool {
        forall|position: int|
            0 <= position < self.all_lines@.len() ==> points_into(
                #[trigger] self.all_lines@[position],
                self.files@,
            )
    }

    /// The files that were loaded, in the order of loading.
    pub closed spec fn files(&self) -> Seq<FileWithLines> {
        self.files@
    }

    /// The records of all lines of the files, merged.
    pub closed spec fn records(&self) -> Seq<Line> {
        self.all_lines@
    }

    /// The text that is shown in the dialog, where one is open.
    pub closed spec fn dialog(&self) -> Option<Seq<char>> {
        match self.details_dialog {
            Some(text) => Some(text@),
            None => None,
        }
    }

    /// The text of the line that the record at `position` stands for.
    pub open spec fn row(&self, position: int) -> Seq<char> {
        let record = self.records()[position];
        self.files()[record.source_file as int].lines()[record.index as int]
    }

    /// The texts of all lines of the files, in the order of the merged
    /// records.
    pub open spec fn rows(&self) -> Seq<Seq<char>> {
        Seq::new(self.records().len(), |position: int| self.row(position))
    }

    /// The names of the files, in the order of loading.
    pub open spec fn names(&self) -> Seq<Seq<char>> {
        self.files().map_values(|file: FileWithLines| file.name())
    }

    /// Merges the lines of the files by their instants. A line without an
    /// instant in any file fails the whole with the error of that line.
    pub fn new(files: Vec<FileWithLines>) -> (result: Result<ViewMenu, LineError>)
        ensures
            match (result, merged_records(files@, files@.len() as int)) {
                (Ok(view), Ok(records)) => {
                    &&& view.files() == files@
                    &&& view.records() == records
                    &&& view.dialog() is None
                    &&& forall|position: int|
                        0 <= position < records.len() ==> points_into(
                            #[trigger] records[position],
                            files@,
                        )
                },
                (Err(error), Err(kind)) => error.is_kind(kind),
                _ => false,
            },
    {
        let mut all_lines: Vec<Line> = Vec::new();
        let mut i: usize = 0;
        while i < files.len()
            invariant
                i <= files@.len(),
                merged_records(files@, i as int) == Ok::<Seq<Line>, ErrorKind>(all_lines@),
                forall|position: int|
                    0 <= position < all_lines@.len() ==> points_into(
                        #[trigger] all_lines@[position],
                        files@,
                    ),
            decreases files@.len() - i,
        {
            let file_lines = match files[i].get_annotated_lines(i) {
                Ok(records) => records,
                Err(error) => {
                    proof {
                        lemma_merged_records_fail(files@, i + 1, files@.len() as int);
                    }
                    return Err(error);
                },
            };
            let merged_lines = merge(&all_lines, &file_lines);
            proof {
                lemma_merged_comes_from_inputs(all_lines@, file_lines@);
                assert forall|position: int|
                    0 <= position < merged_lines@.len() implies points_into(
                    #[trigger] merged_lines@[position],
                    files@,
                ) by {
                    let record = merged_lines@[position];
                    if all_lines@.contains(record) {
                    } else {
                        let j = choose|j: int|
                            0 <= j < file_lines@.len() && file_lines@[j] == record;
                        assert(is_record_of(file_lines@[j], files@[i as int].lines()[j], i, j));
                    }
                }
            }
            all_lines = merged_lines;
            i += 1;
        }
        Ok(ViewMenu { files, all_lines, details_dialog: None })
    }

    /// The number of lines of all files together.
    pub fn len(&self) -> (count: usize)
        ensures
            count == self.rows().len(),
    {
        self.all_lines.len()
    }

    /// The texts of the lines at the positions from `from` up to `to` of the
    /// merged records. Positions behind the last record are left out, so the
    /// result may be shorter than asked for, or empty.
    pub fn get_lines(&self, from: usize, to: usize) -> (result: Vec<String>)
        ensures
            texts(result@) == window(self.rows(), from as int, to as int),
    {
        let mut result: Vec<String> = Vec::new();
        let total = self.all_lines.len();
        let from = if from < total {
            from
        } else {
            total
        };
        let to = if to < total {
            to
        } else {
            total
        };
        if to <= from {
            assert(texts(result@) =~= Seq::empty());
            return result;
        }
        let mut i = from;
        while i < to
            invariant
                from <= i <= to <= total == self.all_lines@.len(),
                texts(result@) == self.rows().subrange(from as int, i as int),
            decreases to - i,
        {
            proof {
                use_type_invariant(self);
            }
            let line = &self.all_lines[i];
            assert(points_into(*line, self.files@));
            let text = self.files[line.source_file].get_ith_line(line.index).unwrap();
            let row = text.to_owned();
            proof {
                assert(row@ == self.row(i as int));
                assert(texts(result@.push(row)) =~= texts(result@).push(row@));
                assert(self.rows().subrange(from as int, i as int).push(self.rows()[i as int])
                    =~= self.rows().subrange(from as int, i + 1));
            }
            result.push(row);
            i += 1;
        }
        result
    }

    /// Opens the dialog with `text`, or closes it where it is open.
    pub fn toggle_dialog(&mut self, text: String)
        ensures
            final(self).files() == old(self).files(),
            final(self).records() == old(self).records(),
            final(self).rows() == old(self).rows(),
            final(self).dialog() == match old(self).dialog() {
                Some(_) => None,
                None => Some(text@),
            },
    {
        proof {
            use_type_invariant(&*self);
        }
        match self.details_dialog {
            Some(_) => self.details_dialog = None,
            None => self.details_dialog = Some(text),
        }
        proof {
            assert(self.rows() =~= old(self).rows());
        }
    }

    /// The text that is shown in the dialog, where one is open.
    pub fn details_dialog(&self) -> (text: Option<String>)
        ensures
            match text {
                Some(text) => self.dialog() == Some(text@),
                None => self.dialog() is None,
            },
    {
        match &self.details_dialog {
            Some(text) => Some(text.clone()),
            None => None,
        }
    }
}

/// The lines of the files can be counted by the machine.
proof fn lemma_rows_fit(view: &ViewMenu)
    ensures
        view.rows().len() <= usize::MAX,
{
    assert(view.all_lines.len() == view.all_lines@.len());
}

/// Why the files that were chosen could not be shown.
#[derive(Debug)]
pub struct AppError {
    pub error_message: String,
}

/// What the message of a failed load starts with.
pub open spec fn load_failure_prefix() -> Seq<char> {
    "App::load_files - cannot load files, error="@
}

/// The strings of `rows` in a queue that can grow and shrink at both ends.
fn into_deque(rows: Vec<String>) -> (queue: VecDeque<String>)
    ensures
        queue@ == rows@,
{
    let mut rows = rows;
    let ghost all = rows@;
    let mut queue: VecDeque<String> = VecDeque::new();
    while rows.len() > 0
        invariant
            rows@ + queue@ == all,
        decreases rows@.len(),
    {
        let ghost before = rows@;
        let row = rows.pop().unwrap();
        proof {
            assert(rows@ + (seq![row] + queue@) =~= before + queue@);
        }
        queue.push_front(row);
    }
    proof {
        assert(rows@ + queue@ =~= queue@);
    }
    queue
}

/// `rows`, followed by as many fillers as it takes to make `height` rows.
fn pad(rows: Vec<String>, height: u16) -> (result: Vec<String>)
    ensures
        texts(result@) == padded(texts(rows@), height as int),
{
    let mut result = rows;
    let ghost given = texts(result@);
    while result.len() < height as usize
        invariant
            given.len() <= result@.len(),
            result@.len() <= height || result@.len() == given.len(),
            texts(result@) == given + Seq::new(
                (result@.len() - given.len()) as nat,
                |i: int| filler(),
            ),
        decreases height - result@.len(),
    {
        let row = "~".to_owned();
        proof {
            assert(texts(result@.push(row)) =~= texts(result@).push(filler()));
            assert(texts(result@).push(filler()) =~= given + Seq::new(
                (result@.len() + 1 - given.len()) as nat,
                |i: int| filler(),
            ));
        }
        result.push(row);
    }
    proof {
        if given.len() >= height {
            assert(texts(result@) =~= given);
        }
    }
    result
}

/// What the list on the screen shows: its rows, the highlighted one among
/// them, and the position in the merged lines that the window is anchored
/// at.
#[derive(Debug)]
pub struct Common {
    pub items: VecDeque<String>,
    pub selected: Option<usize>,
    pub absolute_index: usize,
}

impl Common {
    /// The rows, the highlight and the position as plain values.
    pub open spec fn window(&self) -> Window {
        Window {
            items: texts(self.items@),
            selected: self.selected,
            absolute_index: self.absolute_index,
        }
    }

    /// A list of the given rows, none of them highlighted.
    pub fn new(it: Vec<String>) -> (common: Common)
        ensures
            common.window() == Window::over(texts(it@)),
    {
        Common { items: into_deque(it), selected: None, absolute_index: 0 }
    }

    /// The highlight moves down one file and from the last file to the first.
    pub fn next_file(&mut self)
        requires
            old(self).window().well_formed(),
        ensures
            final(self).window() == old(self).window().next_file(),
            final(self).window().well_formed(),
    {
        match self.selected {
            Some(row) => {
                if row >= self.items.len() - 1 {
                    self.selected = Some(0);
                } else {
                    self.selected = Some(row + 1);
                }
            },
            None => {},
        }
    }

    /// The highlight moves up one file and from the first file to the last.
    pub fn previous_file(&mut self)
        requires
            old(self).window().well_formed(),
        ensures
            final(self).window() == old(self).window().previous_file(),
            final(self).window().well_formed(),
    {
        match self.selected {
            Some(row) => {
                if row == 0 {
                    self.selected = Some(self.items.len() - 1);
                } else {
                    self.selected = Some(row - 1);
                }
            },
            None => {},
        }
    }

    /// One line forward in the lines of `view`.
    pub fn scroll_forward(&mut self, view: &ViewMenu)
        requires
            old(self).window().well_formed(),
        ensures
            final(self).window() == old(self).window().scroll_forward(view.rows()),
            final(self).window().well_formed(),
    {
        let row = match self.selected {
            Some(row) => row,
            None => {
                return ;
            },
        };
        let count = self.items.len();
        proof {
            lemma_texts(self.items@);
            lemma_rows_fit(view);
        }
        if row < count - 1 {
            self.selected = Some(row + 1);
            return ;
        }
        let first_not_loaded = match self.absolute_index.checked_add(count) {
            Some(position) => position,
            None => {
                return ;
            },
        };
        let mut new_lines = view.get_lines(first_not_loaded, first_not_loaded.saturating_add(1));
        proof {
            lemma_texts(new_lines@);
        }
        if new_lines.is_empty() {
            return ;
        }
        let ghost before = self.items@;
        let ghost fetched = new_lines@;
        let line = new_lines.remove(0);
        proof {
            assert(texts(fetched)[0] == fetched[0]@);
        }
        self.items.push_back(line);
        self.items.pop_front();
        self.absolute_index += 1;
        proof {
            assert(line@ == view.rows()[first_not_loaded as int]);
            assert(self.items@ =~= before.drop_first().push(line));
            assert(texts(self.items@) =~= texts(before).drop_first().push(line@));
        }
    }

    /// One line backward in the lines of `view`.
    pub fn scroll_backward(&mut self, view: &ViewMenu)
        requires
            old(self).window().well_formed(),
        ensures
            final(self).window() == old(self).window().scroll_backward(view.rows()),
            final(self).window().well_formed(),
    {
        let row = match self.selected {
            Some(row) => row,
            None => {
                return ;
            },
        };
        proof {
            lemma_texts(self.items@);
            lemma_rows_fit(view);
        }
        if row > 0 {
            self.selected = Some(row - 1);
            return ;
        }
        if self.absolute_index == 0 {
            return ;
        }
        let mut new_lines = view.get_lines(self.absolute_index - 1, self.absolute_index);
        proof {
            lemma_texts(new_lines@);
        }
        if new_lines.is_empty() {
            return ;
        }
        let ghost before = self.items@;
        let ghost fetched = new_lines@;
        let line = new_lines.remove(0);
        proof {
            assert(texts(fetched)[0] == fetched[0]@);
        }
        self.items.pop_back();
        self.items.push_front(line);
        self.absolute_index -= 1;
        proof {
            assert(line@ == view.rows()[self.absolute_index as int]);
            assert(self.items@ =~= seq![line] + before.drop_last());
            assert(texts(self.items@) =~= seq![line@] + texts(before).drop_last());
        }
    }

    /// Anchors the window anew at `anchor`, a position in the lines of `view`.
    pub fn page(&mut self, view: &ViewMenu, height: u16, anchor: usize)
        requires
            old(self).window().well_formed(),
        ensures
            final(self).window() == old(self).window().page(view.rows(), height, anchor as int),
            final(self).window().well_formed(),
    {
        let new_items = view.get_lines(anchor, anchor.saturating_add(height as usize));
        proof {
            lemma_texts(new_items@);
            lemma_rows_fit(view);
            assert(window(view.rows(), anchor as int, anchor + height) == texts(new_items@));
        }
        if new_items.is_empty() {
            return ;
        }
        let new_items = pad(new_items, height);
        let count = new_items.len();
        proof {
            lemma_texts(new_items@);
        }
        self.items = into_deque(new_items);
        self.absolute_index = anchor;
        self.selected = Some(
            match self.selected {
                Some(row) => if row < count {
                    row
                } else {
                    count - 1
                },
                None => 0,
            },
        );
    }

    /// Half a window forward in the lines of `view`.
    pub fn page_down(&mut self, view: &ViewMenu, height: u16)
        requires
            old(self).window().well_formed(),
        ensures
            final(self).window() == old(self).window().page_down(view.rows(), height),
            final(self).window().well_formed(),
    {
        let total = view.len();
        let new_from = match self.absolute_index.checked_add((height / 2) as usize) {
            Some(position) => if position < total {
                position
            } else {
                total
            },
            None => total,
        };
        self.page(view, height, new_from);
    }

    /// Half a window backward in the lines of `view`.
    pub fn page_up(&mut self, view: &ViewMenu, height: u16)
        requires
            old(self).window().well_formed(),
        ensures
            final(self).window() == old(self).window().page_up(view.rows(), height),
            final(self).window().well_formed(),
    {
        let new_from = self.absolute_index.saturating_sub((height / 2) as usize);
        self.page(view, height, new_from);
    }

    /// The window at the start of the lines of `view`.
    pub fn home(&mut self, view: &ViewMenu, height: u16)
        ensures
            final(self).window() == Window::home(view.rows(), height),
            final(self).window().well_formed(),
    {
        let new_items = pad(view.get_lines(0, height as usize), height);
        let count = new_items.len();
        proof {
            lemma_texts(new_items@);
        }
        self.items = into_deque(new_items);
        self.absolute_index = 0;
        self.selected = if count > 0 {
            Some(0)
        } else {
            None
        };
    }

    /// The window at the end of the lines of `view`.
    pub fn end(&mut self, view: &ViewMenu, height: u16)
        ensures
            final(self).window() == Window::end(view.rows(), height),
            final(self).window().well_formed(),
    {
        let new_to = view.len();
        let new_from = new_to.saturating_sub(height as usize);
        let new_items = pad(view.get_lines(new_from, new_to), height);
        let count = new_items.len();
        proof {
            lemma_texts(new_items@);
        }
        self.items = into_deque(new_items);
        self.absolute_index = new_from;
        self.selected = if count > 0 {
            Some(count - 1)
        } else {
            None
        };
    }

    /// The window right after the files of `view` were loaded.
    pub fn open(&mut self, view: &ViewMenu, height: u16)
        ensures
            final(self).window() == Window::opened(view.rows(), height),
            final(self).window().well_formed(),
    {
        let new_items = view.get_lines(0, height as usize);
        let count = new_items.len();
        proof {
            lemma_texts(new_items@);
        }
        self.items = into_deque(new_items);
        self.absolute_index = 0;
        self.selected = if count > 0 {
            Some(0)
        } else {
            None
        };
    }
}

/// The two screens of the viewer, each with what it holds.
pub enum AppState {
    /// The list of the files to choose from.
    FileList(FileListMenu),
    /// The merged lines of the files that were loaded.
    TextView(ViewMenu),
}

impl AppState {
    /// The screen as plain values.
    pub open spec fn screen(&self) -> Screen {
        match self {
            AppState::FileList(menu) => Screen::FileList { loaded: menu@ },
            AppState::TextView(view) => Screen::TextView {
                names: view.names(),
                rows: view.rows(),
                dialog: view.dialog(),
            },
        }
    }
}

/// What a load of files came to, as plain values.
pub open spec fn loaded_of(result: Result<Option<AppState>, AppError>) -> Loaded {
    match result {
        Err(error) => Loaded::Failed(error.error_message@),
        Ok(None) => Loaded::Nothing,
        Ok(Some(state)) => Loaded::Screen(state.screen()),
    }
}

/// The text of an optional string.
pub open spec fn text_of(string: Option<String>) -> Option<Seq<char>> {
    match string {
        Some(string) => Some(string@),
        None => None,
    }
}

/// The viewer: a list on the screen, which shows the files to choose from or
/// the merged lines of the chosen files, and what belongs to it.
pub struct App {
    common: Common,
    app_state: AppState,
    file_list: Vec<FileEntry>,
    terminal_height: u16,
    error: Option<String>,
}

impl View for App {
    type V = State;

    closed spec fn view(&self) -> State {
        State {
            window: self.common.window(),
            screen: self.app_state.screen(),
            files: entries(self.file_list@),
            height: self.terminal_height,
            error: text_of(self.error),
        }
    }
}

/// The names of the files, as rows for the list.
fn names_of(file_list: &Vec<FileEntry>) -> (names: Vec<String>)
    ensures
        texts(names@) == entry_names(entries(file_list@)),
{
    let mut names: Vec<String> = Vec::new();
    let mut i: usize = 0;
    while i < file_list.len()
        invariant
            i <= file_list@.len(),
            texts(names@) == entry_names(entries(file_list@)).subrange(0, i as int),
        decreases file_list@.len() - i,
    {
        let name = file_list[i].filename.clone();
        proof {
            let all = entry_names(entries(file_list@));
            assert(texts(names@.push(name)) =~= texts(names@).push(name@));
            assert(all.subrange(0, i as int).push(all[i as int]) =~= all.subrange(0, i + 1));
        }
        names.push(name);
        i += 1;
    }
    proof {
        let all = entry_names(entries(file_list@));
        assert(all.subrange(0, i as int) =~= all);
    }
    names
}

/// A list without rows, to stand in for the real one while that is changed.
fn no_rows() -> (common: Common)
    ensures
        common.window() == Window::over(Seq::empty()),
{
    let common = Common { items: VecDeque::new(), selected: None, absolute_index: 0 };
    proof {
        assert(texts(common.items@) =~= Seq::empty());
    }
    common
}

/// The lines on the screen can be counted by the machine.
proof fn lemma_screen_fits(state: &AppState)
    ensures
        state.screen().fits(),
{
    match state {
        AppState::FileList(_) => {},
        AppState::TextView(view) => {
            lemma_rows_fit(view);
        },
    }
}

/// The commands that move through the lines of `view` keep the window on these
/// lines.
proof fn lemma_window_stays_on(window: Window, view: &ViewMenu, height: u16)
    requires
        window.well_formed(),
        view.names().len() > 0 ==> window.shows(view.rows()),
    ensures
        view.names().len() > 0 ==> {
            &&& window.scroll_forward(view.rows()).shows(view.rows())
            &&& window.scroll_backward(view.rows()).shows(view.rows())
            &&& window.page_down(view.rows(), height).shows(view.rows())
            &&& window.page_up(view.rows(), height).shows(view.rows())
        },
        Window::home(view.rows(), height).shows(view.rows()),
        Window::end(view.rows(), height).shows(view.rows()),
        Window::opened(view.rows(), height).shows(view.rows()),
{
    lemma_rows_fit(view);
    if view.names().len() > 0 {
        lemma_window_shows_the_lines(window, view.rows(), height);
    } else {
        lemma_window_shows_the_lines(Window::over(Seq::empty()), view.rows(), height);
    }
}

impl App {
    #[verifier::type_invariant]
    spec fn window_is_on_the_screen(&self) -> bool {
        &&& self.common.window().well_formed()
        &&& match self.app_state {
            AppState::FileList(_) => true,
            AppState::TextView(view) => view.names().len() > 0 ==> self.common.window().shows(
                view.rows(),
            ),
        }
    }

    /// The viewer at its start: the files to choose from, none of them
    /// chosen, and the highlight on the first.
    pub fn new(file_list: Vec<FileEntry>, terminal_height: u16) -> (app: App)
        ensures
            app@ == State::initial(entries(file_list@), terminal_height),
            app@.well_formed(),
    {
        let names = names_of(&file_list);
        proof {
            lemma_texts(names@);
        }
        let mut common = Common::new(names);
        if common.items.len() > 0 {
            common.selected = Some(0);
        }
        App {
            common,
            app_state: AppState::FileList(FileListMenu::new()),
            file_list,
            terminal_height,
            error: None,
        }
    }

    /// The command "down": to the next file, or one line forward.
    pub fn select_next(&mut self)
        ensures
            final(self)@ == old(self)@.select_next(),
            final(self)@.well_formed(),
    {
        proof {
            use_type_invariant(&*self);
            lemma_screen_fits(&self.app_state);
        }
        let mut common = no_rows();
        core::mem::swap(&mut self.common, &mut common);
        match &self.app_state {
            AppState::FileList(_) => common.next_file(),
            AppState::TextView(view) => {
                proof {
                    lemma_window_stays_on(common.window(), view, self.terminal_height);
                }
                common.scroll_forward(view);
            },
        }
        self.common = common;
    }

    /// The command "up": to the file before, or one line backward.
    pub fn select_previous(&mut self)
        ensures
            final(self)@ == old(self)@.select_previous(),
            final(self)@.well_formed(),
    {
        proof {
            use_type_invariant(&*self);
            lemma_screen_fits(&self.app_state);
        }
        let mut common = no_rows();
        core::mem::swap(&mut self.common, &mut common);
        match &self.app_state {
            AppState::FileList(_) => common.previous_file(),
            AppState::TextView(view) => {
                proof {
                    lemma_window_stays_on(common.window(), view, self.terminal_height);
                }
                common.scroll_backward(view);
            },
        }
        self.common = common;
    }

    /// The command "page down": half a window forward in the lines.
    pub fn page_down(&mut self)
        ensures
            final(self)@ == old(self)@.page_down(),
            final(self)@.well_formed(),
    {
        proof {
            use_type_invariant(&*self);
            lemma_screen_fits(&self.app_state);
        }
        let mut common = no_rows();
        core::mem::swap(&mut self.common, &mut common);
        match &self.app_state {
            AppState::FileList(_) => {},
            AppState::TextView(view) => {
                proof {
                    lemma_window_stays_on(common.window(), view, self.terminal_height);
                }
                common.page_down(view, self.terminal_height);
            },
        }
        self.common = common;
    }

    /// The command "page up": half a window backward in the lines.
    pub fn page_up(&mut self)
        ensures
            final(self)@ == old(self)@.page_up(),
            final(self)@.well_formed(),
    {
        proof {
            use_type_invariant(&*self);
            lemma_screen_fits(&self.app_state);
        }
        let mut common = no_rows();
        core::mem::swap(&mut self.common, &mut common);
        match &self.app_state {
            AppState::FileList(_) => {},
            AppState::TextView(view) => {
                proof {
                    lemma_window_stays_on(common.window(), view, self.terminal_height);
                }
                common.page_up(view, self.terminal_height);
            },
        }
        self.common = common;
    }

    /// The command "home": to the first of the lines.
    pub fn home(&mut self)
        ensures
            final(self)@ == old(self)@.home(),
            final(self)@.well_formed(),
    {
        proof {
            use_type_invariant(&*self);
            lemma_screen_fits(&self.app_state);
        }
        let mut common = no_rows();
        core::mem::swap(&mut self.common, &mut common);
        match &self.app_state {
            AppState::FileList(_) => {},
            AppState::TextView(view) => {
                proof {
                    lemma_window_stays_on(common.window(), view, self.terminal_height);
                }
                common.home(view, self.terminal_height);
            },
        }
        self.common = common;
    }

    /// The command "end": to the last of the lines.
    pub fn end(&mut self)
        ensures
            final(self)@ == old(self)@.end(),
            final(self)@.well_formed(),
    {
        proof {
            use_type_invariant(&*self);
            lemma_screen_fits(&self.app_state);
        }
        let mut common = no_rows();
        core::mem::swap(&mut self.common, &mut common);
        match &self.app_state {
            AppState::FileList(_) => {},
            AppState::TextView(view) => {
                proof {
                    lemma_window_stays_on(common.window(), view, self.terminal_height);
                }
                common.end(view, self.terminal_height);
            },
        }
        self.common = common;
    }

    /// The command "choose", in the list of files: the highlighted file, whose
    /// full path is `path`, becomes chosen, or no longer chosen where it was.
    pub fn flip_current(&mut self, path: String)
        ensures
            final(self)@ == old(self)@.flip_current(path@),
            final(self)@.well_formed(),
    {
        proof {
            use_type_invariant(&*self);
            lemma_screen_fits(&self.app_state);
        }
        if self.common.selected.is_none() {
            return ;
        }
        let mut state = AppState::FileList(FileListMenu::new());
        core::mem::swap(&mut self.app_state, &mut state);
        match &mut state {
            AppState::FileList(menu) => {
                if menu.contains(&path) {
                    menu.remove(&path);
                } else {
                    menu.insert(path);
                }
            },
            AppState::TextView(_) => {},
        }
        self.app_state = state;
    }

    /// The command "enter". In the lines it opens the dialog with the
    /// highlighted row, or closes it. In the list of files it changes nothing
    /// and returns the chosen files, which are to be read and handed to
    /// `load_files` and `finish_enter`.
    pub fn enter(&mut self) -> (to_load: Vec<String>)
        ensures
            final(self)@ == old(self)@.enter(),
            final(self)@.well_formed(),
            texts(to_load@) == old(self)@.to_load(),
    {
        proof {
            use_type_invariant(&*self);
            lemma_screen_fits(&self.app_state);
            lemma_texts(self.common.items@);
        }
        let mut state = AppState::FileList(FileListMenu::new());
        core::mem::swap(&mut self.app_state, &mut state);
        let to_load = match &mut state {
            AppState::FileList(menu) => menu.paths(),
            AppState::TextView(view) => {
                match self.common.selected {
                    Some(row) => {
                        let text = self.common.items[row].clone();
                        App::show_details_dialog(view, text);
                    },
                    None => {},
                }
                let none: Vec<String> = Vec::new();
                proof {
                    assert(texts(none@) =~= Seq::empty());
                }
                none
            },
        };
        self.app_state = state;
        to_load
    }

    /// Merges the lines of the files that were read into a new screen, or
    /// reports the line that has no instant.
    pub fn load_files(files: Vec<FileWithLines>) -> (result: Result<Option<AppState>, AppError>)
        ensures
            match (result, merged_records(files@, files@.len() as int)) {
                (Ok(Some(AppState::TextView(view))), Ok(records)) => {
                    &&& view.files() == files@
                    &&& view.records() == records
                    &&& view.dialog() is None
                },
                (Err(error), Err(kind)) => error.error_message@ == load_failure_prefix()
                    + kind.message(),
                _ => false,
            },
    {
        match ViewMenu::new(files) {
            Ok(new_state) => Ok(Some(AppState::TextView(new_state))),
            Err(error) => {
                let mut error_message = "App::load_files - cannot load files, error=".to_owned();
                error_message.append(error.to_string().as_str());
                Err(AppError { error_message })
            },
        }
    }

    /// Takes in what a load of files came to: the new screen with the window
    /// on its first lines, or the message of the failure.
    pub fn finish_enter(&mut self, result: Result<Option<AppState>, AppError>)
        ensures
            final(self)@ == old(self)@.finish_enter(loaded_of(result)),
            final(self)@.well_formed(),
    {
        proof {
            use_type_invariant(&*self);
            lemma_screen_fits(&self.app_state);
        }
        match result {
            Ok(new_state_opt) => {
                if let Some(new_state) = new_state_opt {
                    proof {
                        lemma_screen_fits(&new_state);
                    }
                    let mut common = no_rows();
                    core::mem::swap(&mut self.common, &mut common);
                    self.app_state = new_state;
                    match &self.app_state {
                        AppState::FileList(_) => {},
                        AppState::TextView(view) => {
                            if !view.files.is_empty() {
                                proof {
                                    lemma_window_stays_on(
                                        Window::over(Seq::empty()),
                                        view,
                                        self.terminal_height,
                                    );
                                }
                                common.open(view, self.terminal_height);
                            }
                        },
                    }
                    self.common = common;
                }
            },
            Err(error) => {
                self.error = Some(error.error_message);
            },
        }
    }

    /// Opens the dialog of `menu` with `text`, or closes it where it is open.
    pub fn show_details_dialog(menu: &mut ViewMenu, text: String) -> (result: Result<
        Option<AppState>,
        AppError,
    >)
        ensures
            result == Ok::<Option<AppState>, AppError>(None),
            final(menu).files() == old(menu).files(),
            final(menu).records() == old(menu).records(),
            final(menu).rows() == old(menu).rows(),
            final(menu).dialog() == match old(menu).dialog() {
                Some(_) => None,
                None => Some(text@),
            },
    {
        menu.toggle_dialog(text);
        Ok(None)
    }

    /// The command "back": from the lines to the list of files. The files
    /// that were loaded are the chosen ones.
    pub fn go_to_file_list(&mut self)
        ensures
            final(self)@ == old(self)@.go_to_file_list(),
            final(self)@.well_formed(),
    {
        proof {
            use_type_invariant(&*self);
        }
        let new_file_menu = match &self.app_state {
            AppState::FileList(_) => {
                return ;
            },
            AppState::TextView(view_menu) => {
                let mut new_file_menu = FileListMenu::new();
                let mut i: usize = 0;
                while i < view_menu.files.len()
                    invariant
                        i <= view_menu.files@.len(),
                        new_file_menu@ == distinct(view_menu.names(), i as int),
                    decreases view_menu.files@.len() - i,
                {
                    new_file_menu.insert(view_menu.files[i].filename());
                    i += 1;
                }
                new_file_menu
            },
        };
        self.app_state = AppState::FileList(new_file_menu);
        let names = names_of(&self.file_list);
        proof {
            lemma_texts(names@);
        }
        let selected = if names.is_empty() {
            None
        } else {
            Some(0)
        };
        let absolute_index = self.common.absolute_index;
        self.common = Common { items: into_deque(names), selected, absolute_index };
    }

    /// The command that closes the error message.
    pub fn clear_popup(&mut self)
        ensures
            final(self)@ == old(self)@.clear_popup(),
            final(self)@.well_formed(),
    {
        proof {
            use_type_invariant(&*self);
            lemma_screen_fits(&self.app_state);
        }
        self.error = None
    }

    /// Tells the viewer how many rows the terminal has for the list.
    pub fn resize(&mut self, terminal_height: u16)
        ensures
            final(self)@ == old(self)@.resize(terminal_height),
            final(self)@.well_formed(),
    {
        proof {
            use_type_invariant(&*self);
            lemma_screen_fits(&self.app_state);
        }
        self.terminal_height = terminal_height;
    }

    /// The rows of the list.
    pub fn items(&self) -> (items: &VecDeque<String>)
        ensures
            texts(items@) == self@.window.items,
    {
        &self.common.items
    }

    /// The number of the highlighted row.
    pub fn selected(&self) -> (selected: Option<usize>)
        ensures
            selected == self@.window.selected,
            self@.well_formed(),
    {
        proof {
            use_type_invariant(self);
            lemma_screen_fits(&self.app_state);
        }
        self.common.selected
    }

    /// The position in the merged lines that the window is anchored at.
    pub fn absolute_index(&self) -> (position: usize)
        ensures
            position == self@.window.absolute_index,
    {
        self.common.absolute_index
    }

    /// The number of rows that the terminal has for the list.
    pub fn terminal_height(&self) -> (height: u16)
        ensures
            height == self@.height,
    {
        self.terminal_height
    }

    /// The screen that is shown, with what it holds.
    pub fn app_state(&self) -> (state: &AppState)
        ensures
            state.screen() == self@.screen,
    {
        &self.app_state
    }

    /// The files that can be chosen.
    pub fn file_list(&self) -> (files: &Vec<FileEntry>)
        ensures
            entries(files@) == self@.files,
    {
        &self.file_list
    }

    /// The text of the dialog that is to be shown, if any: the line that was
    /// opened with "enter", else the message of the last failure.
    pub fn dialog_text(&self) -> (text: Option<String>)
        ensures
            text_of(text) == self@.dialog_text(),
    {
        let details = match &self.app_state {
            AppState::FileList(_) => None,
            AppState::TextView(view) => view.details_dialog(),
        };
        match details {
            Some(text) => Some(text),
            None => self.error(),
        }
    }

    /// The error message that is to be shown, if any.
    pub fn error(&self) -> (error: Option<String>)
        ensures
            text_of(error) == self@.error,
    {
        match &self.error {
            Some(text) => Some(text.clone()),
            None => None,
        }
    }
}

} // verus!
