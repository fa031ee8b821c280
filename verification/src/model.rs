//! The viewer as mathematics: what is on the screen, and what each command
//! makes of it.

use vstd::prelude::*;

verus! {

/// The rows on the screen, the highlighted one among them, and the position
/// that the window is anchored at: the position, among all lines, of the line
/// in its first row.
pub struct Window {
    pub items: Seq<Seq<char>>,
    pub selected: Option<usize>,
    pub absolute_index: usize,
}

/// What the list on the screen is a list of.
pub enum Screen {
    /// The files to choose from, and the names of those that are chosen, in
    /// the order in which they were chosen.
    FileList { loaded: Seq<Seq<char>> },
    /// The merged lines of the files that were loaded: the names of these
    /// files, the texts of all their lines in merged order, and the text of
    /// the dialog, where one is open.
    TextView { names: Seq<Seq<char>>, rows: Seq<Seq<char>>, dialog: Option<Seq<char>> },
}

/// A file that can be chosen: its name and its size in bytes.
pub struct Entry {
    pub name: Seq<char>,
    pub size: u64,
}

/// The whole state of the viewer.
pub struct State {
    pub window: Window,
    pub screen: Screen,
    pub files: Seq<Entry>,
    pub height: u16,
    pub error: Option<Seq<char>>,
}

/// What a load of files came to: an error message, nothing, or a new screen.
pub enum Loaded {
    Failed(Seq<char>),
    Nothing,
    Screen(Screen),
}

/// The row that fills the window behind the last line.
pub open spec fn filler() -> Seq<char> {
    "~"@
}

/// The part of `rows` from the position `from` up to the position `to`, both
/// first brought down to the number of rows. It is empty where that leaves
/// nothing between them.
pub open spec fn window(rows: Seq<Seq<char>>, from: int, to: int) -> Seq<Seq<char>> {
    let low = if from < rows.len() {
        from
    } else {
        rows.len() as int
    };
    let high = if to < rows.len() {
        to
    } else {
        rows.len() as int
    };
    if high <= low || low < 0 {
        Seq::empty()
    } else {
        rows.subrange(low, high)
    }
}

/// What a window at `position` shows in its row with the number `row`: the
/// line at that many places behind the position, or a filler behind the last
/// line.
pub open spec fn row_at(rows: Seq<Seq<char>>, position: int, row: int) -> Seq<char> {
    if position + row < rows.len() {
        rows[position + row]
    } else {
        filler()
    }
}

/// `rows`, followed by as many fillers as it takes to make `height` rows.
pub open spec fn padded(rows: Seq<Seq<char>>, height: int) -> Seq<Seq<char>> {
    if rows.len() >= height {
        rows
    } else {
        rows + Seq::new((height - rows.len()) as nat, |i: int| filler())
    }
}

/// The names of `names` that differ from `name`, in their order.
pub open spec fn without(names: Seq<Seq<char>>, name: Seq<char>) -> Seq<Seq<char>>
    decreases names.len(),
{
    if names.len() == 0 {
        names
    } else if names.last() == name {
        without(names.drop_last(), name)
    } else {
        without(names.drop_last(), name).push(names.last())
    }
}

/// `loaded` with `name` taken out, where it was among them, and put behind
/// them, where it was not.
pub open spec fn toggled(loaded: Seq<Seq<char>>, name: Seq<char>) -> Seq<Seq<char>> {
    if loaded.contains(name) {
        without(loaded, name)
    } else {
        loaded.push(name)
    }
}

/// The first `count` of `names`, each once, in the order in which they first
/// occur.
pub open spec fn distinct(names: Seq<Seq<char>>, count: int) -> Seq<Seq<char>>
    decreases count,
{
    if count <= 0 {
        Seq::empty()
    } else if distinct(names, count - 1).contains(names[count - 1]) {
        distinct(names, count - 1)
    } else {
        distinct(names, count - 1).push(names[count - 1])
    }
}

/// The names of the files that can be chosen.
pub open spec fn entry_names(files: Seq<Entry>) -> Seq<Seq<char>> {
    files.map_values(|entry: Entry| entry.name)
}

/// The highlight on the first row, where there is a row.
pub open spec fn first_row(items: Seq<Seq<char>>) -> Option<usize> {
    if items.len() > 0 {
        Some(0usize)
    } else {
        None
    }
}

/// The highlight on the last row, where there is a row.
pub open spec fn last_row(items: Seq<Seq<char>>) -> Option<usize> {
    if items.len() > 0 {
        Some((items.len() - 1) as usize)
    } else {
        None
    }
}

impl Window {
    /// The highlight is on one of the rows, if it is anywhere.
    pub open spec fn well_formed(self) -> bool {
        match self.selected {
            Some(row) => row < self.items.len(),
            None => true,
        }
    }

    /// The window shows the lines from its position on, one in each row and in
    /// their order, and fillers behind the last line. So the position plus the
    /// number of rows is at most the number of lines, unless fillers end the
    /// window.
    pub open spec fn shows(self, rows: Seq<Seq<char>>) -> bool {
        forall|row: int|
            0 <= row < self.items.len() ==> #[trigger] self.items[row] == row_at(
                rows,
                self.absolute_index as int,
                row,
            )
    }

    /// The window over a list of items, before any of them is highlighted.
    pub open spec fn over(items: Seq<Seq<char>>) -> Window {
        Window { items, selected: None, absolute_index: 0 }
    }

    /// The highlight moves down one file and from the last file to the first.
    pub open spec fn next_file(self) -> Window {
        match self.selected {
            Some(row) => Window {
                selected: Some(
                    if row + 1 >= self.items.len() {
                        0usize
                    } else {
                        (row + 1) as usize
                    },
                ),
                ..self
            },
            None => self,
        }
    }

    /// The highlight moves up one file and from the first file to the last.
    pub open spec fn previous_file(self) -> Window {
        match self.selected {
            Some(row) => Window {
                selected: Some(
                    if row == 0 {
                        (self.items.len() - 1) as usize
                    } else {
                        (row - 1) as usize
                    },
                ),
                ..self
            },
            None => self,
        }
    }

    /// One line forward. Above the last row the highlight moves down one row
    /// and the window stays where it is. On the last row the line behind the
    /// window is asked for, which is the line at the position plus the number
    /// of rows: where `rows` has it, it enters the window at the bottom, the
    /// top row leaves, and the position goes up by one; where not, nothing
    /// changes.
    pub open spec fn scroll_forward(self, rows: Seq<Seq<char>>) -> Window {
        match self.selected {
            Some(row) => if row + 1 < self.items.len() {
                Window { selected: Some((row + 1) as usize), ..self }
            } else if self.absolute_index + self.items.len() < rows.len() {
                Window {
                    items: self.items.drop_first().push(
                        rows[self.absolute_index + self.items.len()],
                    ),
                    absolute_index: (self.absolute_index + 1) as usize,
                    ..self
                }
            } else {
                self
            },
            None => self,
        }
    }

    /// One line backward. Below the first row the highlight moves up one row
    /// and the window stays where it is. On the first row the line before the
    /// window is asked for, which is the line before the position: where there
    /// is one, it enters the window at the top, the bottom row leaves, and the
    /// position goes down by one; where not, nothing changes.
    pub open spec fn scroll_backward(self, rows: Seq<Seq<char>>) -> Window {
        match self.selected {
            Some(row) => if row > 0 {
                Window { selected: Some((row - 1) as usize), ..self }
            } else if 0 < self.absolute_index <= rows.len() {
                Window {
                    items: seq![rows[self.absolute_index - 1]] + self.items.drop_last(),
                    absolute_index: (self.absolute_index - 1) as usize,
                    ..self
                }
            } else {
                self
            },
            None => self,
        }
    }

    /// The window anchored anew at `anchor`: up to `height` lines from there
    /// on, filled up to `height` rows. The highlight stays on its row, or goes
    /// to the last row where its row is gone, or to the first where there was
    /// no highlight. Where `rows` has no line at `anchor`, nothing changes.
    pub open spec fn page(self, rows: Seq<Seq<char>>, height: u16, anchor: int) -> Window {
        let fetched = window(rows, anchor, anchor + height);
        if fetched.len() == 0 {
            self
        } else {
            let items = padded(fetched, height as int);
            Window {
                items,
                absolute_index: anchor as usize,
                selected: Some(
                    match self.selected {
                        Some(row) => if row < items.len() {
                            row
                        } else {
                            (items.len() - 1) as usize
                        },
                        None => 0usize,
                    },
                ),
            }
        }
    }

    /// Where a page down anchors the window: half a window behind the
    /// position, but not behind the end of `rows`.
    pub open spec fn anchor_below(self, rows: Seq<Seq<char>>, height: u16) -> int {
        vstd::math::min(rows.len() as int, self.absolute_index + height / 2)
    }

    /// Where a page up anchors the window: half a window before the position,
    /// but not before the first line.
    pub open spec fn anchor_above(self, height: u16) -> int {
        vstd::math::max(0, self.absolute_index - height / 2)
    }

    /// Half a window forward.
    pub open spec fn page_down(self, rows: Seq<Seq<char>>, height: u16) -> Window {
        self.page(rows, height, self.anchor_below(rows, height))
    }

    /// Half a window backward.
    pub open spec fn page_up(self, rows: Seq<Seq<char>>, height: u16) -> Window {
        self.page(rows, height, self.anchor_above(height))
    }

    /// The window at the start of `rows`, the highlight on its first row.
    pub open spec fn home(rows: Seq<Seq<char>>, height: u16) -> Window {
        let items = padded(window(rows, 0, height as int), height as int);
        Window { items, absolute_index: 0, selected: first_row(items) }
    }

    /// Where the window that shows the end of `rows` is anchored.
    pub open spec fn anchor_at_end(rows: Seq<Seq<char>>, height: u16) -> int {
        vstd::math::max(0, rows.len() - height)
    }

    /// The window at the end of `rows`, the highlight on its last row.
    pub open spec fn end(rows: Seq<Seq<char>>, height: u16) -> Window {
        let anchor = Self::anchor_at_end(rows, height);
        let items = padded(window(rows, anchor, rows.len() as int), height as int);
        Window { items, absolute_index: anchor as usize, selected: last_row(items) }
    }

    /// The window right after the files were loaded: the first lines, as many
    /// as the window is high, and the highlight on the first of them.
    pub open spec fn opened(rows: Seq<Seq<char>>, height: u16) -> Window {
        let items = window(rows, 0, height as int);
        Window { items, absolute_index: 0, selected: first_row(items) }
    }
}

impl Screen {
    /// The lines on the screen can be counted by the machine.
    pub open spec fn fits(self) -> bool {
        match self {
            Screen::FileList { .. } => true,
            Screen::TextView { rows, .. } => rows.len() <= usize::MAX,
        }
    }
}

impl State {
    /// The highlight is on one of the rows, if it is anywhere, and where the
    /// lines of one file or more are on the screen, the window shows these
    /// lines from its position on.
    pub open spec fn well_formed(self) -> bool {
        &&& self.window.well_formed()
        &&& self.screen.fits()
        &&& match self.screen {
            Screen::FileList { .. } => true,
            Screen::TextView { names, rows, .. } => names.len() > 0 ==> self.window.shows(rows),
        }
    }

    /// The viewer at its start: the files to choose from, none chosen, the
    /// highlight on the first.
    pub open spec fn initial(files: Seq<Entry>, height: u16) -> State {
        State {
            window: Window {
                selected: first_row(entry_names(files)),
                ..Window::over(entry_names(files))
            },
            screen: Screen::FileList { loaded: Seq::empty() },
            files,
            height,
            error: None,
        }
    }

    /// The command "down".
    pub open spec fn select_next(self) -> State {
        match self.screen {
            Screen::FileList { .. } => State { window: self.window.next_file(), ..self },
            Screen::TextView { rows, .. } => State {
                window: self.window.scroll_forward(rows),
                ..self
            },
        }
    }

    /// The command "up".
    pub open spec fn select_previous(self) -> State {
        match self.screen {
            Screen::FileList { .. } => State { window: self.window.previous_file(), ..self },
            Screen::TextView { rows, .. } => State {
                window: self.window.scroll_backward(rows),
                ..self
            },
        }
    }

    /// The command "page down". It does nothing in the list of files.
    pub open spec fn page_down(self) -> State {
        match self.screen {
            Screen::FileList { .. } => self,
            Screen::TextView { rows, .. } => State {
                window: self.window.page_down(rows, self.height),
                ..self
            },
        }
    }

    /// The command "page up". It does nothing in the list of files.
    pub open spec fn page_up(self) -> State {
        match self.screen {
            Screen::FileList { .. } => self,
            Screen::TextView { rows, .. } => State {
                window: self.window.page_up(rows, self.height),
                ..self
            },
        }
    }

    /// The command "home". It does nothing in the list of files.
    pub open spec fn home(self) -> State {
        match self.screen {
            Screen::FileList { .. } => self,
            Screen::TextView { rows, .. } => State {
                window: Window::home(rows, self.height),
                ..self
            },
        }
    }

    /// The command "end". It does nothing in the list of files.
    pub open spec fn end(self) -> State {
        match self.screen {
            Screen::FileList { .. } => self,
            Screen::TextView { rows, .. } => State {
                window: Window::end(rows, self.height),
                ..self
            },
        }
    }

    /// The command "choose": the file `path`, which is the highlighted one,
    /// becomes chosen, or no longer chosen where it was. It does nothing in
    /// the lines, nor without a highlight.
    pub open spec fn flip_current(self, path: Seq<char>) -> State {
        match self.screen {
            Screen::FileList { loaded } => if self.window.selected is Some {
                State { screen: Screen::FileList { loaded: toggled(loaded, path) }, ..self }
            } else {
                self
            },
            Screen::TextView { .. } => self,
        }
    }

    /// The files that the command "enter" asks to be loaded: the chosen ones,
    /// in the list of files, and none in the lines.
    pub open spec fn to_load(self) -> Seq<Seq<char>> {
        match self.screen {
            Screen::FileList { loaded } => loaded,
            Screen::TextView { .. } => Seq::empty(),
        }
    }

    /// The command "enter". In the lines it opens the dialog with the
    /// highlighted row, or closes it where it is open. In the list of files it
    /// changes nothing: the chosen files are loaded first.
    pub open spec fn enter(self) -> State {
        match self.screen {
            Screen::FileList { .. } => self,
            Screen::TextView { names, rows, dialog } => match self.window.selected {
                Some(row) => State {
                    screen: Screen::TextView {
                        names,
                        rows,
                        dialog: match dialog {
                            Some(_) => None,
                            None => Some(self.window.items[row as int]),
                        },
                    },
                    ..self
                },
                None => self,
            },
        }
    }

    /// What a load of files makes of the viewer. A failure leaves its message
    /// as the error. A new screen takes the place of the old; where it shows
    /// the lines of one file or more, the window opens on the first of them.
    pub open spec fn finish_enter(self, loaded: Loaded) -> State {
        match loaded {
            Loaded::Failed(message) => State { error: Some(message), ..self },
            Loaded::Nothing => self,
            Loaded::Screen(screen) => match screen {
                Screen::FileList { .. } => State { screen, ..self },
                Screen::TextView { names, rows, .. } => if names.len() > 0 {
                    State { screen, window: Window::opened(rows, self.height), ..self }
                } else {
                    State { screen, ..self }
                },
            },
        }
    }

    /// The command "back": from the lines to the list of files, with the files
    /// that were loaded as the chosen ones and the highlight on the first
    /// file. It does nothing in the list of files.
    pub open spec fn go_to_file_list(self) -> State {
        match self.screen {
            Screen::FileList { .. } => self,
            Screen::TextView { names, .. } => State {
                screen: Screen::FileList { loaded: distinct(names, names.len() as int) },
                window: Window {
                    items: entry_names(self.files),
                    selected: first_row(entry_names(self.files)),
                    ..self.window
                },
                ..self
            },
        }
    }

    /// The text of the dialog that is to be shown, if any: the line that was
    /// opened with "enter", else the message of the last failure.
    pub open spec fn dialog_text(self) -> Option<Seq<char>> {
        match self.screen {
            Screen::TextView { dialog: Some(text), .. } => Some(text),
            _ => self.error,
        }
    }

    /// The command that closes the error message.
    pub open spec fn clear_popup(self) -> State {
        State { error: None, ..self }
    }

    /// The terminal has a new height.
    pub open spec fn resize(self, height: u16) -> State {
        State { height, ..self }
    }
}

/// A window over some rows holds the rows between its two ends, as far as there
/// are rows: never more than were asked for, and never more than there are.
pub proof fn lemma_window_len(rows: Seq<Seq<char>>, from: int, to: int)
    requires
        0 <= from,
    ensures
        window(rows, from, to).len() == vstd::math::max(
            0,
            vstd::math::min(to, rows.len() as int) - vstd::math::min(from, rows.len() as int),
        ),
        window(rows, from, to).len() <= vstd::math::max(0, to - from),
        window(rows, from, to).len() <= rows.len(),
        forall|i: int|
            0 <= i < window(rows, from, to).len() ==> window(rows, from, to)[i] == rows[from + i],
{
}

/// Filling up makes a list as long as the window is high, unless it was
/// longer, and keeps the rows that were there.
pub proof fn lemma_padded_len(rows: Seq<Seq<char>>, height: int)
    ensures
        padded(rows, height).len() == vstd::math::max(rows.len() as int, height),
        forall|i: int| 0 <= i < rows.len() ==> padded(rows, height)[i] == rows[i],
        forall|i: int| rows.len() <= i < height ==> padded(rows, height)[i] == filler(),
{
}

/// Every command leaves the highlight on one of the rows, if it is anywhere,
/// and the window on the lines that are on the screen.
pub proof fn lemma_commands_keep_the_viewer_well_formed(
    state: State,
    path: Seq<char>,
    loaded: Loaded,
    height: u16,
)
    requires
        state.well_formed(),
        loaded matches Loaded::Screen(screen) ==> screen.fits(),
    ensures
        state.select_next().well_formed(),
        state.select_previous().well_formed(),
        state.page_down().well_formed(),
        state.page_up().well_formed(),
        state.home().well_formed(),
        state.end().well_formed(),
        state.flip_current(path).well_formed(),
        state.enter().well_formed(),
        state.finish_enter(loaded).well_formed(),
        state.go_to_file_list().well_formed(),
        state.clear_popup().well_formed(),
        state.resize(height).well_formed(),
{
    match state.screen {
        Screen::FileList { .. } => {},
        Screen::TextView { names, rows, .. } => {
            if names.len() > 0 {
                lemma_window_shows_the_lines(state.window, rows, state.height);
            }
        },
    }
    match loaded {
        Loaded::Screen(Screen::TextView { rows, .. }) => {
            lemma_window_shows_the_lines(Window::over(Seq::empty()), rows, state.height);
        },
        _ => {},
    }
}

/// The commands that move through the lines never make the window higher than
/// the terminal: a window that fits stays as high as it is under the two
/// scroll commands, and is as high as the terminal after any other.
pub proof fn lemma_window_fits_the_terminal(
    window: Window,
    rows: Seq<Seq<char>>,
    height: u16,
)
    requires
        window.well_formed(),
        window.items.len() <= height,
    ensures
        window.scroll_forward(rows).items.len() == window.items.len(),
        window.scroll_backward(rows).items.len() == window.items.len(),
        window.page_down(rows, height).items.len() <= height,
        window.page_up(rows, height).items.len() <= height,
        Window::home(rows, height).items.len() == height,
        Window::end(rows, height).items.len() == height,
        Window::opened(rows, height).items.len() <= height,
{
    let below = window.anchor_below(rows, height);
    let above = window.anchor_above(height);
    lemma_window_len(rows, below, below + height);
    lemma_window_len(rows, above, above + height);
    lemma_window_len(rows, 0, height as int);
    lemma_window_len(rows, Window::anchor_at_end(rows, height), rows.len() as int);
}

/// The commands that move through the lines keep the window on the lines: it
/// shows the lines from its position on, and fillers behind the last.
pub proof fn lemma_window_shows_the_lines(window: Window, rows: Seq<Seq<char>>, height: u16)
    requires
        window.well_formed(),
        window.shows(rows),
        rows.len() <= usize::MAX,
    ensures
        window.scroll_forward(rows).shows(rows),
        window.scroll_backward(rows).shows(rows),
        window.page_down(rows, height).shows(rows),
        window.page_up(rows, height).shows(rows),
        Window::home(rows, height).shows(rows),
        Window::end(rows, height).shows(rows),
        Window::opened(rows, height).shows(rows),
{
    let forward = window.scroll_forward(rows);
    assert forall|row: int| 0 <= row < forward.items.len() implies #[trigger] forward.items[row]
        == row_at(rows, forward.absolute_index as int, row) by {
        if forward.absolute_index != window.absolute_index {
            if row + 1 < forward.items.len() {
                assert(forward.items[row] == window.items[row + 1]);
            }
            assert(window.items[window.items.len() - 1] == row_at(
                rows,
                window.absolute_index as int,
                window.items.len() - 1,
            ));
        } else {
            assert(forward.items[row] == window.items[row]);
        }
    }
    let backward = window.scroll_backward(rows);
    assert forall|row: int|
        0 <= row < backward.items.len() implies #[trigger] backward.items[row] == row_at(
        rows,
        backward.absolute_index as int,
        row,
    ) by {
        if backward.absolute_index != window.absolute_index {
            if row > 0 {
                assert(backward.items[row] == window.items[row - 1]);
            }
        } else {
            assert(backward.items[row] == window.items[row]);
        }
    }
    lemma_anchored_window_shows(window, rows, height, window.anchor_below(rows, height));
    lemma_anchored_window_shows(window, rows, height, window.anchor_above(height));
    lemma_window_len(rows, 0, height as int);
    lemma_padded_len(self::window(rows, 0, height as int), height as int);
    let end = Window::anchor_at_end(rows, height);
    lemma_window_len(rows, end, rows.len() as int);
    lemma_padded_len(self::window(rows, end, rows.len() as int), height as int);
}

/// A window that is anchored anew shows the lines from its anchor on.
proof fn lemma_anchored_window_shows(
    window: Window,
    rows: Seq<Seq<char>>,
    height: u16,
    anchor: int,
)
    requires
        window.shows(rows),
        0 <= anchor,
        rows.len() <= usize::MAX,
    ensures
        window.page(rows, height, anchor).shows(rows),
{
    let fetched = self::window(rows, anchor, anchor + height);
    lemma_window_len(rows, anchor, anchor + height);
    lemma_padded_len(fetched, height as int);
}

/// A window that shows the lines ends within them, or its last row is a
/// filler: the position plus the number of rows is at most the number of
/// lines, unless fillers end the window.
pub proof fn lemma_window_ends_within_the_lines(window: Window, rows: Seq<Seq<char>>)
    requires
        window.shows(rows),
        window.items.len() >= 1,
    ensures
        window.absolute_index + window.items.len() <= rows.len() || window.items.last()
            == filler(),
{
    assert(window.items[window.items.len() - 1] == row_at(
        rows,
        window.absolute_index as int,
        window.items.len() - 1,
    ));
}

/// A step forward from the last row lets in the line that follows the last
/// visible one: the rows are the old rows without the first, followed by that
/// line; the window is as high as it was, its position is one further, and
/// the highlight stays on the last row.
pub proof fn lemma_forward_from_the_last_row(window: Window, rows: Seq<Seq<char>>)
    requires
        window.shows(rows),
        window.selected matches Some(row) && row + 1 == window.items.len(),
        window.absolute_index + window.items.len() < rows.len() <= usize::MAX,
    ensures
        window.items.last() == rows[window.absolute_index + window.items.len() - 1],
        window.scroll_forward(rows).items == window.items.drop_first().push(
            rows[window.absolute_index + window.items.len()],
        ),
        window.scroll_forward(rows).items.len() == window.items.len(),
        window.scroll_forward(rows).absolute_index == window.absolute_index + 1,
        window.scroll_forward(rows).selected == window.selected,
{
    assert(window.items[window.items.len() - 1] == row_at(
        rows,
        window.absolute_index as int,
        window.items.len() - 1,
    ));
}

/// A step backward from the first row lets in the line before the first
/// visible one: the rows are that line, followed by the old rows without the
/// last; the window is as high as it was, its position is one less, and the
/// highlight stays on the first row.
pub proof fn lemma_backward_from_the_first_row(window: Window, rows: Seq<Seq<char>>)
    requires
        window.shows(rows),
        window.items.len() >= 1,
        window.selected == Some(0usize),
        0 < window.absolute_index < rows.len(),
        rows.len() <= usize::MAX,
    ensures
        window.items[0] == rows[window.absolute_index as int],
        window.scroll_backward(rows).items == seq![rows[window.absolute_index - 1]]
            + window.items.drop_last(),
        window.scroll_backward(rows).items.len() == window.items.len(),
        window.scroll_backward(rows).absolute_index == window.absolute_index - 1,
        window.scroll_backward(rows).selected == window.selected,
{
    assert(window.items[0] == row_at(rows, window.absolute_index as int, 0));
}

/// A step inside the window moves the highlight and nothing else.
pub proof fn lemma_step_inside_the_window(window: Window, rows: Seq<Seq<char>>, row: usize)
    requires
        window.selected == Some(row),
        row < window.items.len(),
    ensures
        row + 1 < window.items.len() ==> window.scroll_forward(rows) == (Window {
            selected: Some((row + 1) as usize),
            ..window
        }),
        row > 0 ==> window.scroll_backward(rows) == (Window {
            selected: Some((row - 1) as usize),
            ..window
        }),
{
}

/// At the end of the lines, forward changes nothing: there is no way around
/// from the last line to the first.
pub proof fn lemma_no_way_forward_at_the_end(window: Window, rows: Seq<Seq<char>>)
    requires
        window.well_formed(),
        window.selected is Some,
        window.selected->Some_0 + 1 == window.items.len(),
        window.absolute_index + window.items.len() >= rows.len(),
    ensures
        window.scroll_forward(rows) == window,
{
}

/// At the first line, backward changes nothing.
pub proof fn lemma_no_way_backward_at_the_start(window: Window, rows: Seq<Seq<char>>)
    requires
        window.selected == Some(0usize),
        window.absolute_index == 0,
    ensures
        window.scroll_backward(rows) == window,
{
}

/// Choosing a file that is not chosen and choosing it again leaves the chosen
/// files as they were.
pub proof fn lemma_toggled_twice(loaded: Seq<Seq<char>>, name: Seq<char>)
    requires
        !loaded.contains(name),
    ensures
        toggled(toggled(loaded, name), name) == loaded,
{
    let once = loaded.push(name);
    assert(once[once.len() - 1] == name);
    assert(once.contains(name));
    assert(once.drop_last() =~= loaded);
    lemma_without_none(loaded, name);
}

/// Taking the one occurrence of a name out of a sequence without duplicates
/// leaves the names that differ from it.
pub proof fn lemma_without_the_only(names: Seq<Seq<char>>, i: int)
    requires
        names.no_duplicates(),
        0 <= i < names.len(),
    ensures
        without(names, names[i]) == names.remove(i),
    decreases names.len(),
{
    let last = names.len() - 1;
    let shorter = names.drop_last();
    if i == last {
        assert forall|k: int| 0 <= k < shorter.len() implies shorter[k] != names[i] by {
            assert(shorter[k] == names[k]);
        }
        lemma_without_none(shorter, names[i]);
        assert(names.remove(i) =~= shorter);
    } else {
        assert(shorter[i] == names[i]);
        assert(names.last() == names[last]);
        lemma_without_the_only(shorter, i);
        assert(names.remove(i) =~= shorter.remove(i).push(names.last()));
    }
}

/// A sequence that does not hold a name holds only names that differ from
/// it.
pub proof fn lemma_without_none(names: Seq<Seq<char>>, absent: Seq<char>)
    requires
        forall|k: int| 0 <= k < names.len() ==> names[k] != absent,
    ensures
        without(names, absent) == names,
    decreases names.len(),
{
    if names.len() > 0 {
        let shorter = names.drop_last();
        assert forall|k: int| 0 <= k < shorter.len() implies shorter[k] != absent by {
            assert(names[k] == shorter[k]);
        }
        lemma_without_none(shorter, absent);
        assert(names.last() == names[names.len() - 1]);
        assert(shorter.push(names.last()) =~= names);
    }
}

} // verus!
