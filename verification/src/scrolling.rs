//! Scrolling forth and back: from the top of the lines, as many steps
//! backward as were made forward lead back to the window that one started
//! with.

use crate::model::{lemma_padded_len, lemma_window_len, row_at, window, Window};
use vstd::prelude::*;

verus! {

/// The window after `steps` lines forward.
pub open spec fn forward(window: Window, rows: Seq<Seq<char>>, steps: nat) -> Window
    decreases steps,
{
    if steps == 0 {
        window
    } else {
        forward(window, rows, (steps - 1) as nat).scroll_forward(rows)
    }
}

/// The window after `steps` lines backward.
pub open spec fn backward(window: Window, rows: Seq<Seq<char>>, steps: nat) -> Window
    decreases steps,
{
    if steps == 0 {
        window
    } else {
        backward(window, rows, (steps - 1) as nat).scroll_backward(rows)
    }
}

/// The window stands at the top of the lines: its position is 0, the
/// highlight is on its first row, and it shows the first of the lines.
pub open spec fn at_the_top(window: Window, rows: Seq<Seq<char>>) -> bool {
    &&& window.absolute_index == 0
    &&& window.selected == Some(0usize)
    &&& 1 <= window.items.len() <= usize::MAX
    &&& rows.len() <= usize::MAX
    &&& window.shows(rows)
}

/// The rows of a window with `height` rows at `position`.
pub open spec fn shown(rows: Seq<Seq<char>>, position: int, height: nat) -> Seq<Seq<char>> {
    Seq::new(height, |row: int| row_at(rows, position, row))
}

/// How many steps forward change the window that starts at the top: the
/// steps down to the last row, and then one for every line behind the window.
pub open spec fn reach(start: Window, rows: Seq<Seq<char>>) -> int {
    start.items.len() - 1 + if rows.len() > start.items.len() {
        rows.len() - start.items.len()
    } else {
        0
    }
}

/// The number of the highlighted row after `steps` effective steps forward.
pub open spec fn row_after(start: Window, steps: int) -> int {
    if steps < start.items.len() - 1 {
        steps
    } else {
        start.items.len() - 1
    }
}

/// The window after `steps` effective steps forward from the top: the
/// highlight has gone down to the last row, and from there on the window has
/// gone down the lines.
pub open spec fn after_forward(start: Window, rows: Seq<Seq<char>>, steps: int) -> Window {
    Window {
        items: shown(rows, steps - row_after(start, steps), start.items.len()),
        selected: Some(row_after(start, steps) as usize),
        absolute_index: (steps - row_after(start, steps)) as usize,
    }
}

/// The window on the way back: after `steps` effective steps forward from the
/// top and then `back` steps backward. The highlight goes up to the first
/// row, and from there on the window goes up the lines.
pub open spec fn on_the_way_back(
    start: Window,
    rows: Seq<Seq<char>>,
    steps: int,
    back: int,
) -> Window {
    let row = row_after(start, steps);
    let position = steps - row;
    if back <= row {
        Window {
            items: shown(rows, position, start.items.len()),
            selected: Some((row - back) as usize),
            absolute_index: position as usize,
        }
    } else {
        Window {
            items: shown(rows, position - (back - row), start.items.len()),
            selected: Some(0usize),
            absolute_index: (position - (back - row)) as usize,
        }
    }
}

/// One more step forward.
proof fn lemma_step_forward(start: Window, rows: Seq<Seq<char>>, steps: int)
    requires
        at_the_top(start, rows),
        0 <= steps <= reach(start, rows),
    ensures
        after_forward(start, rows, steps).scroll_forward(rows) == after_forward(
            start,
            rows,
            if steps < reach(start, rows) {
                steps + 1
            } else {
                steps
            },
        ),
{
    let now = after_forward(start, rows, steps);
    let row = row_after(start, steps);
    let position = steps - row;
    if row + 1 == start.items.len() && steps < reach(start, rows) {
        let next = after_forward(start, rows, steps + 1);
        assert(now.items.drop_first().push(rows[position + start.items.len()]) =~= next.items);
    }
}

/// Forward from the top, every step counts until the last line has entered the
/// window, and none after that.
proof fn lemma_forward(start: Window, rows: Seq<Seq<char>>, steps: nat)
    requires
        at_the_top(start, rows),
    ensures
        forward(start, rows, steps) == after_forward(
            start,
            rows,
            vstd::math::min(steps as int, reach(start, rows)),
        ),
    decreases steps,
{
    if steps == 0 {
        assert(shown(rows, 0, start.items.len()) =~= start.items);
    } else {
        lemma_forward(start, rows, (steps - 1) as nat);
        lemma_step_forward(start, rows, vstd::math::min(steps - 1, reach(start, rows)));
    }
}

/// One more step backward.
proof fn lemma_step_backward(start: Window, rows: Seq<Seq<char>>, steps: int, back: int)
    requires
        at_the_top(start, rows),
        0 <= back < steps <= reach(start, rows),
    ensures
        on_the_way_back(start, rows, steps, back).scroll_backward(rows) == on_the_way_back(
            start,
            rows,
            steps,
            back + 1,
        ),
{
    let row = row_after(start, steps);
    let now = on_the_way_back(start, rows, steps, back);
    let next = on_the_way_back(start, rows, steps, back + 1);
    if back >= row {
        assert(seq![rows[now.absolute_index - 1]] + now.items.drop_last() =~= next.items);
    }
}

/// The way back starts where the way forward ended, and ends at the window
/// that the way forward started with.
proof fn lemma_back_at_the_start(start: Window, rows: Seq<Seq<char>>, steps: int)
    requires
        at_the_top(start, rows),
        0 <= steps <= reach(start, rows),
    ensures
        on_the_way_back(start, rows, steps, 0) == after_forward(start, rows, steps),
        on_the_way_back(start, rows, steps, steps) == start,
{
    assert(shown(rows, 0, start.items.len()) =~= start.items);
}

/// Backward from where `steps` effective steps forward led, every step counts
/// until the window is back at the top, and none after that.
proof fn lemma_backward(start: Window, rows: Seq<Seq<char>>, steps: int, back: nat)
    requires
        at_the_top(start, rows),
        0 <= steps <= reach(start, rows),
    ensures
        backward(after_forward(start, rows, steps), rows, back) == on_the_way_back(
            start,
            rows,
            steps,
            vstd::math::min(back as int, steps),
        ),
    decreases back,
{
    lemma_back_at_the_start(start, rows, steps);
    if back > 0 {
        lemma_backward(start, rows, steps, (back - 1) as nat);
        if back - 1 < steps {
            lemma_step_backward(start, rows, steps, back - 1);
        }
    }
}

/// From the top of the lines, as many steps backward as were made forward
/// lead back to the window that one started with: its rows, its highlight and
/// its position are as they were.
pub proof fn lemma_forward_and_back(start: Window, rows: Seq<Seq<char>>, steps: nat)
    requires
        at_the_top(start, rows),
    ensures
        backward(forward(start, rows, steps), rows, steps) == start,
{
    let counted = vstd::math::min(steps as int, reach(start, rows));
    lemma_forward(start, rows, steps);
    lemma_backward(start, rows, counted, steps);
    lemma_back_at_the_start(start, rows, counted);
}

/// Forward from the top, the window goes down the lines one by one: while
/// lines are left behind it, the step from its last row lets in the very line
/// that follows its last row, and no line is passed over.
pub proof fn lemma_forward_passes_no_line(start: Window, rows: Seq<Seq<char>>, steps: nat)
    requires
        at_the_top(start, rows),
    ensures
        forward(start, rows, steps).shows(rows),
        forward(start, rows, steps).items.len() == start.items.len(),
        forward(start, rows, steps).absolute_index == vstd::math::max(
            0,
            vstd::math::min(steps as int, reach(start, rows)) - (start.items.len() - 1),
        ),
{
    lemma_forward(start, rows, steps);
}

/// The window that is opened on the lines of the files, and the window that
/// the command "home" gives, stand at the top of the lines.
pub proof fn lemma_opened_and_home_are_at_the_top(rows: Seq<Seq<char>>, height: u16)
    requires
        rows.len() <= usize::MAX,
    ensures
        Window::opened(rows, height).items.len() >= 1 ==> at_the_top(
            Window::opened(rows, height),
            rows,
        ),
        Window::home(rows, height).items.len() >= 1 ==> at_the_top(
            Window::home(rows, height),
            rows,
        ),
{
    lemma_window_len(rows, 0, height as int);
    lemma_padded_len(window(rows, 0, height as int), height as int);
}

} // verus!
