use logmerge::app::{App, AppError, AppState, Common, FileListMenu, ViewMenu};
use logmerge::listing::FileEntry;
use logmerge::text::FileWithLines;
use logmerge::timestamp::ErrorKind;

fn stamped(seconds: &[u32], tag: &str) -> String {
    let mut text = String::new();
    for second in seconds {
        text.push_str(&format!("2023-05-03 00:00:{:02}.000000 {}{}\n", second, tag, second));
    }
    text
}

fn file(name: &str, text: &str) -> FileWithLines {
    FileWithLines::new(String::from(name), String::from(text))
}

fn two_files() -> Vec<FileWithLines> {
    vec![
        file("/logs/a.log", &stamped(&[0, 10, 15, 30], "A")),
        file("/logs/b.log", &stamped(&[7, 13, 21, 45], "B")),
    ]
}

fn entries() -> Vec<FileEntry> {
    vec![
        FileEntry { filename: String::from("/logs/a.log"), file_size: 120 },
        FileEntry { filename: String::from("/logs/b.log"), file_size: 120 },
        FileEntry { filename: String::from("/logs/c.log"), file_size: 7 },
    ]
}

fn loaded_app(height: u16) -> App {
    let mut app = App::new(entries(), height);
    app.flip_current(String::from("/logs/a.log"));
    app.select_next();
    app.flip_current(String::from("/logs/b.log"));
    let paths = app.enter();
    assert_eq!(paths, vec!["/logs/a.log", "/logs/b.log"]);
    app.finish_enter(App::load_files(two_files()));
    app
}

fn tags(app: &App) -> Vec<String> {
    app.items()
        .iter()
        .map(|row| row.rsplit(' ').next().unwrap().to_string())
        .collect()
}

fn five_lines() -> ViewMenu {
    ViewMenu::new(vec![file("five.log", &stamped(&[1, 2, 3, 4, 5], "L"))]).unwrap()
}

#[test]
fn get_lines_clamps_both_bounds() {
    let view = five_lines();
    assert_eq!(view.len(), 5);
    assert_eq!(view.get_lines(0, 137).len(), 5);
    assert!(view.get_lines(0, 0).is_empty());
    assert!(view.get_lines(2, 0).is_empty());
    assert!(view.get_lines(9, 10).is_empty());
    assert!(view.get_lines(5, 6).is_empty());
    assert_eq!(
        view.get_lines(3, usize::MAX),
        vec!["2023-05-03 00:00:04.000000 L4", "2023-05-03 00:00:05.000000 L5"]
    );
    assert_eq!(view.get_lines(1, 2), vec!["2023-05-03 00:00:02.000000 L2"]);
}

#[test]
fn get_lines_of_no_file_is_empty() {
    let view = ViewMenu::new(Vec::new()).unwrap();
    assert_eq!(view.len(), 0);
    assert!(view.get_lines(0, 10).is_empty());
    let view = ViewMenu::new(vec![file("empty.log", "")]).unwrap();
    assert!(view.get_lines(0, 10).is_empty());
}

#[test]
fn two_files_are_shown_in_order_of_time() {
    let app = loaded_app(8);
    assert!(matches!(app.app_state(), AppState::TextView(_)));
    assert_eq!(tags(&app), vec!["A0", "B7", "A10", "B13", "A15", "B21", "A30", "B45"]);
    assert_eq!(app.items()[1], "2023-05-03 00:00:07.000000 B7");
    assert_eq!(app.selected(), Some(0));
    assert_eq!(app.absolute_index(), 0);
    assert_eq!(app.error(), None);
}

#[test]
fn seven_forward_and_seven_backward_restore_the_window() {
    for height in [1u16, 2, 3, 4, 5, 8, 9, 20] {
        let mut app = loaded_app(height);
        let before: Vec<String> = app.items().iter().cloned().collect();
        for _ in 0..7 {
            app.select_next();
        }
        for _ in 0..7 {
            app.select_previous();
        }
        let after: Vec<String> = app.items().iter().cloned().collect();
        assert_eq!(before, after);
        assert_eq!(app.selected(), Some(0));
        assert_eq!(app.absolute_index(), 0);
    }
}

#[test]
fn scrolling_inside_the_window_moves_only_the_highlight() {
    let mut app = loaded_app(8);
    let before: Vec<String> = app.items().iter().cloned().collect();
    app.select_next();
    app.select_next();
    assert_eq!((app.selected(), app.absolute_index()), (Some(2), 0));
    assert_eq!(app.items().len(), 8);
    app.select_previous();
    assert_eq!((app.selected(), app.absolute_index()), (Some(1), 0));
    app.select_previous();
    app.select_previous();
    assert_eq!((app.selected(), app.absolute_index()), (Some(0), 0));
    for _ in 0..7 {
        app.select_next();
    }
    assert_eq!((app.selected(), app.absolute_index()), (Some(7), 0));
    assert_eq!(app.absolute_index() + app.items().len(), 8);
    app.select_next();
    assert_eq!((app.selected(), app.absolute_index()), (Some(7), 0));
    let after: Vec<String> = app.items().iter().cloned().collect();
    assert_eq!(before, after);
}

#[test]
fn scrolling_past_the_last_row_lets_in_the_line_that_follows_it() {
    let mut app = loaded_app(3);
    assert_eq!(tags(&app), vec!["A0", "B7", "A10"]);
    app.select_next();
    app.select_next();
    assert_eq!(tags(&app), vec!["A0", "B7", "A10"]);
    assert_eq!((app.selected(), app.absolute_index()), (Some(2), 0));
    app.select_next();
    assert_eq!(tags(&app), vec!["B7", "A10", "B13"]);
    assert_eq!((app.selected(), app.absolute_index()), (Some(2), 1));
    app.select_next();
    assert_eq!(tags(&app), vec!["A10", "B13", "A15"]);
    assert_eq!((app.selected(), app.absolute_index()), (Some(2), 2));
    app.select_next();
    app.select_next();
    assert_eq!(tags(&app), vec!["A15", "B21", "A30"]);
    app.select_next();
    assert_eq!(tags(&app), vec!["B21", "A30", "B45"]);
    assert_eq!((app.selected(), app.absolute_index()), (Some(2), 5));
    app.select_next();
    assert_eq!(tags(&app), vec!["B21", "A30", "B45"]);
    assert_eq!((app.selected(), app.absolute_index()), (Some(2), 5));
}

#[test]
fn every_line_can_be_reached_backward_from_the_end() {
    let mut app = loaded_app(3);
    app.end();
    assert_eq!(tags(&app), vec!["B21", "A30", "B45"]);
    app.select_previous();
    app.select_previous();
    assert_eq!(tags(&app), vec!["B21", "A30", "B45"]);
    assert_eq!((app.selected(), app.absolute_index()), (Some(0), 5));
    app.select_previous();
    assert_eq!(tags(&app), vec!["A15", "B21", "A30"]);
    assert_eq!((app.selected(), app.absolute_index()), (Some(0), 4));
    for _ in 0..4 {
        app.select_previous();
    }
    assert_eq!(tags(&app), vec!["A0", "B7", "A10"]);
    assert_eq!((app.selected(), app.absolute_index()), (Some(0), 0));
    app.select_previous();
    assert_eq!(tags(&app), vec!["A0", "B7", "A10"]);
    assert_eq!((app.selected(), app.absolute_index()), (Some(0), 0));
}

#[test]
fn scrolling_before_the_first_row_asks_for_the_line_before_the_position() {
    let mut app = loaded_app(1);
    for _ in 0..3 {
        app.select_next();
    }
    assert_eq!(tags(&app), vec!["B13"]);
    assert_eq!(app.absolute_index(), 3);
    app.select_previous();
    assert_eq!(tags(&app), vec!["A10"]);
    assert_eq!((app.selected(), app.absolute_index()), (Some(0), 2));
    app.select_previous();
    app.select_previous();
    assert_eq!(tags(&app), vec!["A0"]);
    app.select_previous();
    assert_eq!(tags(&app), vec!["A0"]);
    assert_eq!((app.selected(), app.absolute_index()), (Some(0), 0));
}

#[test]
fn page_down_anchors_half_a_window_further() {
    let mut app = loaded_app(4);
    app.select_next();
    app.page_down();
    assert_eq!(tags(&app), vec!["A10", "B13", "A15", "B21"]);
    assert_eq!((app.selected(), app.absolute_index()), (Some(1), 2));
    app.page_down();
    assert_eq!(tags(&app), vec!["A15", "B21", "A30", "B45"]);
    assert_eq!((app.selected(), app.absolute_index()), (Some(1), 4));
    app.page_down();
    assert_eq!(tags(&app), vec!["A30", "B45", "~", "~"]);
    assert_eq!(app.absolute_index(), 6);
    app.page_down();
    assert_eq!(tags(&app), vec!["A30", "B45", "~", "~"]);
    assert_eq!((app.selected(), app.absolute_index()), (Some(1), 6));
    app.select_next();
    app.select_next();
    app.select_next();
    assert_eq!(tags(&app), vec!["A30", "B45", "~", "~"]);
    assert_eq!((app.selected(), app.absolute_index()), (Some(3), 6));
}

#[test]
fn page_up_anchors_half_a_window_back() {
    let mut app = loaded_app(4);
    app.page_down();
    app.page_down();
    assert_eq!(app.absolute_index(), 4);
    app.page_up();
    assert_eq!(tags(&app), vec!["A10", "B13", "A15", "B21"]);
    assert_eq!((app.selected(), app.absolute_index()), (Some(0), 2));
    app.page_up();
    app.page_up();
    assert_eq!(tags(&app), vec!["A0", "B7", "A10", "B13"]);
    assert_eq!(app.absolute_index(), 0);
}

#[test]
fn home_and_end_anchor_at_the_ends() {
    let mut app = loaded_app(3);
    app.end();
    assert_eq!(tags(&app), vec!["B21", "A30", "B45"]);
    assert_eq!((app.selected(), app.absolute_index()), (Some(2), 5));
    app.select_next();
    assert_eq!(tags(&app), vec!["B21", "A30", "B45"]);
    app.home();
    assert_eq!(tags(&app), vec!["A0", "B7", "A10"]);
    assert_eq!((app.selected(), app.absolute_index()), (Some(0), 0));
}

#[test]
fn short_stream_is_padded_with_fillers() {
    let mut app = loaded_app(10);
    assert_eq!(app.items().len(), 8);
    app.end();
    assert_eq!(app.items().len(), 10);
    assert_eq!(app.items()[8], "~");
    assert_eq!(app.items()[9], "~");
    assert_eq!((app.selected(), app.absolute_index()), (Some(9), 0));
    app.home();
    assert_eq!(app.items().len(), 10);
    assert_eq!(tags(&app)[7], "B45");
    assert_eq!(app.items()[9], "~");
    assert_eq!(app.selected(), Some(0));
}

#[test]
fn navigation_on_an_empty_stream_changes_nothing() {
    let mut app = App::new(entries(), 5);
    app.finish_enter(App::load_files(vec![file("/logs/empty.log", "")]));
    assert!(matches!(app.app_state(), AppState::TextView(_)));
    assert!(app.items().is_empty());
    assert_eq!(app.selected(), None);
    app.select_next();
    app.select_previous();
    app.page_down();
    app.page_up();
    assert!(app.items().is_empty());
    assert!(app.enter().is_empty());
    app.end();
    assert_eq!(app.items().len(), 5);
    assert_eq!((app.selected(), app.absolute_index()), (Some(4), 0));
    app.home();
    assert_eq!(app.selected(), Some(0));
}

#[test]
fn window_without_rows_has_no_highlight() {
    let mut app = loaded_app(0);
    assert!(app.items().is_empty());
    assert_eq!(app.selected(), None);
    app.home();
    app.end();
    app.page_down();
    app.select_next();
    assert!(app.items().is_empty());
    assert_eq!(app.selected(), None);
    app.resize(2);
    assert_eq!(app.terminal_height(), 2);
    app.page_down();
    assert!(app.items().is_empty());
    assert_eq!(app.absolute_index(), 8);
    app.page_up();
    assert_eq!(tags(&app), vec!["B45", "~"]);
    assert_eq!((app.selected(), app.absolute_index()), (Some(0), 7));
}

#[test]
fn single_line_file_can_be_scrolled_without_harm() {
    let mut app = App::new(entries(), 4);
    app.finish_enter(App::load_files(vec![file("/logs/one.log", "2023-05-03 00:00:01 only")]));
    assert_eq!(app.items().len(), 1);
    for _ in 0..3 {
        app.select_next();
        app.page_down();
        app.select_previous();
        app.page_up();
    }
    assert_eq!(app.items()[0], "2023-05-03 00:00:01 only");
}

#[test]
fn file_list_highlight_wraps_around() {
    let mut app = App::new(entries(), 10);
    assert!(matches!(app.app_state(), AppState::FileList(_)));
    assert_eq!(app.items().len(), 3);
    assert_eq!(app.items()[2], "/logs/c.log");
    assert_eq!(app.file_list().len(), 3);
    assert_eq!(app.selected(), Some(0));
    app.select_previous();
    assert_eq!(app.selected(), Some(2));
    app.select_next();
    assert_eq!(app.selected(), Some(0));
    app.select_next();
    assert_eq!(app.selected(), Some(1));
    app.page_down();
    app.page_up();
    app.home();
    app.end();
    app.go_to_file_list();
    assert_eq!(app.selected(), Some(1));
    assert_eq!(app.items().len(), 3);
}

#[test]
fn empty_file_list_has_no_highlight() {
    let mut app = App::new(Vec::new(), 10);
    assert_eq!(app.selected(), None);
    app.select_next();
    app.select_previous();
    app.flip_current(String::from("/logs/a.log"));
    assert!(app.enter().is_empty());
    assert_eq!(app.selected(), None);
}

#[test]
fn flip_current_chooses_and_unchooses() {
    let mut app = App::new(entries(), 10);
    assert!(app.enter().is_empty());
    app.flip_current(String::from("/logs/b.log"));
    app.flip_current(String::from("/logs/a.log"));
    assert_eq!(app.enter(), vec!["/logs/b.log", "/logs/a.log"]);
    app.flip_current(String::from("/logs/b.log"));
    assert_eq!(app.enter(), vec!["/logs/a.log"]);
    app.flip_current(String::from("/logs/b.log"));
    assert_eq!(app.enter(), vec!["/logs/a.log", "/logs/b.log"]);
    assert!(matches!(app.app_state(), AppState::FileList(_)));
}

#[test]
fn failed_load_leaves_the_file_list_and_an_error() {
    let mut app = App::new(entries(), 10);
    app.flip_current(String::from("/logs/a.log"));
    let files = vec![
        file("/logs/a.log", &stamped(&[1, 2], "A")),
        file("/logs/b.log", "2023-05-03 00:00:01 fine\nbroken line\n"),
    ];
    let result = App::load_files(files);
    assert_eq!(
        result.as_ref().err().unwrap().error_message,
        "App::load_files - cannot load files, error=cannot parse timestamp"
    );
    app.finish_enter(result);
    assert!(matches!(app.app_state(), AppState::FileList(_)));
    assert_eq!(app.items().len(), 3);
    assert_eq!(
        app.error().unwrap(),
        "App::load_files - cannot load files, error=cannot parse timestamp"
    );
    app.clear_popup();
    assert_eq!(app.error(), None);
    assert_eq!(app.enter(), vec!["/logs/a.log"]);
}

#[test]
fn load_reports_the_first_file_that_fails() {
    let files = vec![file("/logs/a.log", "2023-05-03\n"), file("/logs/b.log", "\n")];
    let error: AppError = App::load_files(files).err().unwrap();
    assert_eq!(
        error.error_message,
        "App::load_files - cannot load files, error=line does not have a time"
    );
    assert_eq!(
        ViewMenu::new(vec![file("/logs/b.log", "\n")]).err().unwrap().kind,
        ErrorKind::MissingDate
    );
}

#[test]
fn finish_enter_with_nothing_changes_nothing() {
    let mut app = loaded_app(4);
    app.select_next();
    app.finish_enter(Ok(None));
    assert_eq!(tags(&app), vec!["A0", "B7", "A10", "B13"]);
    assert_eq!((app.selected(), app.absolute_index()), (Some(1), 0));
    app.finish_enter(Ok(Some(AppState::FileList(FileListMenu::new()))));
    assert!(matches!(app.app_state(), AppState::FileList(_)));
    assert_eq!(tags(&app), vec!["A0", "B7", "A10", "B13"]);
}

#[test]
fn enter_in_the_lines_toggles_the_dialog() {
    let mut app = loaded_app(4);
    app.select_next();
    assert!(app.enter().is_empty());
    match app.app_state() {
        AppState::TextView(view) => {
            assert_eq!(view.details_dialog().unwrap(), "2023-05-03 00:00:07.000000 B7")
        }
        AppState::FileList(_) => panic!("the lines are shown"),
    }
    app.select_next();
    assert!(app.enter().is_empty());
    match app.app_state() {
        AppState::TextView(view) => assert_eq!(view.details_dialog(), None),
        AppState::FileList(_) => panic!("the lines are shown"),
    }
}

#[test]
fn dialog_text_is_the_opened_line_or_the_error() {
    let mut app = App::new(entries(), 4);
    assert_eq!(app.dialog_text(), None);
    app.finish_enter(App::load_files(vec![file("/logs/bad.log", "no timestamp here\n")]));
    assert_eq!(
        app.dialog_text().unwrap(),
        "App::load_files - cannot load files, error=cannot parse timestamp"
    );
    app.finish_enter(App::load_files(two_files()));
    assert_eq!(
        app.dialog_text().unwrap(),
        "App::load_files - cannot load files, error=cannot parse timestamp"
    );
    app.enter();
    assert_eq!(app.dialog_text().unwrap(), "2023-05-03 00:00:00.000000 A0");
    app.clear_popup();
    assert_eq!(app.dialog_text().unwrap(), "2023-05-03 00:00:00.000000 A0");
    app.enter();
    assert_eq!(app.dialog_text(), None);
}

#[test]
fn show_details_dialog_opens_and_closes() {
    let mut view = five_lines();
    assert_eq!(view.details_dialog(), None);
    assert!(matches!(App::show_details_dialog(&mut view, String::from("one")), Ok(None)));
    assert_eq!(view.details_dialog().unwrap(), "one");
    assert!(matches!(App::show_details_dialog(&mut view, String::from("two")), Ok(None)));
    assert_eq!(view.details_dialog(), None);
    view.toggle_dialog(String::from("three"));
    assert_eq!(view.details_dialog().unwrap(), "three");
    assert_eq!(view.get_lines(0, 1), vec!["2023-05-03 00:00:01.000000 L1"]);
}

#[test]
fn back_returns_to_the_files_with_the_loaded_ones_chosen() {
    let mut app = loaded_app(3);
    app.select_next();
    app.go_to_file_list();
    assert!(matches!(app.app_state(), AppState::FileList(_)));
    assert_eq!(app.items().len(), 3);
    assert_eq!(app.items()[0], "/logs/a.log");
    assert_eq!(app.selected(), Some(0));
    match app.app_state() {
        AppState::FileList(menu) => {
            assert_eq!(menu.len(), 2);
            assert!(menu.contains(&String::from("/logs/a.log")));
            assert!(menu.contains(&String::from("/logs/b.log")));
            assert!(!menu.contains(&String::from("/logs/c.log")));
        }
        AppState::TextView(_) => panic!("the files are shown"),
    }
    assert_eq!(app.enter(), vec!["/logs/a.log", "/logs/b.log"]);
}

#[test]
fn file_list_menu_holds_each_file_once() {
    let mut menu = FileListMenu::new();
    assert_eq!(menu.len(), 0);
    menu.insert(String::from("x"));
    menu.insert(String::from("y"));
    menu.insert(String::from("x"));
    assert_eq!(menu.paths(), vec!["x", "y"]);
    menu.remove(&String::from("z"));
    assert_eq!(menu.len(), 2);
    menu.remove(&String::from("x"));
    assert_eq!(menu.paths(), vec!["y"]);
    assert!(!menu.contains(&String::from("x")));
}

#[test]
fn three_files_are_merged_file_by_file() {
    let files = vec![
        file("1", "2023-05-03 00:00:05 one\n"),
        file("2", "2023-05-03 00:00:05 two\n2023-05-03 00:00:06 two-late\n"),
        file("3", "2023-05-03 00:00:05 three\n2023-05-03 00:00:04 three-early\n"),
    ];
    let view = ViewMenu::new(files).unwrap();
    let rows: Vec<String> =
        view.get_lines(0, 10).iter().map(|row| row.rsplit(' ').next().unwrap().to_string()).collect();
    assert_eq!(rows, vec!["one", "two", "three", "three-early", "two-late"]);
}

#[test]
fn common_starts_without_a_highlight() {
    let mut common = Common::new(vec![String::from("a"), String::from("b")]);
    assert_eq!(common.items.len(), 2);
    assert_eq!(common.items[0], "a");
    assert_eq!(common.items[1], "b");
    assert_eq!(common.selected, None);
    assert_eq!(common.absolute_index, 0);
    common.next_file();
    assert_eq!(common.selected, None);
    common.selected = Some(1);
    common.next_file();
    assert_eq!(common.selected, Some(0));
    common.previous_file();
    assert_eq!(common.selected, Some(1));
}

#[test]
fn common_pages_over_a_view() {
    let view = five_lines();
    let mut common = Common::new(Vec::new());
    common.open(&view, 2);
    assert_eq!(common.items.len(), 2);
    assert_eq!((common.selected, common.absolute_index), (Some(0), 0));
    common.page(&view, 2, 4);
    assert_eq!(common.items[0], "2023-05-03 00:00:05.000000 L5");
    assert_eq!(common.items[1], "~");
    assert_eq!((common.selected, common.absolute_index), (Some(0), 4));
    common.page(&view, 2, 5);
    assert_eq!(common.absolute_index, 4);
    common.end(&view, 3);
    assert_eq!(common.items[0], "2023-05-03 00:00:03.000000 L3");
    assert_eq!((common.selected, common.absolute_index), (Some(2), 2));
    common.scroll_backward(&view);
    assert_eq!((common.selected, common.absolute_index), (Some(1), 2));
    common.page_up(&view, 3);
    assert_eq!(common.items[0], "2023-05-03 00:00:02.000000 L2");
    assert_eq!((common.selected, common.absolute_index), (Some(1), 1));
    common.page_down(&view, 4);
    assert_eq!(common.items[0], "2023-05-03 00:00:04.000000 L4");
    assert_eq!(common.items[1], "2023-05-03 00:00:05.000000 L5");
    assert_eq!(common.items[3], "~");
    assert_eq!((common.selected, common.absolute_index), (Some(1), 3));
    common.home(&view, 1);
    assert_eq!(common.items.len(), 1);
    common.scroll_forward(&view);
    assert_eq!(common.items[0], "2023-05-03 00:00:02.000000 L2");
    assert_eq!((common.selected, common.absolute_index), (Some(0), 1));
}
