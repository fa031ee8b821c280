use logmerge::text::{get_line_breaks, FileWithLines};
use logmerge::timestamp::ErrorKind;

fn open(text: &str) -> FileWithLines {
    FileWithLines::new(String::from("spooky.log"), String::from(text))
}

#[test]
fn load_file_get_ith_line() {
    let text: String = String::from("We did the slice.\nIt was the spooky slice.\nNow our swings have some spice.\nSpoooooky.\nSlice.\n");
    let line_breaks: Vec<usize> = get_line_breaks(&text);
    assert_eq!(line_breaks, vec![0, 18, 43, 75, 86, 93, 94]);

    let spooky_file = FileWithLines::new(String::from("spooky.log"), text);
    assert_eq!("We did the slice.", spooky_file.get_ith_line(0).unwrap());
    assert_eq!(
        "It was the spooky slice.",
        spooky_file.get_ith_line(1).unwrap()
    );
    assert_eq!("Slice.", spooky_file.get_ith_line(4).unwrap());

    assert_eq!(spooky_file.len(), 5);

    for i in 0..spooky_file.len() {
        assert!(spooky_file.get_ith_line(i).unwrap() != "");
    }
}

#[test]
fn annotated_lines_test() {
    let text: String = String::from("2023-05-03 10:25:50.262116 - one\n2023-05-03 10:25:50.262116 - two\n2023-05-03 10:25:50.262116 - three\n");
    let spooky_file = FileWithLines::new(String::from("spooky.log"), text);
    assert_eq!(spooky_file.len(), 3);

    let res = spooky_file.get_annotated_lines(0);
    assert!(res.is_ok());
    assert_eq!(res.unwrap().len(), 3);
}

#[test]
fn missing_newline_at_the_end() {
    let text: String = String::from("We did the slice.\nIt was the spooky slice.\nNow our swings have some spice.\nSpoooooky.\nSlice.");
    let line_breaks: Vec<usize> = get_line_breaks(&text);
    assert_eq!(line_breaks, vec![0, 18, 43, 75, 86, 92, 93]);
    let spooky_file = FileWithLines::new(String::from("spooky.log"), text);
    assert_eq!(spooky_file.len(), 5);
    assert_eq!("Slice.", spooky_file.get_ith_line(4).unwrap());
}

#[test]
fn empty_text_has_no_lines() {
    assert_eq!(get_line_breaks(&String::new()), vec![0, 1]);
    let file = open("");
    assert_eq!(file.len(), 0);
    assert_eq!(file.get_ith_line(0).unwrap_err().kind, ErrorKind::OutOfRange);
}

#[test]
fn line_past_the_last_is_out_of_range() {
    let file = open("one\ntwo\n");
    assert_eq!(file.len(), 2);
    let error = file.get_ith_line(file.len()).unwrap_err();
    assert_eq!(error.kind, ErrorKind::OutOfRange);
    assert_eq!(error.to_string(), "line index is out of range");
    assert!(file.get_ith_line(usize::MAX).is_err());
    assert!(file.get_ith_line(3).is_err());
}

#[test]
fn only_the_newline_is_stripped() {
    let file = open("one\r\n\n two \nlast\r");
    assert_eq!(file.len(), 4);
    assert_eq!(file.get_ith_line(0).unwrap(), "one\r");
    assert_eq!(file.get_ith_line(1).unwrap(), "");
    assert_eq!(file.get_ith_line(2).unwrap(), " two ");
    assert_eq!(file.get_ith_line(3).unwrap(), "last\r");
}

#[test]
fn single_newline_is_one_empty_line() {
    assert_eq!(get_line_breaks(&String::from("\n")), vec![0, 1, 2]);
    let file = open("\n");
    assert_eq!(file.len(), 1);
    assert_eq!(file.get_ith_line(0).unwrap(), "");
}

#[test]
fn lines_joined_by_newlines_give_the_text_back() {
    for text in ["a\nbc\n\nd", "a\nbc\n\nd\n", "x", "x\n", "\n\n", "käse\nüber\n日本語"] {
        let file = open(text);
        let mut joined = String::new();
        for i in 0..file.len() {
            joined.push_str(file.get_ith_line(i).unwrap());
            joined.push('\n');
        }
        if text.ends_with('\n') {
            assert_eq!(joined, text);
        } else {
            assert_eq!(joined, format!("{}\n", text));
        }
        assert_eq!(file.len(), text.lines().count());
    }
}

#[test]
fn offsets_count_bytes_not_characters() {
    let text = String::from("é\nü\n");
    assert_eq!(get_line_breaks(&text), vec![0, 3, 6, 7]);
    let file = FileWithLines::new(String::from("umlaut.log"), text);
    assert_eq!(file.get_ith_line(0).unwrap(), "é");
    assert_eq!(file.get_ith_line(1).unwrap(), "ü");
}

#[test]
fn file_keeps_its_name() {
    assert_eq!(open("x").filename(), "spooky.log");
}

#[test]
fn annotated_lines_carry_instant_file_and_number() {
    let file = open("1970-01-01 00:00:01.000000 a\n1970-01-01 00:00:00,5 b\n1969-12-31 23:59:59 c");
    let records = file.get_annotated_lines(7).unwrap();
    let seen: Vec<(i64, usize, usize)> =
        records.iter().map(|r| (r.timestamp, r.source_file, r.index)).collect();
    assert_eq!(seen, vec![(1_000_000, 7, 0), (500_000, 7, 1), (-1_000_000, 7, 2)]);
}

#[test]
fn annotated_lines_fail_on_the_first_bad_line() {
    let file = open("2023-05-03 10:25:50.262116 ok\n2023-05-03\n\nnot a date\n");
    assert_eq!(file.get_annotated_lines(0).unwrap_err().kind, ErrorKind::MissingTime);
    let file = open("2023-05-03 10:25:50.262116 ok\nnot a date\n2023-05-03\n");
    assert_eq!(file.get_annotated_lines(0).unwrap_err().kind, ErrorKind::UnparseableTimestamp);
    let file = open("\n2023-05-03 10:25:50.262116 ok\n");
    assert_eq!(file.get_annotated_lines(0).unwrap_err().kind, ErrorKind::MissingDate);
}

#[test]
fn read_files_are_put_in_the_order_asked_for() {
    let read = vec![
        (2, FileWithLines::new(String::from("c.log"), String::from("c\n"))),
        (0, FileWithLines::new(String::from("a.log"), String::from("a\n"))),
        (1, FileWithLines::new(String::from("b.log"), String::from("b\n"))),
    ];
    let files = FileWithLines::from_files(read).unwrap();
    let names: Vec<String> = files.iter().map(|file| file.filename()).collect();
    assert_eq!(names, vec!["a.log", "b.log", "c.log"]);
    assert_eq!(files[2].get_ith_line(0).unwrap(), "c");
    assert!(FileWithLines::from_files(Vec::new()).unwrap().is_empty());
}

#[test]
fn read_files_need_the_numbers_from_zero_on_each_once() {
    let twice = vec![(0, open("x")), (0, open("y"))];
    assert!(FileWithLines::from_files(twice).is_none());
    let missing = vec![(0, open("x")), (2, open("y"))];
    assert!(FileWithLines::from_files(missing).is_none());
    let too_high = vec![(1, open("x"))];
    assert!(FileWithLines::from_files(too_high).is_none());
    let swapped = vec![(1, open("x")), (0, open("y"))];
    let files = FileWithLines::from_files(swapped).unwrap();
    assert_eq!(files[0].get_ith_line(0).unwrap(), "y");
    assert_eq!(files[1].get_ith_line(0).unwrap(), "x");
}
