use logmerge::listing::{
    generate_file_list, is_listed, names_in_order, sort_entries, FileEntry, ListedFile,
};
use logmerge::popup::centered_shares;
use logmerge::severity::{contains_word, severity, Severity};

fn entry(name: &str, size: u64) -> FileEntry {
    FileEntry { filename: String::from(name), file_size: size }
}

fn listed(name: &str, loaded: bool, size: u64) -> ListedFile {
    ListedFile { name: String::from(name), loaded, file_size: size }
}

#[test]
fn hidden_and_empty_files_are_not_listed() {
    assert!(is_listed("app.log", 1));
    assert!(is_listed("app.log", u64::MAX));
    assert!(!is_listed("app.log", 0));
    assert!(!is_listed(".app.log", 10));
    assert!(!is_listed(".", 10));
    assert!(is_listed("a.b", 10));
    assert!(is_listed("", 10));
    assert!(!is_listed("", 0));
}

#[test]
fn names_are_ordered_byte_by_byte() {
    assert!(names_in_order(b"", b""));
    assert!(names_in_order(b"", b"a"));
    assert!(!names_in_order(b"a", b""));
    assert!(names_in_order(b"a", b"a"));
    assert!(names_in_order(b"a", b"ab"));
    assert!(!names_in_order(b"ab", b"a"));
    assert!(names_in_order(b"ab", b"b"));
    assert!(names_in_order(b"B", b"a"));
    assert!(!names_in_order(b"a", b"B"));
    assert!(names_in_order("z".as_bytes(), "\u{e4}".as_bytes()));
}

#[test]
fn file_entries_compare_by_name() {
    assert!(entry("/logs/a.log", 5) == entry("/logs/a.log", 900));
    assert!(entry("/logs/a.log", 5) != entry("/logs/b.log", 5));
    assert!(entry("/logs/a.log", 900) < entry("/logs/b.log", 5));
    assert!(entry("/logs/b.log", 5) > entry("/logs/a.log", 900));
    assert!(entry("/logs/a", 1) < entry("/logs/a.log", 1));
    assert!(entry("/logs/a.log", 1) <= entry("/logs/a.log", 2));
    assert!(entry("/logs/a.log", 1) >= entry("/logs/a.log", 2));
}

#[test]
fn entries_are_sorted_by_name() {
    let sorted = sort_entries(vec![
        entry("/logs/c.log", 1),
        entry("/logs/a.log", 2),
        entry("/logs/b.log", 3),
        entry("/logs/a.log", 4),
        entry("/logs/B.log", 5),
        entry("/logs/a", 6),
    ]);
    let seen: Vec<(&str, u64)> =
        sorted.iter().map(|file| (file.filename.as_str(), file.file_size)).collect();
    assert_eq!(
        seen,
        vec![
            ("/logs/B.log", 5),
            ("/logs/a", 6),
            ("/logs/a.log", 2),
            ("/logs/a.log", 4),
            ("/logs/b.log", 3),
            ("/logs/c.log", 1),
        ]
    );
    assert!(sort_entries(Vec::new()).is_empty());
}

#[test]
fn sorting_agrees_with_the_order_of_strings() {
    let names = ["zeta", "alpha", "Alpha", "alp", "", "\u{e4}rger", "beta", "alpha"];
    let sorted = sort_entries(names.iter().map(|name| entry(name, 1)).collect());
    let mut expected: Vec<String> = names.iter().map(|name| name.to_string()).collect();
    expected.sort();
    let seen: Vec<String> = sorted.into_iter().map(|file| file.filename).collect();
    assert_eq!(seen, expected);
}

#[test]
fn labels_are_padded_to_the_longest_name() {
    let labels = generate_file_list(&vec![
        listed("a.log", true, 120),
        listed("server.log", false, 0),
        listed("\u{e4}.log", false, 18446744073709551615),
    ]);
    assert_eq!(
        labels,
        vec![
            "[x] a.log           (120 B)",
            "[ ] server.log      (0 B)",
            "[ ] \u{e4}.log          (18446744073709551615 B)",
        ]
    );
    assert!(generate_file_list(&Vec::new()).is_empty());
    assert_eq!(generate_file_list(&vec![listed("", false, 7)]), vec!["[ ]       (7 B)"]);
}

#[test]
fn words_are_found_anywhere_in_a_text() {
    assert!(contains_word(b"an ERROR here", b"ERROR"));
    assert!(contains_word(b"ERROR", b"ERROR"));
    assert!(contains_word(b"xxERROR", b"ERROR"));
    assert!(contains_word(b"ERRERROR", b"ERROR"));
    assert!(!contains_word(b"ERRO", b"ERROR"));
    assert!(!contains_word(b"error", b"ERROR"));
    assert!(!contains_word(b"", b"ERROR"));
    assert!(contains_word(b"", b""));
    assert!(contains_word(b"abc", b""));
}

#[test]
fn severity_goes_by_the_words_of_a_line() {
    assert_eq!(severity("2023-05-03 10:25:50 ERROR disk full"), Severity::Error);
    assert_eq!(severity("2023-05-03 10:25:50 WARN disk nearly full"), Severity::Warning);
    assert_eq!(severity("2023-05-03 10:25:50 WARNING then ERROR"), Severity::Error);
    assert_eq!(severity("2023-05-03 10:25:50 INFO all well"), Severity::Plain);
    assert_eq!(severity("warn error"), Severity::Plain);
    assert_eq!(severity(""), Severity::Plain);
    assert_eq!(severity("~"), Severity::Plain);
}

#[test]
fn dialog_is_centred_between_equal_margins() {
    assert_eq!(centered_shares(60), (20, 60, 20));
    assert_eq!(centered_shares(20), (40, 20, 40));
    assert_eq!(centered_shares(100), (0, 100, 0));
    assert_eq!(centered_shares(0), (50, 0, 50));
    assert_eq!(centered_shares(99), (0, 99, 0));
    assert_eq!(centered_shares(31), (34, 31, 34));
}
