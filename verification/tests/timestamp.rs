use logmerge::timestamp::{
    get_timestamp_from_line, parse_timestamp_utc, ErrorKind, LineError, Timestamp,
};

#[test]
fn timestamp_test() {
    let time = "2023-05-03 10:25:50.262116";
    let parsed = parse_timestamp_utc(time);
    assert!(parsed.is_ok());
    assert_eq!(parsed.unwrap().timestamp_micros(), 1683109550262116);
}

#[test]
fn timestamp_test_with_comma() {
    let time = "2023-05-03 10:25:50,262116";
    let parsed = parse_timestamp_utc(time);
    assert!(parsed.is_ok());
    assert_eq!(parsed.unwrap().timestamp_micros(), 1683109550262116);
}

#[test]
fn get_from_line_test() {
    let line = "2023-05-03 10:25:50.262116     src\\main.rs INFO  - main - start";
    let parsed = get_timestamp_from_line(line);
    assert!(parsed.is_ok());
    assert_eq!(parsed.unwrap().timestamp_micros(), 1683109550262116);
}

#[test]
fn timestamp_before_the_epoch_is_negative() {
    let parsed = parse_timestamp_utc("1969-12-31 23:59:58.500000").unwrap();
    assert_eq!(parsed.timestamp_micros(), -1_500_000);
    assert_eq!(parse_timestamp_utc("1970-01-01 00:00:00").unwrap().timestamp_micros(), 0);
}

#[test]
fn unparseable_timestamp_is_reported() {
    for text in ["", "yesterday at noon", "2023-05-03", "2023-13-03 10:25:50", "2023-05-03T10:25:50"] {
        let error = parse_timestamp_utc(text).unwrap_err();
        assert_eq!(error.kind, ErrorKind::UnparseableTimestamp);
        assert_eq!(error.error_message, "cannot parse timestamp");
    }
}

#[test]
fn line_without_date_or_time_is_reported() {
    for line in ["", " ", "     "] {
        let error = get_timestamp_from_line(line).unwrap_err();
        assert_eq!(error.kind, ErrorKind::MissingDate);
        assert_eq!(error.to_string(), "line does not have a date");
    }
    for line in ["2023-05-03", "2023-05-03   ", "  x"] {
        let error = get_timestamp_from_line(line).unwrap_err();
        assert_eq!(error.kind, ErrorKind::MissingTime);
        assert_eq!(error.to_string(), "line does not have a time");
    }
    let error = get_timestamp_from_line("INFO starting up").unwrap_err();
    assert_eq!(error.kind, ErrorKind::UnparseableTimestamp);
}

#[test]
fn date_and_time_are_the_first_two_words() {
    let expected = 1683109550262116;
    for line in [
        "2023-05-03 10:25:50.262116",
        "2023-05-03 10:25:50,262116 WARN comma",
        "   2023-05-03    10:25:50.262116 indented",
        "2023-05-03 10:25:50.262116 käse",
    ] {
        assert_eq!(get_timestamp_from_line(line).unwrap().timestamp_micros(), expected);
    }
    assert!(get_timestamp_from_line("x 2023-05-03 10:25:50.262116").is_err());
    assert!(get_timestamp_from_line("käse 2023-05-03 10:25:50.262116").is_err());
}

#[test]
fn parsed_result_decides_between_instant_and_error() {
    assert_eq!(Timestamp::from_parsed(Some(42)).unwrap(), Timestamp::from_micros(42));
    assert_eq!(Timestamp::from_parsed(Some(-1)).unwrap().timestamp_micros(), -1);
    assert_eq!(Timestamp::from_parsed(None).unwrap_err().kind, ErrorKind::UnparseableTimestamp);
}

#[test]
fn every_error_kind_has_its_message() {
    assert_eq!(LineError::new(ErrorKind::MissingDate).error_message, "line does not have a date");
    assert_eq!(LineError::new(ErrorKind::MissingTime).error_message, "line does not have a time");
    assert_eq!(
        LineError::new(ErrorKind::UnparseableTimestamp).error_message,
        "cannot parse timestamp"
    );
    assert_eq!(LineError::new(ErrorKind::OutOfRange).error_message, "line index is out of range");
}

#[test]
fn white_space_of_every_kind_separates_date_and_time() {
    let expected = 1683109550262116;
    for line in [
        "2023-05-03\t10:25:50.262116\tINFO tabs",
        "\t 2023-05-03 \t 10:25:50.262116",
        "2023-05-03\r10:25:50.262116\nrest",
        "2023-05-03\u{b}10:25:50,262116\u{c}rest",
    ] {
        assert_eq!(get_timestamp_from_line(line).unwrap().timestamp_micros(), expected);
    }
    assert_eq!(get_timestamp_from_line("\t\r\n ").unwrap_err().kind, ErrorKind::MissingDate);
    assert_eq!(get_timestamp_from_line("2023-05-03\t").unwrap_err().kind, ErrorKind::MissingTime);
}

#[test]
fn spaces_from_beyond_ascii_do_not_separate() {
    let error = get_timestamp_from_line("2023-05-03\u{a0}10:25:50.262116").unwrap_err();
    assert_eq!(error.kind, ErrorKind::MissingTime);
    let error = get_timestamp_from_line("2023-05-03\u{a0}10:25:50.262116 rest").unwrap_err();
    assert_eq!(error.kind, ErrorKind::UnparseableTimestamp);
    let error = get_timestamp_from_line("\u{2003}").unwrap_err();
    assert_eq!(error.kind, ErrorKind::MissingTime);
}
