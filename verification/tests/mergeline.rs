use logmerge::mergeline::{merge, Line};

const FILES: [&str; 3] = ["1.txt", "2.txt", "123.txt"];

fn generate_line(timestamp: i64, source_file: &str, index: usize) -> Line {
    let source_file = FILES.iter().position(|name| *name == source_file).unwrap();
    Line { timestamp, source_file, index }
}

fn timestamps(lines: &[Line]) -> Vec<i64> {
    lines.iter().map(|line| line.timestamp).collect()
}

#[test]
fn cmp_implementation_on_line() {
    assert!(generate_line(7, "2.txt", 0) < generate_line(30, "2.txt", 0));
    assert!(generate_line(30, "123.txt", 10) == generate_line(30, "2.txt", 0));
    assert!(generate_line(50, "2.txt", 0) > generate_line(30, "2.txt", 0));
}

#[test]
fn test_merge() {
    let file_one: Vec<Line> = vec![
        generate_line(0, "1.txt", 0),
        generate_line(10, "1.txt", 1),
        generate_line(15, "1.txt", 2),
        generate_line(30, "1.txt", 3),
    ];

    let file_two: Vec<Line> = vec![
        generate_line(7, "2.txt", 0),
        generate_line(13, "2.txt", 1),
        generate_line(21, "2.txt", 2),
        generate_line(45, "2.txt", 3),
    ];

    let result = merge(&file_one, &file_two);

    assert_eq!(result.len(), file_one.len() + file_two.len());
    assert_eq!(result[0].timestamp, 0);
    assert_eq!(result[1].timestamp, 7);
    assert_eq!(result[2].timestamp, 10);
    assert_eq!(result[3].timestamp, 13);
    assert_eq!(result[4].timestamp, 15);
    assert_eq!(result[5].timestamp, 21);
    assert_eq!(result[6].timestamp, 30);
    assert_eq!(result[7].timestamp, 45);
}

#[test]
fn merge_takes_left_first_on_equal_timestamps() {
    let left = vec![generate_line(30, "1.txt", 4)];
    let right = vec![generate_line(30, "2.txt", 9)];
    let result = merge(&left, &right);
    assert_eq!(result.len(), 2);
    assert_eq!((result[0].source_file, result[0].index), (0, 4));
    assert_eq!((result[1].source_file, result[1].index), (1, 9));

    let swapped = merge(&right, &left);
    assert_eq!((swapped[0].source_file, swapped[0].index), (1, 9));
    assert_eq!((swapped[1].source_file, swapped[1].index), (0, 4));
}

#[test]
fn merge_with_an_empty_side_returns_the_other() {
    let lines = vec![generate_line(-5, "1.txt", 0), generate_line(3, "1.txt", 1)];
    let empty: Vec<Line> = Vec::new();
    assert_eq!(timestamps(&merge(&lines, &empty)), vec![-5, 3]);
    assert_eq!(timestamps(&merge(&empty, &lines)), vec![-5, 3]);
    assert!(merge(&empty, &empty).is_empty());
}

#[test]
fn merge_keeps_every_record_and_their_order() {
    let left = vec![
        generate_line(1, "1.txt", 0),
        generate_line(4, "1.txt", 1),
        generate_line(4, "1.txt", 2),
        generate_line(9, "1.txt", 3),
    ];
    let right = vec![
        generate_line(4, "2.txt", 0),
        generate_line(4, "2.txt", 1),
        generate_line(20, "2.txt", 2),
    ];
    let result = merge(&left, &right);
    assert_eq!(timestamps(&result), vec![1, 4, 4, 4, 4, 9, 20]);
    let places: Vec<(usize, usize)> = result.iter().map(|l| (l.source_file, l.index)).collect();
    assert_eq!(places, vec![(0, 0), (0, 1), (0, 2), (1, 0), (1, 1), (0, 3), (1, 2)]);
}

#[test]
fn merge_of_three_files_folds_from_the_left() {
    let first = vec![generate_line(5, "1.txt", 0)];
    let second = vec![generate_line(5, "2.txt", 0)];
    let third = vec![generate_line(5, "123.txt", 0), generate_line(2, "123.txt", 1)];
    let result = merge(&merge(&first, &second), &third);
    let files: Vec<usize> = result.iter().map(|l| l.source_file).collect();
    assert_eq!(files, vec![0, 1, 2, 2]);
}

#[test]
fn line_is_written_out_with_its_three_numbers() {
    assert_eq!(generate_line(30, "2.txt", 4).to_string(), "Line(30, 1, 4)");
    assert_eq!(generate_line(0, "1.txt", 0).to_string(), "Line(0, 0, 0)");
    assert_eq!(
        generate_line(-1683109550262116, "123.txt", 1203).to_string(),
        "Line(-1683109550262116, 2, 1203)"
    );
    let line = Line { timestamp: i64::MIN, source_file: usize::MAX, index: 10 };
    assert_eq!(line.to_string(), format!("Line({}, {}, 10)", i64::MIN, usize::MAX));
    let line = Line { timestamp: i64::MAX, source_file: 9, index: 100 };
    assert_eq!(line.to_string(), format!("Line({}, 9, 100)", i64::MAX));
}
