use std::collections::HashMap;
use textalyzer::line_length::{calculate_line_length_histogram, histogram_of};
use textalyzer::types::{FileEntry, MappedContent};

#[test]
fn test_calculate_line_length_histogram_empty() {
    let files = vec![];
    let histogram = calculate_line_length_histogram(&files);
    assert!(histogram.is_empty());
}

#[test]
fn test_calculate_line_length_histogram_basic() {
    let file1 = FileEntry {
        name: "file1.txt".to_string(),
        content: MappedContent::String("line1\nline22\n".to_string()),
    };
    let file2 = FileEntry {
        name: "file2.txt".to_string(),
        content: MappedContent::String("line1\nline333\n".to_string()),
    };
    let files = vec![file1, file2];
    let histogram = calculate_line_length_histogram(&files);

    let expected: HashMap<usize, usize> = [(5, 2), (6, 1), (7, 1)].iter().cloned().collect();
    assert_eq!(histogram, expected);
}

#[test]
fn test_calculate_line_length_histogram_unicode() {
    let file1 = FileEntry {
        name: "file_unicode.txt".to_string(),
        content: MappedContent::String("你好\n🚀\n".to_string()),
    };
    let files = vec![file1];
    let histogram = calculate_line_length_histogram(&files);

    let expected: HashMap<usize, usize> = [(4, 1), (2, 1)].iter().cloned().collect();
    assert_eq!(histogram, expected);
}

#[test]
fn histogram_counts_each_width() {
    let h = histogram_of(&vec![3, 1, 3, 3]);
    let expected: HashMap<usize, usize> = [(3, 3), (1, 1)].iter().cloned().collect();
    assert_eq!(h, expected);
}
