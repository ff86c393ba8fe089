use textalyzer::file_utils::merge_file_lines;
use textalyzer::types::{FileEntry, LineEntry, MappedContent};

#[test]
fn file_utils_test_merge_file_lines() {
    let file1 = FileEntry {
        name: "file1.txt".to_string(),
        content: MappedContent::String("Line one\nLine Two\n".to_string()),
    };
    let file2 = FileEntry {
        name: "file2.txt".to_string(),
        content: MappedContent::String("Another line\n".to_string()),
    };
    let lines = merge_file_lines(&|line: &&str| line.trim().len() > 5, vec![file1, file2]);
    let expected_lines = vec![
        LineEntry { file_name: "file1.txt".to_string(), line_number: 1, content: "Line one".to_string() },
        LineEntry { file_name: "file1.txt".to_string(), line_number: 2, content: "Line Two".to_string() },
        LineEntry { file_name: "file2.txt".to_string(), line_number: 1, content: "Another line".to_string() },
    ];
    assert_eq!(lines, expected_lines);
}

#[test]
fn lib_test_merge_file_lines() {
    let file1 = FileEntry {
        name: "file1.txt".to_string(),
        content: MappedContent::String("Line one\nLine Two\n".to_string()),
    };
    let file2 = FileEntry {
        name: "file2.txt".to_string(),
        content: MappedContent::String("Another line\n".to_string()),
    };
    let lines = merge_file_lines(&|line: &&str| line.trim().len() > 5, vec![file1, file2]);
    let expected_lines = vec![
        LineEntry { file_name: "file1.txt".to_string(), line_number: 1, content: "Line one".to_string() },
        LineEntry { file_name: "file1.txt".to_string(), line_number: 2, content: "Line Two".to_string() },
        LineEntry { file_name: "file2.txt".to_string(), line_number: 1, content: "Another line".to_string() },
    ];
    assert_eq!(lines, expected_lines);
}

#[test]
fn merge_skips_blank_lines_and_keeps_raw_text() {
    let f = FileEntry {
        name: "f".to_string(),
        content: MappedContent::String("  padded  \n   \nno\nkept line\n".to_string()),
    };
    let lines = merge_file_lines(&|line: &&str| line.len() > 2, vec![f]);
    assert_eq!(
        lines,
        vec![
            LineEntry { file_name: "f".to_string(), line_number: 1, content: "  padded  ".to_string() },
            LineEntry { file_name: "f".to_string(), line_number: 4, content: "kept line".to_string() },
        ]
    );
}
