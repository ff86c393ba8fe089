use textalyzer::duplication::{find_duplicate_lines, find_duplications, find_multi_line_duplications};
use textalyzer::types::{FileEntry, MappedContent};

fn entry(name: &str, text: &str) -> FileEntry<'static> {
    FileEntry {
        name: name.to_string(),
        content: MappedContent::String(text.to_string()),
    }
}

fn sorted(mut v: Vec<(String, u32)>) -> Vec<(String, u32)> {
    v.sort();
    v
}

#[test]
fn duplication_test_find_duplicate_lines() {
    let file1 = FileEntry {
        name: "file1.txt".to_string(),
        content: MappedContent::String(
            "\
              This is a test.\n\
              This is only a test.\n\
              This is a test.\n\
              # Ignore empty lines\n\
              \n\
              \n\
              # Ignore short lines\n\
              abc\n\
              abc\n"
                .to_string(),
        ),
    };
    let file2 = FileEntry {
        name: "file2.txt".to_string(),
        content: MappedContent::String("This is a test.\n".to_string()),
    };
    let duplications = find_duplicate_lines(vec![file1, file2]);
    let expected_duplications = vec![(
        "This is a test.".to_string(),
        vec![
            ("file1.txt".to_string(), 1),
            ("file1.txt".to_string(), 3),
            ("file2.txt".to_string(), 1),
        ],
    )];

    assert_eq!(duplications, expected_duplications);
}

#[test]
fn lib_test_find_duplicate_lines() {
    let file1 = FileEntry {
        name: "file1.txt".to_string(),
        content: MappedContent::String(
            "\
            This is a test.\n\
            This is only a test.\n\
            This is a test.\n\
            # Ignore empty lines\n\
            \n\
            \n\
            # Ignore short lines\n\
            abc\n\
            abc\n"
                .to_string(),
        ),
    };
    let file2 = FileEntry {
        name: "file2.txt".to_string(),
        content: MappedContent::String("This is a test.\n".to_string()),
    };
    let duplications = find_duplicate_lines(vec![file1, file2]);
    let expected_duplications = vec![(
        "This is a test.".to_string(),
        vec![
            ("file1.txt".to_string(), 1),
            ("file1.txt".to_string(), 3),
            ("file2.txt".to_string(), 1),
        ],
    )];

    assert_eq!(duplications, expected_duplications);
}

#[test]
fn test_find_multi_line_duplications() {
    let file1 = FileEntry {
        name: "file1.txt".to_string(),
        content: MappedContent::String(
            "\
              This is a test.\n\
              This is a second line.\n\
              This is a third line.\n\
              Some other content.\n\
              And another line here.\n\
              This is a test.\n\
              This is a second line.\n\
              A different third line.\n"
                .to_string(),
        ),
    };
    let file2 = FileEntry {
        name: "file2.txt".to_string(),
        content: MappedContent::String(
            "\
              Something unrelated.\n\
              This is a test.\n\
              This is a second line.\n\
              This is a third line.\n\
              Final line.\n"
                .to_string(),
        ),
    };

    let files = vec![file1, file2];
    let duplications = find_multi_line_duplications(files);

    assert_eq!(duplications.len(), 1, "Expected exactly 1 duplication");

    let three_line_dup = "This is a test.\nThis is a second line.\nThis is a third line.";

    let (block, locations) = &duplications[0];
    assert_eq!(block, three_line_dup, "Expected 3-line duplication");
    assert_eq!(locations.len(), 2, "Expected 2 locations for 3-line duplication");
    assert!(locations.contains(&("file1.txt".to_string(), 1)));
    assert!(locations.contains(&("file2.txt".to_string(), 2)));
}

#[test]
fn test_multi_line_duplications_with_non_overlapping() {
    let file1 = FileEntry {
        name: "file1.txt".to_string(),
        content: MappedContent::String(
            "\
              Block A line 1.\n\
              Block A line 2.\n\
              Block A line 3.\n\
              Some middle content.\n\
              Block B line 1.\n\
              Block B line 2.\n"
                .to_string(),
        ),
    };
    let file2 = FileEntry {
        name: "file2.txt".to_string(),
        content: MappedContent::String(
            "\
              Different stuff.\n\
              Block A line 1.\n\
              Block A line 2.\n\
              Block A line 3.\n\
              Some other content.\n\
              Block B line 1.\n\
              Block B line 2.\n"
                .to_string(),
        ),
    };

    let files = vec![file1, file2];
    let duplications = find_multi_line_duplications(files);

    assert_eq!(duplications.len(), 2, "Expected exactly 2 duplications");

    let block_a = "Block A line 1.\nBlock A line 2.\nBlock A line 3.";
    let block_b = "Block B line 1.\nBlock B line 2.";

    let mut found_block_a = false;
    let mut found_block_b = false;

    for (block, locations) in &duplications {
        if block == block_a {
            found_block_a = true;
            assert_eq!(locations.len(), 2);
            assert!(locations.contains(&("file1.txt".to_string(), 1)));
            assert!(locations.contains(&("file2.txt".to_string(), 2)));
        } else if block == block_b {
            found_block_b = true;
            assert_eq!(locations.len(), 2);
            assert!(locations.contains(&("file1.txt".to_string(), 5)));
            assert!(locations.contains(&("file2.txt".to_string(), 6)));
        }
    }

    assert!(found_block_a, "Did not find Block A duplication");
    assert!(found_block_b, "Did not find Block B duplication");
}

#[test]
fn test_duplication_ignores_indentation() {
    let file1 = FileEntry {
        name: "file1.txt".into(),
        content: MappedContent::String("    fn main() {\n        println!(\"Hello\");\n    }\n".into()),
    };
    let file2 = FileEntry {
        name: "file2.txt".into(),
        content: MappedContent::String("fn main() {\nprintln!(\"Hello\");\n}\n".into()),
    };

    let dups = find_multi_line_duplications(vec![file1, file2]);

    assert_eq!(dups.len(), 1);
    let (block, locs) = &dups[0];
    assert_eq!(
        block, "fn main() {\nprintln!(\"Hello\");\n}",
        "Block should be compared without leading spaces"
    );
    assert_eq!(locs.len(), 2, "Both files should be reported");
}

#[test]
fn indented_copy_is_reported_with_both_files() {
    let a = entry("A", "    fn main() {\n        println!(\"Hello\");\n    }\n");
    let b = entry("B", "fn main() {\nprintln!(\"Hello\");\n}\n");
    let dups = find_multi_line_duplications(vec![a, b]);
    assert_eq!(dups.len(), 1);
    assert_eq!(dups[0].0, "fn main() {\nprintln!(\"Hello\");\n}");
    assert_eq!(sorted(dups[0].1.clone()), vec![("A".to_string(), 1), ("B".to_string(), 1)]);
}

#[test]
fn repeated_detection_gives_the_same_blocks() {
    let make = || {
        vec![
            entry("x.txt", "alpha one\nbeta two\ngamma three\nzzz\nalpha one\nbeta two\n"),
            entry("y.txt", "beta two\ngamma three\nalpha one\nbeta two\ngamma three\n"),
        ]
    };
    let first: Vec<(String, Vec<(String, u32)>)> = find_multi_line_duplications(make())
        .into_iter()
        .map(|(t, l)| (t, sorted(l)))
        .collect();
    let second: Vec<(String, Vec<(String, u32)>)> = find_multi_line_duplications(make())
        .into_iter()
        .map(|(t, l)| (t, sorted(l)))
        .collect();
    assert_eq!(first, second);
}

#[test]
fn accepted_blocks_do_not_overlap_and_have_two_locations() {
    let files = vec![
        entry("x.txt", "alpha one\nbeta two\ngamma three\nzzz\nalpha one\nbeta two\n"),
        entry("y.txt", "beta two\ngamma three\nalpha one\nbeta two\ngamma three\n"),
    ];
    let dups = find_multi_line_duplications(files);
    assert!(!dups.is_empty());
    for (text, locs) in &dups {
        assert!(locs.len() >= 2);
        let h = text.matches('\n').count() as u32 + 1;
        for (other_text, other_locs) in &dups {
            if std::ptr::eq(text, other_text) {
                continue;
            }
            let oh = other_text.matches('\n').count() as u32 + 1;
            for (f, n) in locs {
                for (g, m) in other_locs {
                    if f == g {
                        assert!(n + h <= *m || m + oh <= *n);
                    }
                }
            }
        }
    }
}

#[test]
fn single_line_fast_path_reports_long_lines_once() {
    let files = vec![
        entry("a.txt", "shared line here\nabcde\nabcde\nxyz\n"),
        entry("b.txt", "  shared line here  \nabcde\n"),
    ];
    let dups = find_duplicate_lines(files);
    assert_eq!(
        dups,
        vec![(
            "shared line here".to_string(),
            vec![("a.txt".to_string(), 1), ("b.txt".to_string(), 1)]
        )]
    );
}

#[test]
fn single_line_fast_path_orders_longest_first() {
    let files = vec![
        entry("a.txt", "medium line\na much longer line of text\n"),
        entry("b.txt", "a much longer line of text\nmedium line\n"),
    ];
    let dups = find_duplicate_lines(files);
    assert_eq!(dups.len(), 2);
    assert_eq!(dups[0].0, "a much longer line of text");
    assert_eq!(dups[1].0, "medium line");
}

#[test]
fn min_lines_filters_blocks_by_non_blank_lines() {
    let make = || {
        vec![
            entry("a.txt", "one line\ntwo line\nthree line\nother\nsolo line\n"),
            entry("b.txt", "one line\ntwo line\nthree line\nelse\nsolo line\n"),
        ]
    };
    let three = find_duplications(make(), 3);
    assert_eq!(three.len(), 1);
    assert_eq!(three[0].0, "one line\ntwo line\nthree line");
    let four = find_duplications(make(), 4);
    assert!(four.is_empty());
    let one = find_duplications(make(), 1);
    assert_eq!(one.len(), 4);
}

#[test]
fn blank_lines_inside_a_block_are_kept() {
    let files = vec![
        entry("a.txt", "first line\n\nthird line\n"),
        entry("b.txt", "first line\n   \nthird line\n"),
    ];
    let dups = find_multi_line_duplications(files);
    assert_eq!(dups.len(), 1);
    assert_eq!(dups[0].0, "first line\n   \nthird line");
}

#[test]
fn no_input_gives_no_duplications() {
    assert!(find_multi_line_duplications(vec![]).is_empty());
    assert!(find_duplicate_lines(vec![]).is_empty());
}

#[test]
fn invalid_mapped_bytes_count_as_empty() {
    let bad: &[u8] = &[0xff, 0xfe, b'\n'];
    let files = vec![
        FileEntry { name: "bad".to_string(), content: MappedContent::Mapped(bad) },
        entry("ok.txt", "line number one\n"),
    ];
    assert!(find_duplicate_lines(files).is_empty());
}

#[test]
fn mapped_bytes_are_read_as_text() {
    let bytes: &[u8] = b"mapped text line\nmapped text line\n";
    let files = vec![FileEntry { name: "m".to_string(), content: MappedContent::Mapped(bytes) }];
    let dups = find_duplicate_lines(files);
    assert_eq!(dups, vec![("mapped text line".to_string(), vec![("m".to_string(), 1), ("m".to_string(), 2)])]);
}

#[test]
fn single_line_order_counts_utf8_bytes() {
    let files = vec![
        entry("a.txt", "éééééé\nabcdefgh\n"),
        entry("b.txt", "abcdefgh\néééééé\n"),
    ];
    let dups = find_duplicate_lines(files);
    assert_eq!(dups.len(), 2);
    assert_eq!(dups[0].0, "éééééé");
    assert_eq!(dups[1].0, "abcdefgh");
}

#[test]
fn single_line_locations_follow_file_then_line_order() {
    let files = vec![
        entry("a.txt", "repeated line\nother\nrepeated line\n"),
        entry("b.txt", "repeated line\n"),
        entry("c.txt", "x\n  repeated line\n"),
    ];
    let dups = find_duplicate_lines(files);
    assert_eq!(
        dups,
        vec![(
            "repeated line".to_string(),
            vec![
                ("a.txt".to_string(), 1),
                ("a.txt".to_string(), 3),
                ("b.txt".to_string(), 1),
                ("c.txt".to_string(), 2),
            ]
        )]
    );
}

#[test]
fn duplicates_within_one_text_are_reported_in_line_order() {
    let files = vec![entry("textarea", "Hello world\nfoo bar baz\nHello world\n")];
    let dups = find_multi_line_duplications(files);
    assert_eq!(
        dups,
        vec![("Hello world".to_string(), vec![("textarea".to_string(), 1), ("textarea".to_string(), 3)])]
    );
}

#[test]
fn block_locations_follow_file_then_line_order() {
    let files = vec![
        entry("b.txt", "zz\nline one here\nline two here\n"),
        entry("a.txt", "line one here\nline two here\nyy\nline one here\nline two here\n"),
    ];
    let dups = find_duplications(files, 2);
    assert_eq!(dups.len(), 1);
    assert_eq!(dups[0].0, "line one here\nline two here");
    assert_eq!(
        dups[0].1,
        vec![("b.txt".to_string(), 2), ("a.txt".to_string(), 1), ("a.txt".to_string(), 4)]
    );
}

#[test]
fn mapped_and_owned_content_give_the_same_blocks() {
    let text = "alpha one\nbeta two\ngamma three\nalpha one\nbeta two\n";
    let owned = find_multi_line_duplications(vec![entry("f", text)]);
    let mapped = find_multi_line_duplications(vec![FileEntry {
        name: "f".to_string(),
        content: MappedContent::Mapped(text.as_bytes()),
    }]);
    assert_eq!(owned, mapped);
}
