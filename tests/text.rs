use textalyzer::file_utils::is_text_content;
use textalyzer::text::{normalized_block, split_into_lines, trim_chars};
use textalyzer::types::MappedContent;

fn chars_of(s: &str) -> Vec<char> {
    s.chars().collect()
}

fn string_of(v: &Vec<char>) -> String {
    v.iter().collect()
}

fn lines(s: &str) -> Vec<String> {
    split_into_lines(&chars_of(s)).iter().map(string_of).collect()
}

#[test]
fn lines_split_like_str_lines() {
    assert_eq!(lines("a\r\nb\n\nc"), vec!["a", "b", "", "c"]);
    assert_eq!(lines("a\n"), vec!["a"]);
    assert!(lines("").is_empty());
    assert_eq!(lines("x\r"), vec!["x\r"]);
}

#[test]
fn trimming_removes_unicode_white_space() {
    let t = trim_chars(&chars_of("\u{3000} \tword word\u{a0}\n"));
    assert_eq!(string_of(&t), "word word");
}

#[test]
fn normalization_strips_common_indentation() {
    let ls = split_into_lines(&chars_of("    a\n\n      b\n"));
    let ts: Vec<Vec<char>> = ls.iter().map(trim_chars).collect();
    let block = normalized_block(&ls, &ts, 0, 3);
    assert_eq!(string_of(&block), "a\n\n  b");
}

#[test]
fn text_content_rejects_nul_and_invalid_utf8() {
    assert!(is_text_content(b"plain text\n"));
    assert!(is_text_content(b""));
    assert!(!is_text_content(b"bin\0ary"));
    assert!(!is_text_content(&[0xc3, 0x28]));
}

#[test]
fn mapped_content_is_read_when_valid() {
    let ok = MappedContent::Mapped(b"hi\n");
    assert_eq!(ok.as_str(), Some("hi\n"));
    assert_eq!(ok.to_string(), Some("hi\n".to_string()));
    let bad = MappedContent::Mapped(&[0xff]);
    assert_eq!(bad.as_str(), None);
    let s = MappedContent::String("owned".to_string());
    assert_eq!(s.as_str(), Some("owned"));
}

#[test]
fn mapped_content_compares_with_strings() {
    let m = MappedContent::Mapped(b"Test content 1");
    assert!(m == *"Test content 1");
    assert!(m == "Test content 1");
    assert!(m == "Test content 1".to_string());
    assert!(!(m == "Test content 2"));
    let bad = MappedContent::Mapped(&[0xff]);
    assert!(!(bad == ""));
}
