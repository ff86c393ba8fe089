use std::collections::HashMap;
use textalyzer::frequency::{generate_frequency_map, sort_frequency_items, split_words, tally};
use textalyzer::FrequencyItem;

#[test]
fn lib_generate_frequency_map_from_text() {
    let text = "Hello World! A warm welcome to the world.";
    let frequency_map = generate_frequency_map(&text);
    let expected_map = [
        (String::from("a"), 1),
        (String::from("hello"), 1),
        (String::from("the"), 1),
        (String::from("to"), 1),
        (String::from("warm"), 1),
        (String::from("welcome"), 1),
        (String::from("world"), 2),
    ]
    .iter()
    .cloned()
    .collect();

    assert_eq!(frequency_map, expected_map);
}

#[test]
fn frequency_generate_frequency_map_from_text() {
    let text = "Hello World! A warm welcome to the world.";
    let frequency_map = generate_frequency_map(&text);
    let expected_map = [
        (String::from("a"), 1),
        (String::from("hello"), 1),
        (String::from("the"), 1),
        (String::from("to"), 1),
        (String::from("warm"), 1),
        (String::from("welcome"), 1),
        (String::from("world"), 2),
    ]
    .iter()
    .cloned()
    .collect();

    assert_eq!(frequency_map, expected_map);
}

#[test]
fn frequency_of_documented_example() {
    let freq_map = generate_frequency_map("This test is a test to test the frequency map.");
    let expected_map: HashMap<String, i32> = vec![
        ("this", 1),
        ("test", 3),
        ("is", 1),
        ("a", 1),
        ("to", 1),
        ("the", 1),
        ("frequency", 1),
        ("map", 1),
    ]
    .into_iter()
    .map(|(s, n)| (String::from(s), n))
    .collect();
    assert_eq!(freq_map, expected_map);
}

#[test]
fn words_split_at_non_alphabetic_characters() {
    assert_eq!(split_words("Über-cool, naïve42text!"), vec!["Über", "cool", "naïve", "text"]);
    assert!(split_words("").is_empty());
    assert!(split_words("123 !?").is_empty());
}

#[test]
fn words_are_lowercased_before_counting() {
    let m = generate_frequency_map("ÄPFEL äpfel Äpfel");
    assert_eq!(m.len(), 1);
    assert_eq!(m["äpfel"], 3);
}

#[test]
fn tally_counts_in_order_of_first_occurrence() {
    let words: Vec<String> = vec!["b".into(), "a".into(), "b".into()];
    let items = tally(&words);
    assert_eq!(items.len(), 2);
    assert_eq!((items[0].word.as_str(), items[0].count), ("b", 2));
    assert_eq!((items[1].word.as_str(), items[1].count), ("a", 1));
}

#[test]
fn frequency_items_are_listed_by_count_then_word() {
    let items = vec![
        FrequencyItem { word: "pear".to_string(), count: 2 },
        FrequencyItem { word: "apple".to_string(), count: 2 },
        FrequencyItem { word: "zebra".to_string(), count: 5 },
        FrequencyItem { word: "äpfel".to_string(), count: 2 },
    ];
    let sorted: Vec<(String, i32)> = sort_frequency_items(items).into_iter().map(|i| (i.word, i.count)).collect();
    assert_eq!(
        sorted,
        vec![
            ("zebra".to_string(), 5),
            ("apple".to_string(), 2),
            ("pear".to_string(), 2),
            ("äpfel".to_string(), 2),
        ]
    );
}

#[test]
fn frequency_accepts_long_runs_of_separators() {
    let text = format!("{}word", " ".repeat(1000));
    let m = generate_frequency_map(&text);
    assert_eq!(m.len(), 1);
    assert_eq!(m["word"], 1);
}
