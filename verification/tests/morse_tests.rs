use sketchbook::morse::{
    dash_run, dot_dash_sequence, find_balanced, find_palindromes, find_possible, smorse, CodeSet,
    MorseTable, WordCodes,
};
use std::collections::HashMap;

const CODES: [&str; 26] = [
    ".-", "-...", "-.-.", "-..", ".", "..-.", "--.", "....", "..", ".---", "-.-", ".-..", "--",
    "-.", "---", ".--.", "--.-", ".-.", "...", "-", "..-", "...-", ".--", "-..-", "-.--", "--..",
];

fn table() -> MorseTable {
    let mut morse = MorseTable::new();
    for (i, code) in CODES.iter().enumerate() {
        let c = (b'a' + i as u8) as char;
        morse.insert(c, code.to_string());
    }
    morse
}

fn index(words: &[&str]) -> (HashMap<usize, Vec<String>>, WordCodes) {
    let morse = table();
    let mut word_to_smorse = WordCodes::new();
    let mut word_lengths: HashMap<usize, Vec<String>> = HashMap::new();
    for w in words {
        word_to_smorse.insert(w.to_string(), smorse(&morse, w));
        word_lengths.entry(w.chars().count()).or_default().push(w.to_string());
    }
    (word_lengths, word_to_smorse)
}

#[test]
fn smorse_examples() {
    let morse = table();
    assert_eq!(smorse(&morse, "sos"), "...---...");
    assert_eq!(smorse(&morse, "daily"), "-...-...-..-.--");
    assert_eq!(smorse(&morse, "programmer"), ".--..-.-----..-..-----..-.");
    assert_eq!(smorse(&morse, "bits"), "-.....-...");
    assert_eq!(smorse(&morse, "three"), "-.....-...");
}

#[test]
fn smorse_empty_text() {
    assert_eq!(smorse(&table(), ""), "");
}

#[test]
fn smorse_four_words_one_code() {
    let morse = table();
    for w in ["needing", "nervate", "niding", "tiling"] {
        assert_eq!(smorse(&morse, w), "-...-....-.--.");
    }
}

#[test]
fn morse_table_insert_replaces() {
    let mut morse = MorseTable::new();
    assert!(morse.get('a').is_none());
    morse.insert('a', ".-".to_string());
    morse.insert('a', "--".to_string());
    assert_eq!(morse.get('a').unwrap(), "--");
    assert_eq!(smorse(&morse, "aa"), "----");
}

#[test]
fn dash_run_autotomous() {
    let code = smorse(&table(), "autotomous");
    assert_eq!(code, ".-..--------------..-...");
    assert_eq!(dash_run(&code), 14);
    assert_eq!(dash_run(""), 0);
    assert_eq!(dash_run("-.--.---"), 3);
}

#[test]
fn balanced_counterdemonstrations() {
    let (lengths, codes) = index(&["counterdemonstrations", "overcommercialization", "abc"]);
    let found = find_balanced(&21, &lengths, &codes);
    assert_eq!(found, vec!["counterdemonstrations".to_string(), "overcommercialization".to_string()]);
    let none = find_balanced(&3, &lengths, &codes);
    assert!(none.is_empty());
}

#[test]
fn palindrome_protectorate() {
    let (lengths, codes) = index(&["protectorate", "programmeria"]);
    assert_eq!(
        codes.get("protectorate").unwrap(),
        ".--..-.----.-.-.----.-..--."
    );
    let found = find_palindromes(&12, &lengths, &codes);
    assert_eq!(found, vec!["protectorate".to_string()]);
}

#[test]
fn palindromes_short_length_gives_nothing() {
    let (lengths, codes) = index(&["e"]);
    assert!(find_palindromes(&1, &lengths, &codes).is_empty());
    assert!(find_palindromes(&0, &lengths, &codes).is_empty());
}

#[test]
fn palindrome_two_letter_code() {
    let (lengths, codes) = index(&["ee", "et"]);
    let found = find_palindromes(&2, &lengths, &codes);
    assert_eq!(found, vec!["ee".to_string()]);
}

#[test]
fn possible_sequences_of_length_two() {
    let codes: Vec<&str> = CODES.to_vec();
    let mut possible = CodeSet::new();
    let mut searched = CodeSet::new();
    find_possible(&codes, 2, String::new(), &mut possible, &mut searched);
    assert_eq!(possible.len(), 4);
    for s in ["..", ".-", "-.", "--"] {
        assert!(possible.contains(s));
    }
    assert!(searched.contains(""));
    assert!(searched.contains("."));
    assert!(searched.contains("-"));
    assert_eq!(searched.len(), 3);
}

#[test]
fn searched_prefixes_are_not_searched_again() {
    let codes: Vec<&str> = vec![".", "-"];
    let mut possible = CodeSet::new();
    let mut searched = CodeSet::new();
    searched.insert(".".to_string());
    for done in ["...", "..-", ".-.", ".--"] {
        possible.insert(done.to_string());
    }
    find_possible(&codes, 3, String::new(), &mut possible, &mut searched);
    // "." counts as searched already, so nothing below it is explored.
    assert!(!searched.contains(".."));
    assert!(!searched.contains(".-"));
    assert!(searched.contains("-."));
    assert!(searched.contains("--"));
    assert_eq!(searched.len(), 5);
    assert_eq!(possible.len(), 8);
    assert!(possible.contains("-.-"));
}

#[test]
fn possible_sequences_count_by_length() {
    let codes: Vec<&str> = CODES.to_vec();
    for len in 1..8usize {
        let mut possible = CodeSet::new();
        let mut searched = CodeSet::new();
        find_possible(&codes, len, String::new(), &mut possible, &mut searched);
        assert_eq!(possible.len(), 1 << len);
    }
}

#[test]
fn possible_with_only_long_codes() {
    let codes: Vec<&str> = vec!["---"];
    let mut possible = CodeSet::new();
    let mut searched = CodeSet::new();
    find_possible(&codes, 4, String::new(), &mut possible, &mut searched);
    assert_eq!(possible.len(), 0);
    let mut searched = CodeSet::new();
    find_possible(&codes, 6, String::new(), &mut possible, &mut searched);
    assert_eq!(possible.len(), 1);
    assert!(possible.contains("------"));
}

#[test]
fn dot_dash_sequences() {
    assert_eq!(dot_dash_sequence(0, 3), "...");
    assert_eq!(dot_dash_sequence(1, 3), "-..");
    assert_eq!(dot_dash_sequence(6, 3), ".--");
    assert_eq!(dot_dash_sequence(0b1011011101101, 13), "-.--.---.--.-");
    assert_eq!(dot_dash_sequence(5, 0), "");
}

#[test]
fn search_from_any_searched_set_reaches_only_unsearched_branches() {
    let codes: Vec<&str> = vec![".", "-"];
    let mut possible = CodeSet::new();
    let mut searched = CodeSet::new();
    searched.insert(".".to_string());
    find_possible(&codes, 3, String::new(), &mut possible, &mut searched);
    assert_eq!(possible.len(), 4);
    for s in ["-..", "-.-", "--.", "---"] {
        assert!(possible.contains(s));
    }
    assert!(!possible.contains("..."));
    assert_eq!(searched.len(), 5);
}

#[test]
fn search_that_stops_at_once_accepts_any_codes() {
    let codes: Vec<&str> = vec!["", "-"];
    let mut possible = CodeSet::new();
    let mut searched = CodeSet::new();
    find_possible(&codes, 2, "...".to_string(), &mut possible, &mut searched);
    assert_eq!(possible.len(), 0);
    assert_eq!(searched.len(), 0);
    find_possible(&codes, 2, "..".to_string(), &mut possible, &mut searched);
    assert!(possible.contains(".."));
    searched.insert(".".to_string());
    find_possible(&codes, 2, ".".to_string(), &mut possible, &mut searched);
    assert_eq!(possible.len(), 1);
    assert_eq!(searched.len(), 1);
}
