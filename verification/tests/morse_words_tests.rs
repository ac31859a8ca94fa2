use sketchbook::morse::{CodeSet, MorseTable};
use sketchbook::morse_words::{codes_by_count, group_by_code, longest_dash_code, unused_sequences};

const CODES: [&str; 26] = [
    ".-", "-...", "-.-.", "-..", ".", "..-.", "--.", "....", "..", ".---", "-.-", ".-..", "--",
    "-.", "---", ".--.", "--.-", ".-.", "...", "-", "..-", "...-", ".--", "-..-", "-.--", "--..",
];

fn table() -> MorseTable {
    let mut morse = MorseTable::new();
    for (i, code) in CODES.iter().enumerate() {
        morse.insert((b'a' + i as u8) as char, code.to_string());
    }
    morse
}

fn strings(v: &[&str]) -> Vec<String> {
    v.iter().map(|s| s.to_string()).collect()
}

#[test]
fn words_sharing_a_code_are_grouped() {
    let words = strings(&["bits", "sos", "three", "daily"]);
    let groups = group_by_code(&words, &table());
    assert_eq!(groups.len(), 3);
    let shared = groups.iter().find(|(c, _)| c == "-.....-...").unwrap();
    assert_eq!(shared.1, strings(&["bits", "three"]));
    let sos = groups.iter().find(|(c, _)| c == "...---...").unwrap();
    assert_eq!(sos.1, strings(&["sos"]));
}

#[test]
fn the_needing_code_is_shared_by_four_words() {
    let words = strings(&["needing", "nervate", "niding", "tiling", "sos"]);
    let groups = group_by_code(&words, &table());
    let by_count = codes_by_count(&groups);
    assert_eq!(by_count.len(), 2);
    assert_eq!(by_count[0].0, 4);
    assert_eq!(by_count[0].1, strings(&["-...-....-.--."]));
    assert_eq!(by_count[1].0, 1);
    assert_eq!(by_count[1].1, strings(&["...---..."]));
}

#[test]
fn counts_come_largest_first() {
    let groups = vec![
        ("a".to_string(), strings(&["1"])),
        ("b".to_string(), strings(&["1", "2", "3"])),
        ("c".to_string(), strings(&["1"])),
        ("d".to_string(), strings(&["1", "2"])),
    ];
    let by_count = codes_by_count(&groups);
    let counts: Vec<usize> = by_count.iter().map(|(n, _)| *n).collect();
    assert_eq!(counts, vec![3, 2, 1]);
    assert_eq!(by_count[2].1, strings(&["a", "c"]));
    assert!(codes_by_count(&vec![]).is_empty());
}

#[test]
fn autotomous_has_fourteen_dashes_in_a_row() {
    let words = strings(&["autotomous", "sos", "daily"]);
    let groups = group_by_code(&words, &table());
    let codes: Vec<String> = groups.iter().map(|(c, _)| c.clone()).collect();
    let (run, code) = longest_dash_code(&codes, 20).unwrap();
    assert_eq!(run, 14);
    assert_eq!(code, ".-..--------------..-...");
}

#[test]
fn longest_dash_code_prefers_longer_then_earlier() {
    let codes = strings(&["--..", "..--", ".--..", "-"]);
    assert_eq!(longest_dash_code(&codes, 0), Some((2, ".--..".to_string())));
    let codes = strings(&["--..", "..--"]);
    assert_eq!(longest_dash_code(&codes, 0), Some((2, "--..".to_string())));
    let codes = strings(&["-----", "--"]);
    assert_eq!(longest_dash_code(&codes, 3), Some((5, "-----".to_string())));
    assert_eq!(longest_dash_code(&codes, 6), None);
    assert_eq!(longest_dash_code(&strings(&["...."]), 0), None);
}

#[test]
fn unused_sequences_skip_the_used_ones() {
    let mut used = CodeSet::new();
    used.insert("..".to_string());
    used.insert("-.".to_string());
    assert_eq!(unused_sequences(2, &used), strings(&[".-", "--"]));
    assert_eq!(unused_sequences(3, &CodeSet::new()).len(), 8);
}
