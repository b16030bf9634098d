use kassiber::dictionary::{Bip39Dictionary, WordDictionary};
use std::collections::HashSet;

#[test]
fn test_english_list_is_real_bip39() {
    let dict = Bip39Dictionary::english();
    assert_eq!(dict.words().len(), 2048);
    assert_eq!(dict.word_at(0).unwrap(), "abandon");
    assert_eq!(dict.word_at(2047).unwrap(), "zoo");
    let mut sorted = dict.words().clone();
    sorted.sort();
    assert_eq!(*dict.words(), sorted);
    let unique: HashSet<&String> = dict.words().iter().collect();
    assert_eq!(unique.len(), 2048);
}

#[test]
fn test_bits_per_word_is_11() {
    let dict = Bip39Dictionary::english();
    assert_eq!(dict.bits_per_word(), 11);
}

#[test]
fn test_unknown_word_is_an_error() {
    let dict = Bip39Dictionary::english();
    assert!(dict.from_natural_sentence("abandon nosuchword zoo").is_err());
    let ok = dict.from_natural_sentence("Abandon, ability. Zoo!").unwrap();
    assert_eq!(ok, vec![0, 1, 2047]);
}

// ---------------------------------------------------------------------------
// Further cases
// ---------------------------------------------------------------------------

#[test]
fn english_matches_bip39_crate() {
    let dict = Bip39Dictionary::english();
    let reference = bip39::Language::English.word_list();
    for (i, w) in reference.iter().enumerate() {
        assert_eq!(dict.words()[i], *w);
    }
}

#[test]
fn sentences_roundtrip_exact() {
    let dict = Bip39Dictionary::english();
    let indices: Vec<u16> = (0..30u16).map(|i| i * 67 % 2048).collect();
    let s = dict.to_natural_sentence(&indices);
    assert!(s.ends_with('.'));
    assert_eq!(dict.from_natural_sentence(&s).unwrap(), indices);
}

#[test]
fn sentence_grouping_exact() {
    let dict = Bip39Dictionary::english();
    let s = dict.to_natural_sentence(&[0, 1, 2, 3, 4, 5, 6, 7]);
    assert_eq!(
        s,
        "abandon ability able about above absent. absorb abstract."
    );
    assert_eq!(dict.to_natural_sentence(&[]), "");
}

#[test]
fn unknown_word_error_text() {
    let dict = Bip39Dictionary::english();
    let e = dict.from_natural_sentence("abandon Nosuchword").unwrap_err();
    assert_eq!(e.to_string(), "Unknown word: nosuchword");
}

#[test]
fn custom_dictionary_checks() {
    let e = Bip39Dictionary::new(vec!["a".to_string(); 3]).unwrap_err();
    assert_eq!(e.to_string(), "Invalid dictionary: Expected 2048 words, got 3");
    let mut words: Vec<String> = (0..2048).map(|i| format!("w{}", i)).collect();
    words[5] = "W3".to_string();
    let e = Bip39Dictionary::new(words).unwrap_err();
    assert_eq!(e.to_string(), "Invalid dictionary: Duplicate word: W3");
    let ok: Vec<String> = (0..2048).map(|i| format!("w{}", i)).collect();
    let dict = Bip39Dictionary::new(ok).unwrap();
    assert_eq!(dict.index_of("w17").unwrap(), 17);
    assert!(dict.index_of("x").is_err());
}

#[test]
fn word_at_out_of_range() {
    let dict = Bip39Dictionary::english();
    assert!(dict.word_at(2048).is_err());
    assert_eq!(dict.index_of("zoo").unwrap(), 2047);
}

#[test]
fn english_list_is_clean() {
    let dict = Bip39Dictionary::english();
    for w in dict.words() {
        assert!(!w.is_empty());
        assert!(w.chars().all(|c| c.is_ascii_lowercase()));
    }
    let unique: HashSet<&String> = dict.words().iter().collect();
    assert_eq!(unique.len(), dict.words().len());
}

#[test]
fn mixed_case_dictionary_roundtrip() {
    let words: Vec<String> = (0..2048).map(|i| format!("Word{}x", i)).collect();
    let dict = Bip39Dictionary::new(words).unwrap();
    let indices: Vec<u16> = (0..40u16).map(|i| (i * 331 + 5) % 2048).collect();
    let s = dict.to_natural_sentence(&indices);
    assert!(s.starts_with("Word5x "));
    assert_eq!(dict.from_natural_sentence(&s).unwrap(), indices);
}
