use wordhunt::trie::{dictionary_from_lines, TrieNode};

fn dictionary(words: &[&str]) -> TrieNode {
    let mut d = TrieNode::new();
    for w in words {
        d.insert(w);
    }
    d
}

#[test]
fn inserted_word_and_its_prefixes_are_found() {
    let d = dictionary(&["cat"]);
    assert!(d.is_word("cat"));
    assert!(d.has_prefix(""));
    assert!(d.has_prefix("c"));
    assert!(d.has_prefix("ca"));
    assert!(d.has_prefix("cat"));
    assert!(!d.is_word("ca"));
    assert!(!d.is_word("cats"));
    assert!(!d.has_prefix("cats"));
}

#[test]
fn foreign_prefix_is_not_found() {
    let d = dictionary(&["cat", "car", "art"]);
    assert!(!d.has_prefix("x"));
    assert!(!d.has_prefix("dog"));
    assert!(!d.has_prefix("cb"));
    assert!(!d.is_word("dog"));
}

#[test]
fn empty_dictionary_has_no_prefix() {
    let d = TrieNode::new();
    assert!(!d.has_prefix(""));
    assert!(!d.has_prefix("a"));
    assert!(!d.is_word(""));
    assert_eq!(d.len(), 0);
}

#[test]
fn inserting_twice_changes_nothing() {
    let mut d = dictionary(&["cat", "car"]);
    assert_eq!(d.len(), 1);
    d.insert("cat");
    assert_eq!(d.len(), 1);
    assert!(d.is_word("cat"));
    assert!(d.is_word("car"));
    assert!(!d.is_word("ca"));
}

#[test]
fn len_counts_first_letters() {
    let d = dictionary(&["cat", "car", "dog", "art"]);
    assert_eq!(d.len(), 3);
}

#[test]
fn empty_word_is_a_word_once_inserted() {
    let d = dictionary(&[""]);
    assert!(d.is_word(""));
    assert!(d.has_prefix(""));
    assert!(!d.has_prefix("a"));
}

#[test]
fn dictionary_from_lines_lowercases() {
    let lines = vec!["Cat".to_string(), "DOG".to_string(), "emu".to_string()];
    let d = dictionary_from_lines(&lines);
    assert!(d.is_word("cat"));
    assert!(d.is_word("dog"));
    assert!(d.is_word("emu"));
    assert!(!d.is_word("Cat"));
    assert!(!d.is_word("DOG"));
    assert_eq!(d.len(), 3);
}

#[test]
fn dictionary_from_no_lines_is_empty() {
    let d = dictionary_from_lines(&Vec::new());
    assert!(!d.has_prefix(""));
    assert_eq!(d.len(), 0);
}

#[test]
fn default_dictionary_is_empty() {
    let mut d = TrieNode::default();
    assert!(!d.has_prefix(""));
    d.insert("emu");
    assert!(d.is_word("emu"));
    assert!(d.has_prefix("em"));
}
