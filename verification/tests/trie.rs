use treapkit::trie::{AssociativeArray, Trie};

#[test]
fn trie_holds_words_and_their_starts() {
    let mut trie = Trie::new();
    trie.insert("car");
    trie.insert("card");
    trie.insert("care");
    trie.insert("dog");
    assert!(trie.search("car"));
    assert!(trie.search("card"));
    assert!(!trie.search("ca"));
    assert!(!trie.search("cards"));
    assert!(!trie.search(""));
    assert!(trie.starts_with("ca"));
    assert!(trie.starts_with(""));
    assert!(trie.starts_with("dog"));
    assert!(!trie.starts_with("do g"));
    assert!(!trie.starts_with("x"));
}

#[test]
fn trie_delete_prunes_what_no_word_needs() {
    let mut trie = Trie::new();
    trie.insert("car");
    trie.insert("card");
    trie.insert("dog");
    assert!(trie.delete("card"));
    assert!(!trie.delete("card"));
    assert!(!trie.search("card"));
    assert!(trie.search("car"));
    assert!(!trie.starts_with("card"));
    assert!(trie.delete("dog"));
    assert!(!trie.starts_with("d"));
    assert!(!trie.delete("ca"));
    assert!(trie.starts_with("ca"));
    assert!(trie.delete("car"));
    assert!(!trie.starts_with("c"));
    assert!(!trie.delete(""));
    trie.insert("");
    assert!(trie.search(""));
    assert!(trie.delete(""));
}

#[test]
fn trie_deletes_only_words_of_one_byte_characters() {
    let mut trie = Trie::new();
    trie.insert("héllo");
    assert!(trie.search("héllo"));
    assert!(!trie.delete("héllo"));
    assert!(trie.search("héllo"));
}

#[test]
fn associative_array_maps_words_to_values() {
    let mut array = AssociativeArray::new();
    array.insert("one", 1);
    array.insert("two", 2);
    array.insert("on", 0);
    assert_eq!(array.get("one"), Some(&1));
    assert_eq!(array.get("on"), Some(&0));
    assert_eq!(array.get("o"), None);
    assert_eq!(array.get("three"), None);
    array.insert("one", 11);
    assert_eq!(array.get("one"), Some(&11));
    assert!(array.starts_with("tw"));
    assert!(!array.starts_with("th"));
    assert!(array.delete("one"));
    assert!(!array.delete("one"));
    assert_eq!(array.get("one"), None);
    assert_eq!(array.get("on"), Some(&0));
    assert!(array.delete("on"));
    assert!(!array.starts_with("o"));
    assert_eq!(array.get("two"), Some(&2));
}

#[test]
fn a_new_trie_has_only_the_empty_path() {
    let trie = Trie::new();
    assert!(trie.starts_with(""));
    assert!(!trie.starts_with("a"));
    assert!(!trie.search(""));
    assert!(!trie.search("a"));
}
