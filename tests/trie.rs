use trie::Trie;

#[test]
fn it_works() {
    let mut trie = Trie::new();
    trie.insert("hello".to_string(), 10);
    trie.insert("world".to_string(), 20);
    trie.insert("rust".to_string(), 30);
    let expected = vec![Some(10), Some(20), Some(30), None];
    for (key, want) in vec!["hello", "world", "rust", "foo"].into_iter().zip(expected) {
        assert_eq!(trie.get(key), want);
    }
}

#[test]
fn new_table_is_empty() {
    let trie: Trie<i32> = Trie::new();
    assert_eq!(trie.get(""), None);
    assert_eq!(trie.get("a"), None);
}

#[test]
fn prefix_of_a_key_is_absent() {
    let mut trie = Trie::new();
    trie.insert("hello".to_string(), 1);
    assert_eq!(trie.get("hell"), None);
    assert_eq!(trie.get("h"), None);
    assert_eq!(trie.get(""), None);
    assert_eq!(trie.get("hello"), Some(1));
}

#[test]
fn extension_of_a_key_is_absent() {
    let mut trie = Trie::new();
    trie.insert("hell".to_string(), 1);
    assert_eq!(trie.get("hello"), None);
    assert_eq!(trie.get("hell"), Some(1));
}

#[test]
fn prefix_and_longer_key_both_stored() {
    let mut trie = Trie::new();
    trie.insert("hello".to_string(), 5);
    trie.insert("hell".to_string(), 4);
    assert_eq!(trie.get("hell"), Some(4));
    assert_eq!(trie.get("hello"), Some(5));
    assert_eq!(trie.get("help"), None);
}

#[test]
fn overwrite_keeps_latest_value() {
    let mut trie = Trie::new();
    trie.insert("key".to_string(), 1);
    trie.insert("key".to_string(), 2);
    assert_eq!(trie.get("key"), Some(2));
}

#[test]
fn last_insert_of_each_key_wins() {
    let mut trie = Trie::new();
    trie.insert("a".to_string(), 1);
    trie.insert("ab".to_string(), 2);
    trie.insert("a".to_string(), 3);
    trie.insert("b".to_string(), 4);
    assert_eq!(trie.get("a"), Some(3));
    assert_eq!(trie.get("ab"), Some(2));
    assert_eq!(trie.get("b"), Some(4));
}

#[test]
fn never_inserted_keys_are_absent() {
    let mut trie = Trie::new();
    trie.insert("abc".to_string(), 1);
    trie.insert("abd".to_string(), 2);
    assert_eq!(trie.get("abe"), None);
    assert_eq!(trie.get("x"), None);
    assert_eq!(trie.get("abcd"), None);
}

#[test]
fn empty_key_stores_at_root() {
    let mut trie = Trie::new();
    trie.insert("a".to_string(), 7);
    trie.insert(String::new(), 9);
    assert_eq!(trie.get(""), Some(9));
    assert_eq!(trie.get("a"), Some(7));
    assert_eq!(trie.get("b"), None);
}

#[test]
fn repeated_lookups_agree() {
    let mut trie = Trie::new();
    trie.insert("stable".to_string(), String::from("v"));
    let first = trie.get("stable");
    let second = trie.get("stable");
    assert_eq!(first, second);
    assert_eq!(first, Some(String::from("v")));
    assert_eq!(trie.get("other"), trie.get("other"));
}

#[test]
fn non_ascii_keys() {
    let mut trie = Trie::new();
    trie.insert("héllo".to_string(), 1);
    trie.insert("日本".to_string(), 2);
    assert_eq!(trie.get("héllo"), Some(1));
    assert_eq!(trie.get("hello"), None);
    assert_eq!(trie.get("日本"), Some(2));
    assert_eq!(trie.get("日"), None);
}

#[test]
fn returned_value_is_a_copy() {
    let mut trie = Trie::new();
    trie.insert("v".to_string(), vec![1, 2]);
    let mut got = trie.get("v").unwrap();
    got.push(3);
    assert_eq!(trie.get("v"), Some(vec![1, 2]));
}

#[test]
fn very_long_key() {
    let long: String = "ab".repeat(5_000);
    let mut trie = Trie::new();
    trie.insert(long.clone(), 1);
    trie.insert(long[..long.len() - 1].to_string(), 2);
    assert_eq!(trie.get(&long), Some(1));
    assert_eq!(trie.get(&long[..long.len() - 1]), Some(2));
    assert_eq!(trie.get(&long[..long.len() - 2]), None);
}
