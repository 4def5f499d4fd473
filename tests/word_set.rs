use wordle::stream::WordFilter;
use wordle::word_set::WordSet;

fn set_of(items: &[&str]) -> WordSet {
    WordSet::from_strings(items.iter().map(|s| s.to_string()).collect())
}

#[test]
fn word_set_test_new_creates_empty_set() {
    let set = WordSet::new();
    assert!(set.is_empty());
    assert_eq!(set.len(), 0);
}

#[test]
fn test_collect_from_iter() {
    let set = set_of(&["hello", "world"]);
    assert_eq!(set.len(), 2);
    assert!(set.contains("hello"));
    assert!(set.contains("world"));
}

#[test]
fn test_collect_deduplicates() {
    let set = set_of(&["a", "b", "a", "c", "b"]);
    assert_eq!(set.len(), 3);
}

#[test]
fn test_collect_maintains_sorted_order() {
    let set = set_of(&["cherry", "apple", "banana"]);
    assert_eq!(set.into_vec(), vec!["apple", "banana", "cherry"]);
}

#[test]
fn word_set_test_contains() {
    let set = set_of(&["hello", "world"]);
    assert!(set.contains("hello"));
    assert!(set.contains("world"));
    assert!(!set.contains("foo"));
    assert!(!set.contains(""));
}

#[test]
fn word_set_test_single_element() {
    let set = set_of(&["only"]);
    assert_eq!(set.len(), 1);
    assert!(set.contains("only"));
    assert_eq!(set.into_vec(), vec!["only"]);
}

#[test]
fn word_set_test_equality() {
    let set1 = set_of(&["a", "b"]);
    let set2 = set_of(&["b", "a"]);
    let set3 = set_of(&["a", "c"]);
    assert_eq!(set1, set2);
    assert_ne!(set1, set3);
}

#[test]
fn word_set_test_clone() {
    let set = set_of(&["a", "b", "c"]);
    let cloned = set.clone();
    assert_eq!(set, cloned);
}

#[test]
fn collection_order_is_the_collation_rule() {
    let set = set_of(&["banana", "APPLE", "apple", "Apple"]);
    assert_eq!(set.into_vec(), vec!["apple", "Apple", "APPLE", "banana"]);
}

#[test]
fn insert_reports_new_texts() {
    let mut set = WordSet::new();
    assert!(set.insert("x".to_string()));
    assert!(!set.insert("x".to_string()));
    assert!(set.insert("X".to_string()));
    assert_eq!(set.len(), 2);
}

#[test]
fn test_merge_with() {
    let merged = set_of(&["a", "b"]).merge_with(set_of(&["c", "d"]));
    assert_eq!(merged.len(), 4);
    assert!(merged.contains("a"));
    assert!(merged.contains("b"));
    assert!(merged.contains("c"));
    assert!(merged.contains("d"));
}

#[test]
fn test_merge_with_overlapping() {
    let merged = set_of(&["a", "b", "c"]).merge_with(set_of(&["b", "c", "d"]));
    assert_eq!(merged.len(), 4);
    assert_eq!(merged.into_vec(), vec!["a", "b", "c", "d"]);
}

#[test]
fn mod_test_merge_with_empty() {
    let merged = set_of(&["a", "b"]).merge_with(WordSet::new());
    assert_eq!(merged.len(), 2);
}

#[test]
fn test_merge_maintains_sorted_order() {
    let merged = set_of(&["zebra", "apple"]).merge_with(set_of(&["mango", "banana"]));
    assert_eq!(merged.into_vec(), vec!["apple", "banana", "mango", "zebra"]);
}

#[test]
fn mod_test_filter_by_length() {
    let filtered = set_of(&["a", "bb", "ccc", "dddd"]).filter(&WordFilter::CharCount(3));
    assert_eq!(filtered.len(), 1);
    assert!(filtered.contains("ccc"));
}

#[test]
fn test_filter_custom_predicate() {
    let filtered = set_of(&["apple", "apricot", "banana", "avocado"]).filter(&WordFilter::StartsWithAny(vec!['a']));
    assert_eq!(filtered.len(), 3);
    assert!(filtered.contains("apple"));
    assert!(filtered.contains("apricot"));
    assert!(filtered.contains("avocado"));
    assert!(!filtered.contains("banana"));
}

#[test]
fn test_filter_returns_empty() {
    let filtered = set_of(&["hello", "world"]).filter(&WordFilter::MinChars(101));
    assert!(filtered.is_empty());
}

#[test]
fn test_filter_alphabetic() {
    let set = set_of(&["hello", "world123", "test", "foo-bar", "valid", "", "123"]);
    let filtered = set.filter_alphabetic();
    assert_eq!(filtered.len(), 3);
    assert!(filtered.contains("hello"));
    assert!(filtered.contains("test"));
    assert!(filtered.contains("valid"));
    assert!(!filtered.contains("world123"));
    assert!(!filtered.contains("foo-bar"));
}

#[test]
fn test_filter_alphabetic_with_unicode() {
    let filtered = set_of(&["cafe", "hello", "test1"]).filter_alphabetic();
    assert_eq!(filtered.len(), 2);
    assert!(filtered.contains("cafe"));
    assert!(filtered.contains("hello"));
}

#[test]
fn mod_test_to_lowercase() {
    let mut set = set_of(&["HELLO", "World", "rust"]);
    set.to_lowercase();
    assert!(set.contains("hello"));
    assert!(set.contains("world"));
    assert!(set.contains("rust"));
    assert!(!set.contains("HELLO"));
    assert!(!set.contains("World"));
}

#[test]
fn test_to_lowercase_deduplicates() {
    let mut set = set_of(&["Hello", "HELLO", "hello"]);
    set.to_lowercase();
    assert_eq!(set.len(), 1);
    assert!(set.contains("hello"));
}
