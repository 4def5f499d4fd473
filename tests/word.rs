use wordle::word::Word;

#[test]
fn test_ord_case_fold() {
    let apple = Word("apple".to_string());
    let apple_cap = Word("Apple".to_string());
    let apple_upper = Word("APPLE".to_string());
    let banana = Word("banana".to_string());
    assert!(apple < apple_cap);
    assert!(apple_cap < apple_upper);
    assert!(apple_upper < banana);
}

#[test]
fn test_from_string() {
    let w: Word = "hello".to_string().into();
    assert_eq!(w.0, "hello");
}

#[test]
fn test_into_string() {
    let w = Word("hello".to_string());
    let s: String = w.into();
    assert_eq!(s, "hello");
}

#[test]
fn test_as_ref() {
    let w = Word("hello".to_string());
    let s: &str = w.as_ref();
    assert_eq!(s, "hello");
}
