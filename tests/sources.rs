use wordle::entry::Entry;
use wordle::sources::{from_csv, from_csv_zstd, from_sorted_reader, from_sorted_zst, from_txt, from_txt_zstd, from_unsorted_reader};
use wordle::stream::WordStream;

fn words(mut stream: WordStream) -> Vec<String> {
    let mut out = Vec::new();
    while let Some(e) = stream.next() {
        match e {
            Entry::Word(w) => out.push(w.0),
            other => panic!("unexpected entry: {:?}", other),
        }
    }
    out
}

fn compress(data: &[u8]) -> Vec<u8> {
    zstd::encode_all(data, 0).unwrap()
}

fn text(data: &[u8]) -> &str {
    std::str::from_utf8(data).unwrap()
}

#[test]
fn test_sorts_unsorted() {
    let data = b"cherry\napple\nbanana\n";
    let stream = from_txt(text(data));
    assert_eq!(words(stream), vec!["apple", "banana", "cherry"]);
}

#[test]
fn txt_test_case_fold_sorting() {
    let data = b"APPLE\napple\nApple\nbanana\n";
    let stream = from_txt(text(data));
    assert_eq!(words(stream), vec!["apple", "Apple", "APPLE", "banana"]);
}

#[test]
fn txt_test_skips_empty_lines() {
    let data = b"cherry\n\napple\n  \nbanana\n";
    let stream = from_txt(text(data));
    assert_eq!(words(stream), vec!["apple", "banana", "cherry"]);
}

#[test]
fn txt_test_trims_whitespace() {
    let data = b"  cherry  \n  apple\nbanana  \n";
    let stream = from_txt(text(data));
    assert_eq!(words(stream), vec!["apple", "banana", "cherry"]);
}

#[test]
fn test_empty() {
    let data = b"";
    let stream = from_txt(text(data));
    assert!(words(stream).is_empty());
}

#[test]
fn txt_test_german_umlauts_sorting() {
    let data = "Ärger\närger\nbär\nÄRGER\n".as_bytes();
    let stream = from_txt(text(data));
    assert_eq!(words(stream), vec!["bär", "ärger", "Ärger", "ÄRGER"]);
}

#[test]
fn test_txt_zstd() {
    let data = compress(b"cherry\napple\nbanana\n");
    let stream = from_txt_zstd(&data).unwrap();
    assert_eq!(words(stream), vec!["apple", "banana", "cherry"]);
}

#[test]
fn test_txt_zstd_case_fold_sorting() {
    let data = compress(b"APPLE\napple\nApple\nbanana\n");
    let stream = from_txt_zstd(&data).unwrap();
    assert_eq!(words(stream), vec!["apple", "Apple", "APPLE", "banana"]);
}

#[test]
fn test_txt_zstd_invalid() {
    let data = b"not valid zstd data";
    let result = from_txt_zstd(data);
    assert!(result.is_err());
}

#[test]
fn csv_test_basic_csv() {
    let data = b"apple,1,ignored\nbanana,2,data\ncherry,3,here\n";
    let stream = from_csv(data).unwrap();
    assert_eq!(words(stream), vec!["apple", "banana", "cherry"]);
}

#[test]
fn csv_test_csv_with_quotes() {
    let data = b"\"hello,world\",ignored\ntest,data\n";
    let stream = from_csv(data).unwrap();
    assert_eq!(words(stream), vec!["hello,world", "test"]);
}

#[test]
fn csv_test_csv_with_spaces() {
    let data = b"  apple  ,data\n  banana,more\ncherry  ,stuff\n";
    let stream = from_csv(data).unwrap();
    assert_eq!(words(stream), vec!["apple", "banana", "cherry"]);
}

#[test]
fn csv_test_csv_empty_first_field() {
    let data = b"apple,1\n,empty\nbanana,2\n";
    let stream = from_csv(data).unwrap();
    assert_eq!(words(stream), vec!["apple", "banana"]);
}

#[test]
fn csv_test_csv_sorts_words() {
    let data = b"cherry,1\napple,2\nbanana,3\n";
    let stream = from_csv(data).unwrap();
    assert_eq!(words(stream), vec!["apple", "banana", "cherry"]);
}

#[test]
fn csv_test_csv_case_fold_sorting() {
    let data = b"APPLE,1\napple,2\nApple,3\nbanana,4\n";
    let stream = from_csv(data).unwrap();
    assert_eq!(words(stream), vec!["apple", "Apple", "APPLE", "banana"]);
}

#[test]
fn test_csv_empty() {
    let data = b"";
    let stream = from_csv(data).unwrap();
    assert!(words(stream).is_empty());
}

#[test]
fn csv_test_csv_single_column() {
    let data = b"apple\nbanana\ncherry\n";
    let stream = from_csv(data).unwrap();
    assert_eq!(words(stream), vec!["apple", "banana", "cherry"]);
}

#[test]
fn test_csv_zstd() {
    let data = compress(b"cherry,1\napple,2\nbanana,3\n");
    let stream = from_csv_zstd(&data).unwrap();
    assert_eq!(words(stream), vec!["apple", "banana", "cherry"]);
}

#[test]
fn test_csv_zstd_invalid() {
    let data = b"not valid zstd data";
    let result = from_csv_zstd(data);
    assert!(result.is_err());
}

#[test]
fn malformed_csv_is_a_read_error() {
    let data = b"a,b\nc\n";
    let result = from_csv(data);
    assert!(result.is_err());
}

#[test]
fn sorted_file_test_read_sorted_file() {
    let stream = from_sorted_reader("apple\nbanana\ncherry\n");
    assert_eq!(words(stream), vec!["apple", "banana", "cherry"]);
}

#[test]
fn sorted_file_test_skips_empty_lines() {
    let stream = from_sorted_reader("apple\n\nbanana\n  \ncherry\n");
    assert_eq!(words(stream), vec!["apple", "banana", "cherry"]);
}

#[test]
fn sorted_file_test_trims_whitespace() {
    let stream = from_sorted_reader("  apple  \n  banana\ncherry  \n");
    assert_eq!(words(stream), vec!["apple", "banana", "cherry"]);
}

#[test]
fn sorted_file_test_unsorted_file_panics() {
    let mut stream = from_sorted_reader("banana\napple\n");
    match stream.next() {
        Some(Entry::Unsorted(a, b)) => {
            assert_eq!(a.0, "banana");
            assert_eq!(b.0, "apple");
        }
        other => panic!("expected the unsorted report, got {:?}", other),
    }
    assert!(stream.next().is_none());
}

#[test]
fn sorted_file_test_empty_file() {
    let stream = from_sorted_reader("");
    assert!(words(stream).is_empty());
}

#[test]
fn test_read_sorted_zst_file() {
    let data = compress(b"apple\nbanana\ncherry\n");
    let stream = from_sorted_zst(&data).unwrap();
    assert_eq!(words(stream), vec!["apple", "banana", "cherry"]);
}

#[test]
fn test_zst_skips_empty_lines() {
    let data = compress(b"apple\n\nbanana\n  \ncherry\n");
    let stream = from_sorted_zst(&data).unwrap();
    assert_eq!(words(stream), vec!["apple", "banana", "cherry"]);
}

#[test]
fn unsorted_source_end_to_end() {
    for input in ["cherry\napple\nbanana\n", "banana\ncherry\napple\n", "apple\nbanana\ncherry"] {
        assert_eq!(words(from_unsorted_reader(input)), vec!["apple", "banana", "cherry"]);
    }
}

#[test]
fn crlf_lines_are_split() {
    let stream = from_sorted_reader("apple\r\nbanana\r\n");
    assert_eq!(words(stream), vec!["apple", "banana"]);
}

#[test]
fn davidak_list_drops_its_removed_words() {
    let data = compress("Ōsaka\nhello\nœuvre\napple\n".as_bytes());
    let stream = wordle::data::davidak::load(&data).unwrap();
    assert_eq!(words(stream), vec!["apple", "hello"]);
}

#[test]
fn dwds_list_reads_the_first_column() {
    let data = compress(b"zebra,1\nApfel,2\n");
    let stream = wordle::data::dwds_lemmata::load(&data).unwrap();
    assert_eq!(words(stream), vec!["Apfel", "zebra"]);
}

#[test]
fn german_wordlist_keeps_five_letter_words() {
    let data = compress(b"hello\nhi\nWORLD\n12345\n");
    let pool = wordle::game::load_german_wordlist(&data).unwrap();
    assert_eq!(pool.len(), 2);
    assert!(pool.contains(&wordle::game::Word::parse("world").unwrap()));
    assert!(wordle::game::load_german_wordlist(b"junk").is_err());
}
