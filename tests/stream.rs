use wordle::entry::{Entry, ReadError};
use wordle::sinks::collect_to_set;
use wordle::sources::{from_sorted_reader, from_sorted_zst, from_txt};
use wordle::stream::{
    process_input_stream, BoxedWordStream, DedupStream, FilterStream, LowercaseStream, MergeStream, Pending,
    SortedLines, Stage, UnsortedWords, WordFilter, WordStream,
};
use wordle::word::Word;

fn word_vec(items: &[&str]) -> Vec<Word> {
    items.iter().map(|s| Word(s.to_string())).collect()
}

fn stage_of(items: &[&str]) -> Stage {
    Stage::from_words(UnsortedWords::new(word_vec(items)))
}

fn stream_of(items: &[&str]) -> WordStream {
    WordStream::new(stage_of(items))
}

fn boxed_of(items: &[&str]) -> BoxedWordStream {
    BoxedWordStream::new(stage_of(items))
}

fn entries_stage(items: Vec<Entry>) -> Stage {
    Stage::from_lines(SortedLines::from_pending(Pending::from_vec(items)))
}

fn ok(s: &str) -> Entry {
    Entry::Word(Word(s.to_string()))
}

fn err(s: &str) -> Entry {
    Entry::Failed(ReadError { message: s.to_string() })
}

fn drain(mut stage: Stage) -> Vec<Entry> {
    let mut out = Vec::new();
    while let Some(e) = stage.next() {
        out.push(e);
    }
    out
}

fn strings(entries: Vec<Entry>) -> Vec<String> {
    entries
        .into_iter()
        .map(|e| match e {
            Entry::Word(w) => w.0,
            other => panic!("unexpected entry: {:?}", other),
        })
        .collect()
}

fn stage_strings(stage: Stage) -> Vec<String> {
    strings(drain(stage))
}

fn merged(left: &[&str], right: &[&str]) -> Vec<String> {
    stage_strings(Stage::from_merge(MergeStream::new(stage_of(left), stage_of(right))))
}

fn dedup_of(items: &[&str]) -> Vec<String> {
    stage_strings(boxed_of(items).dedup().into_inner())
}

#[test]
fn merge_test_merge_disjoint() {
    assert_eq!(merged(&["apple", "banana"], &["cherry", "date"]), vec!["apple", "banana", "cherry", "date"]);
}

#[test]
fn merge_test_merge_interleaved() {
    assert_eq!(merged(&["apple", "cherry"], &["banana", "date"]), vec!["apple", "banana", "cherry", "date"]);
}

#[test]
fn merge_test_merge_with_duplicates() {
    assert_eq!(merged(&["apple", "banana"], &["apple", "cherry"]), vec!["apple", "apple", "banana", "cherry"]);
}

#[test]
fn merge_test_merge_case_fold_order() {
    assert_eq!(merged(&["apple", "APPLE"], &["Apple", "banana"]), vec!["apple", "Apple", "APPLE", "banana"]);
}

#[test]
fn merge_test_merge_left_empty() {
    assert_eq!(merged(&[], &["apple", "banana"]), vec!["apple", "banana"]);
}

#[test]
fn merge_test_merge_right_empty() {
    assert_eq!(merged(&["apple", "banana"], &[]), vec!["apple", "banana"]);
}

#[test]
fn merge_test_merge_both_empty() {
    assert!(merged(&[], &[]).is_empty());
}

#[test]
fn merge_test_merge_preserves_errors() {
    let left = entries_stage(vec![ok("apple"), err("left error"), ok("cherry")]);
    let right = entries_stage(vec![ok("banana"), ok("date")]);
    let results = drain(Stage::from_merge(MergeStream::new(left, right)));
    assert_eq!(results.len(), 5);
    assert!(matches!(&results[0], Entry::Word(w) if w.0 == "apple"));
    assert!(matches!(&results[1], Entry::Failed(_)));
    assert!(matches!(&results[2], Entry::Word(w) if w.0 == "banana"));
    assert!(matches!(&results[3], Entry::Word(w) if w.0 == "cherry"));
    assert!(matches!(&results[4], Entry::Word(w) if w.0 == "date"));
}

#[test]
fn test_dedup_exact_duplicates() {
    assert_eq!(dedup_of(&["apple", "apple", "banana", "banana", "cherry"]), vec!["apple", "banana", "cherry"]);
}

#[test]
fn test_dedup_case_fold_duplicates() {
    assert_eq!(dedup_of(&["apple", "Apple", "APPLE", "banana"]), vec!["apple", "banana"]);
}

#[test]
fn test_dedup_no_duplicates() {
    assert_eq!(dedup_of(&["apple", "banana", "cherry"]), vec!["apple", "banana", "cherry"]);
}

#[test]
fn test_dedup_all_same() {
    assert_eq!(dedup_of(&["apple", "apple", "apple"]), vec!["apple"]);
}

#[test]
fn test_dedup_german_umlauts() {
    assert_eq!(dedup_of(&["ärger", "Ärger", "ÄRGER", "bär"]), vec!["ärger", "bär"]);
}

#[test]
fn test_dedup_preserves_errors() {
    let stage = entries_stage(vec![ok("apple"), err("test error"), ok("apple"), ok("banana")]);
    let results = drain(Stage::from_dedup(DedupStream::new(stage)));
    assert_eq!(results.len(), 3);
    assert!(matches!(&results[0], Entry::Word(w) if w.0 == "apple"));
    assert!(matches!(&results[1], Entry::Failed(_)));
    assert!(matches!(&results[2], Entry::Word(w) if w.0 == "banana"));
}

#[test]
fn test_dedup_empty() {
    assert!(dedup_of(&[]).is_empty());
}

#[test]
fn test_dedup_single() {
    assert_eq!(dedup_of(&["hello"]), vec!["hello"]);
}

fn lowered(items: &[&str]) -> Vec<String> {
    stage_strings(Stage::from_lowercase(LowercaseStream::new(stage_of(items))))
}

#[test]
fn lowercase_test_lowercase_uppercase() {
    assert_eq!(lowered(&["HELLO", "WORLD"]), vec!["hello", "world"]);
}

#[test]
fn lowercase_test_lowercase_mixed_case() {
    assert_eq!(lowered(&["HeLLo", "WoRLd"]), vec!["hello", "world"]);
}

#[test]
fn lowercase_test_lowercase_already_lowercase() {
    assert_eq!(lowered(&["hello", "world"]), vec!["hello", "world"]);
}

#[test]
fn lowercase_test_lowercase_german_umlauts() {
    assert_eq!(lowered(&["ÄRGER", "Ärger", "ärger"]), vec!["ärger", "ärger", "ärger"]);
}

#[test]
fn lowercase_test_lowercase_preserves_errors() {
    let stage = entries_stage(vec![ok("HELLO"), err("test error"), ok("WORLD")]);
    let results = drain(Stage::from_lowercase(LowercaseStream::new(stage)));
    assert!(matches!(&results[0], Entry::Word(w) if w.0 == "hello"));
    assert!(matches!(&results[1], Entry::Failed(_)));
    assert!(matches!(&results[2], Entry::Word(w) if w.0 == "world"));
}

#[test]
fn lowercase_test_lowercase_empty() {
    assert!(lowered(&[]).is_empty());
}

fn filtered(items: &[&str], f: WordFilter) -> Vec<String> {
    stage_strings(Stage::from_filter(FilterStream::new(stage_of(items), f)))
}

#[test]
fn filter_test_filter_by_length() {
    assert_eq!(filtered(&["a", "bb", "ccc", "dddd"], WordFilter::CharCount(3)), vec!["ccc"]);
}

#[test]
fn test_filter_by_prefix() {
    assert_eq!(
        filtered(&["apple", "apricot", "banana", "avocado"], WordFilter::StartsWithAny(vec!['a'])),
        vec!["apple", "apricot", "avocado"]
    );
}

#[test]
fn test_filter_all() {
    assert!(filtered(&["hello", "world"], WordFilter::MaxChars(0)).is_empty());
}

#[test]
fn test_filter_none() {
    assert_eq!(filtered(&["hello", "world"], WordFilter::MinChars(0)), vec!["hello", "world"]);
}

#[test]
fn test_filter_preserves_errors() {
    let stage = entries_stage(vec![ok("apple"), err("test error"), ok("banana")]);
    let results = drain(Stage::from_filter(FilterStream::new(stage, WordFilter::MinChars(0))));
    assert!(matches!(&results[0], Entry::Word(_)));
    assert!(matches!(&results[1], Entry::Failed(_)));
    assert!(matches!(&results[2], Entry::Word(_)));
}

#[test]
fn test_filter_empty() {
    assert!(filtered(&[], WordFilter::MinChars(0)).is_empty());
}

fn alphabetic(items: &[&str]) -> Vec<String> {
    stage_strings(Stage::from_filter(FilterStream::new(stage_of(items), WordFilter::Alphabetic)))
}

#[test]
fn test_keeps_alphabetic_words() {
    assert_eq!(alphabetic(&["apple", "banana", "cherry"]), vec!["apple", "banana", "cherry"]);
}

#[test]
fn test_filters_words_with_digits() {
    assert_eq!(alphabetic(&["apple", "test123", "banana"]), vec!["apple", "banana"]);
}

#[test]
fn test_filters_words_with_punctuation() {
    assert_eq!(alphabetic(&["hello", "world!", "test"]), vec!["hello", "test"]);
}

#[test]
fn test_filters_words_with_spaces() {
    assert_eq!(alphabetic(&["hello", "hello world", "test"]), vec!["hello", "test"]);
}

#[test]
fn test_filters_words_with_hyphens() {
    assert_eq!(alphabetic(&["apple", "self-aware", "banana"]), vec!["apple", "banana"]);
}

#[test]
fn test_keeps_unicode_alphabetic() {
    assert_eq!(alphabetic(&["café", "naïve", "über"]), vec!["café", "naïve", "über"]);
}

#[test]
fn test_keeps_german_umlauts() {
    assert_eq!(alphabetic(&["Äpfel", "Größe", "schön"]), vec!["Äpfel", "Größe", "schön"]);
}

#[test]
fn filter_non_alphabetic_test_empty_stream() {
    assert!(alphabetic(&[]).is_empty());
}

#[test]
fn test_all_filtered() {
    assert!(alphabetic(&["123", "test!", "hello-world"]).is_empty());
}

#[test]
fn test_preserves_errors() {
    let stage = entries_stage(vec![ok("apple"), err("test error"), ok("banana")]);
    let results = drain(WordStream::new(stage).filter_non_alphabetic().into_stage());
    assert!(matches!(&results[0], Entry::Word(_)));
    assert!(matches!(&results[1], Entry::Failed(_)));
    assert!(matches!(&results[2], Entry::Word(_)));
}

#[test]
fn word_stream_test_sorted_stream_iterates() {
    assert_eq!(stage_strings(stream_of(&["apple", "banana", "cherry"]).into_stage()), vec!["apple", "banana", "cherry"]);
}

#[test]
fn word_stream_test_case_fold_sorted_stream() {
    assert_eq!(stage_strings(stream_of(&["apple", "Apple", "banana"]).into_stage()), vec!["apple", "Apple", "banana"]);
}

#[test]
fn word_stream_test_unsorted_stream_panics() {
    let results = drain(stream_of(&["banana", "apple"]).into_stage());
    assert_eq!(results.len(), 1);
    assert!(matches!(&results[0], Entry::Unsorted(a, b) if a.0 == "banana" && b.0 == "apple"));
}

#[test]
fn word_stream_test_case_unsorted_stream_panics() {
    let results = drain(stream_of(&["Apple", "apple"]).into_stage());
    assert_eq!(results.len(), 1);
    assert!(matches!(&results[0], Entry::Unsorted(_, _)));
}

#[test]
fn word_stream_test_empty_stream() {
    assert!(stage_strings(stream_of(&[]).into_stage()).is_empty());
}

#[test]
fn word_stream_test_single_item_stream() {
    assert_eq!(stage_strings(stream_of(&["hello"]).into_stage()), vec!["hello"]);
}

#[test]
fn word_stream_test_io_error_propagates() {
    let results = drain(WordStream::new(entries_stage(vec![ok("apple"), err("test error"), ok("banana")])).into_stage());
    assert!(matches!(&results[0], Entry::Word(_)));
    assert!(matches!(&results[1], Entry::Failed(_)));
    assert!(matches!(&results[2], Entry::Word(_)));
}

fn collect_strings(stream: BoxedWordStream) -> Vec<String> {
    stage_strings(stream.into_inner())
}

#[test]
fn test_basic_iteration() {
    assert_eq!(collect_strings(boxed_of(&["apple", "banana", "cherry"])), vec!["apple", "banana", "cherry"]);
}

#[test]
fn test_filter() {
    let stream = boxed_of(&["a", "bb", "ccc", "dddd"]).filter(WordFilter::MinChars(2));
    assert_eq!(collect_strings(stream), vec!["bb", "ccc", "dddd"]);
}

#[test]
fn boxed_test_to_lowercase() {
    let stream = boxed_of(&["Apple", "BANANA", "Cherry"]).to_lowercase();
    assert_eq!(collect_strings(stream), vec!["apple", "banana", "cherry"]);
}

#[test]
fn test_dedup() {
    let stream = boxed_of(&["apple", "Apple", "APPLE", "banana"]).dedup();
    assert_eq!(collect_strings(stream), vec!["apple", "banana"]);
}

#[test]
fn test_merge_two_streams() {
    let merged = boxed_of(&["apple", "cherry"]).merge(boxed_of(&["banana", "date"]));
    assert_eq!(collect_strings(merged), vec!["apple", "banana", "cherry", "date"]);
}

#[test]
fn test_merge_three_streams_in_loop() {
    let inputs = [vec!["apple", "date"], vec!["banana", "elderberry"], vec!["cherry", "fig"]];
    let mut stream = boxed_of(&inputs[0]);
    for input in &inputs[1..] {
        stream = stream.merge(boxed_of(input));
    }
    assert_eq!(collect_strings(stream), vec!["apple", "banana", "cherry", "date", "elderberry", "fig"]);
}

#[test]
fn test_full_pipeline() {
    let stream1 = boxed_of(&["Apple", "apple", "Cherry"]);
    let stream2 = boxed_of(&["banana", "Banana", "date"]);
    let result = stream1.merge(stream2).filter(WordFilter::MinChars(5)).to_lowercase().dedup();
    assert_eq!(collect_strings(result), vec!["apple", "banana", "cherry"]);
}

#[test]
fn boxed_test_empty_stream() {
    assert_eq!(collect_strings(boxed_of(&[])), Vec::<String>::new());
}

#[test]
fn boxed_test_merge_with_empty() {
    let merged = boxed_of(&["apple", "banana"]).merge(boxed_of(&[]));
    assert_eq!(collect_strings(merged), vec!["apple", "banana"]);
}

#[test]
fn test_error_propagates() {
    let stream = BoxedWordStream::new(entries_stage(vec![ok("apple"), err("test error"), ok("banana")]));
    let results = drain(stream.into_inner());
    assert!(matches!(&results[0], Entry::Word(_)));
    assert!(matches!(&results[1], Entry::Failed(_)));
    assert!(matches!(&results[2], Entry::Word(_)));
}

#[test]
fn sinks_test_collect_to_set() {
    let set = collect_to_set(stage_of(&["cherry", "apple", "banana"])).unwrap();
    assert_eq!(set.len(), 3);
    assert!(set.contains("apple"));
    assert!(set.contains("banana"));
    assert!(set.contains("cherry"));
}

#[test]
fn sinks_test_collect_to_set_deduplicates() {
    let set = collect_to_set(stage_of(&["apple", "apple", "banana"])).unwrap();
    assert_eq!(set.len(), 2);
}

#[test]
fn sinks_test_collect_to_set_empty() {
    let set = collect_to_set(stage_of(&[])).unwrap();
    assert!(set.is_empty());
}

#[test]
fn sinks_test_collect_to_set_error() {
    let result = collect_to_set(entries_stage(vec![ok("apple"), err("test error")]));
    assert!(matches!(result, Err(Entry::Failed(_))));
}

#[test]
fn sinks_test_write_to_file() {
    let mut out = String::new();
    stream_of(&["apple", "banana", "cherry"]).write_to_writer(&mut out).unwrap();
    assert_eq!(out, "apple\nbanana\ncherry\n");
}

#[test]
fn sinks_test_write_to_file_empty() {
    let mut out = String::new();
    stream_of(&[]).write_to_writer(&mut out).unwrap();
    assert!(out.is_empty());
}

#[test]
fn sinks_test_write_to_file_error_in_stream() {
    let mut out = String::new();
    let result = WordStream::new(entries_stage(vec![ok("apple"), err("test error")])).write_to_writer(&mut out);
    assert!(result.is_err());
    assert_eq!(out, "apple\n");
}

#[test]
fn sinks_test_write_to_zst_file() {
    let bytes = stream_of(&["apple", "banana", "cherry"]).write_to_zst().unwrap();
    let content = String::from_utf8(zstd::decode_all(&bytes[..]).unwrap()).unwrap();
    assert_eq!(content, "apple\nbanana\ncherry\n");
}

#[test]
fn test_write_to_zst_file_empty() {
    let bytes = stream_of(&[]).write_to_zst().unwrap();
    let content = String::from_utf8(zstd::decode_all(&bytes[..]).unwrap()).unwrap();
    assert!(content.is_empty());
}

#[test]
fn test_zst_roundtrip() {
    let bytes = from_sorted_reader("apple\nbanana\ncherry\n").write_to_zst().unwrap();
    let words = stage_strings(from_sorted_zst(&bytes).unwrap().into_stage());
    assert_eq!(words, vec!["apple", "banana", "cherry"]);
}

#[test]
fn collection_round_trip_through_compressed_text() {
    let set = collect_to_set(stage_of(&["Ärger", "apple", "banana", "Apple"])).unwrap();
    let written = set.clone().into_vec();
    let bytes = WordStream::from_word_set(set).write_to_zst().unwrap();
    let back = stage_strings(from_sorted_zst(&bytes).unwrap().into_stage());
    assert_eq!(back, written);
    assert_eq!(back, vec!["apple", "Apple", "banana", "Ärger"]);
}

#[test]
fn plain_text_round_trip() {
    let set = collect_to_set(stage_of(&["cherry", "apple", "banana"])).unwrap();
    let mut text = String::new();
    WordStream::from_word_set(set).write_to_writer(&mut text).unwrap();
    assert_eq!(text, "apple\nbanana\ncherry\n");
    assert_eq!(stage_strings(from_sorted_reader(&text).into_stage()), vec!["apple", "banana", "cherry"]);
}

#[test]
fn cleaning_pipeline_two_sources() {
    let a = process_input_stream(from_txt("hello\nworld123\nHELLO\n"));
    let b = process_input_stream(from_txt("WORLD\ntest!\nWorld\n"));
    let out = a.merge(b).dedup();
    assert_eq!(collect_strings(out), vec!["hello", "world"]);
}

#[test]
fn unsorted_input_raises_the_fatal_report() {
    let results = drain(stream_of(&["apple", "cherry", "banana", "date"]).into_stage());
    assert_eq!(results.len(), 2);
    assert!(matches!(&results[0], Entry::Word(w) if w.0 == "apple"));
    assert!(matches!(&results[1], Entry::Unsorted(a, b) if a.0 == "cherry" && b.0 == "banana"));
    let result = collect_to_set(stream_of(&["b", "a"]).into_stage());
    assert!(matches!(result, Err(Entry::Unsorted(_, _))));
}

#[test]
fn excluded_words_are_dropped_by_lowercase_form() {
    let out = filtered(&["Apple", "banana", "cherry"], WordFilter::Excluding(vec!["apple".to_string()]));
    assert_eq!(out, vec!["banana", "cherry"]);
}

#[test]
fn into_inner_hands_back_unchecked_entries() {
    let raw = stage_strings(stream_of(&["banana", "apple"]).into_inner());
    assert_eq!(raw, vec!["banana", "apple"]);
}

#[test]
fn filter_keeps_every_accepted_word() {
    let out = stage_strings(stream_of(&["apple", "Apple", "banana", "cherry"]).filter(WordFilter::MinChars(6)).into_stage());
    assert_eq!(out, vec!["banana", "cherry"]);
}

#[test]
fn compressed_collection_round_trip() {
    let set = collect_to_set(stage_of(&["cherry", "apple", "banana"])).unwrap();
    let bytes = WordStream::from_word_set(set).write_to_zst().unwrap();
    let back = stage_strings(from_sorted_zst(&bytes).unwrap().into_stage());
    assert_eq!(back, vec!["apple", "banana", "cherry"]);
}

#[test]
fn final_sigma_forms_collate_together() {
    let out = stage_strings(from_txt("ας\nαςz\nΑΣ\n").dedup().into_stage());
    assert_eq!(out, vec!["ας", "αςz"]);
}
