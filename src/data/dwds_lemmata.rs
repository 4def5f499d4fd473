//! The DWDS lemma list: CSV with the lemma in the first column, zstd-compressed.

use vstd::prelude::*;

use crate::entry::{EntryView, ReadError};
use crate::sorting::sorted_words;
use crate::sources::{csv_first_fields, from_csv_zstd, kept, word_entries, zstd_decoded};
use crate::stream::{filtered, texts, WordFilter, WordStream};

verus! {

/// The words the list holds that are dropped, in lowercase.
pub open spec fn removed() -> Seq<Seq<char>> {
    seq![seq!['\u{c5}', '\u{201c}', 'u', 'v', 'r', 'e']]
}

/// The words the list holds that are dropped.
pub fn remove_words() -> (r: Vec<String>)
    ensures
        texts(r@) == removed(),
{
    let w0 = String::from_str("\u{c5}\u{201c}uvre");
    proof {
        reveal_strlit("\u{c5}\u{201c}uvre");
        assert(w0@ =~= seq!['\u{c5}', '\u{201c}', 'u', 'v', 'r', 'e']);
    }
    let r = vec![w0];
    assert(texts(r@) =~= removed());
    r
}

/// The lemmas, sorted, without those whose lowercase form is removed.
pub fn load(data: &[u8]) -> (r: Result<WordStream, ReadError>)
    ensures
        r is Ok <==> (zstd_decoded(data@) is Some && csv_first_fields(zstd_decoded(data@)->Some_0) is Some),
        r is Ok ==> exists|base: Seq<EntryView>, list: Vec<String>|
            sorted_words(base)
                && base.to_multiset() == word_entries(
                kept(csv_first_fields(zstd_decoded(data@)->Some_0)->Some_0),
            ).to_multiset()
                && texts(list@) == removed()
                && (#[trigger] r->Ok_0.rest()) == filtered(base, WordFilter::Excluding(list)),
{
    let stream = from_csv_zstd(data)?;
    let list = remove_words();
    let ghost base = stream.rest();
    let ghost kept_list = list;
    let r = stream.filter(WordFilter::Excluding(list));
    proof {
        assert(texts(kept_list@) == removed());
        assert(sorted_words(base));
    }
    Ok(r)
}

} // verus!
