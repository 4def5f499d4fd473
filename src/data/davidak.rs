//! The davidak word list: unsorted plain text, zstd-compressed.

use vstd::prelude::*;

use crate::entry::{EntryView, ReadError};
use crate::sorting::sorted_words;
use crate::sources::{from_txt_zstd, text_words, utf8_text, word_entries, zstd_decoded};
use crate::stream::{filtered, texts, WordFilter, WordStream};

verus! {

/// The words the list holds that are dropped, in lowercase.
pub open spec fn removed() -> Seq<Seq<char>> {
    seq![
        seq!['\u{153}', 'u', 'v', 'r', 'e'],
        seq!['\u{14d}', 's', 'a', 'k', 'a'],
        seq!['\u{10d}', 'e', 's', 'k', '\u{fd}'],
        seq!['\u{10d}', 'e', 's', 'k', '\u{e1}'],
        seq!['\u{10d}', 'e', 's', 'k', '\u{e9}'],
    ]
}

/// The words the list holds that are dropped.
pub fn remove_words() -> (r: Vec<String>)
    ensures
        texts(r@) == removed(),
{
    let w0 = String::from_str("\u{153}uvre");
    proof {
        reveal_strlit("\u{153}uvre");
        assert(w0@ =~= seq!['\u{153}', 'u', 'v', 'r', 'e']);
    }
    let w1 = String::from_str("\u{14d}saka");
    proof {
        reveal_strlit("\u{14d}saka");
        assert(w1@ =~= seq!['\u{14d}', 's', 'a', 'k', 'a']);
    }
    let w2 = String::from_str("\u{10d}esk\u{fd}");
    proof {
        reveal_strlit("\u{10d}esk\u{fd}");
        assert(w2@ =~= seq!['\u{10d}', 'e', 's', 'k', '\u{fd}']);
    }
    let w3 = String::from_str("\u{10d}esk\u{e1}");
    proof {
        reveal_strlit("\u{10d}esk\u{e1}");
        assert(w3@ =~= seq!['\u{10d}', 'e', 's', 'k', '\u{e1}']);
    }
    let w4 = String::from_str("\u{10d}esk\u{e9}");
    proof {
        reveal_strlit("\u{10d}esk\u{e9}");
        assert(w4@ =~= seq!['\u{10d}', 'e', 's', 'k', '\u{e9}']);
    }
    let r = vec![w0, w1, w2, w3, w4];
    assert(texts(r@) =~= removed());
    r
}

/// The list's words, sorted, without those whose lowercase form is removed.
pub fn load(data: &[u8]) -> (r: Result<WordStream, ReadError>)
    ensures
        r is Ok <==> (zstd_decoded(data@) is Some && utf8_text(zstd_decoded(data@)->Some_0) is Some),
        r is Ok ==> exists|text: Seq<char>, base: Seq<EntryView>, list: Vec<String>|
            utf8_text(zstd_decoded(data@)->Some_0) == Some(text) && sorted_words(base)
                && base.to_multiset() == word_entries(text_words(text)).to_multiset()
                && texts(list@) == removed()
                && (#[trigger] r->Ok_0.rest()) == filtered(base, WordFilter::Excluding(list)),
{
    let stream = from_txt_zstd(data)?;
    let list = remove_words();
    let ghost base = stream.rest();
    let ghost kept = list;
    let r = stream.filter(WordFilter::Excluding(list));
    proof {
        let text = choose|text: Seq<char>|
            zstd_decoded(data@) is Some && utf8_text(zstd_decoded(data@)->Some_0) == Some(text)
                && sorted_words(base) && base.to_multiset() == word_entries(text_words(text)).to_multiset();
        assert(texts(kept@) == removed());
    }
    Ok(r)
}

} // verus!
