//! What a stream yields: words, recoverable read errors, and the fatal
//! report that a stream advertised as sorted was not.

use vstd::prelude::*;

use crate::word::Word;

verus! {

/// A recoverable error: a failed read, malformed input, bad compression.
#[derive(Debug, Clone)]
pub struct ReadError {
    pub message: String,
}

/// One step of a stream.
///
/// `Unsorted` is not a read error: it reports a broken ordering invariant
/// (the two offending words, in the order they arrived). Nothing follows it.
#[derive(Debug)]
pub enum Entry {
    Word(Word),
    Failed(ReadError),
    Unsorted(Word, Word),
}

pub ghost enum EntryView {
    Word(Seq<char>),
    Failed(Seq<char>),
    Unsorted(Seq<char>, Seq<char>),
}

impl View for Entry {
    type V = EntryView;

    open spec fn view(&self) -> EntryView {
        match self {
            Entry::Word(w) => EntryView::Word(w@),
            Entry::Failed(e) => EntryView::Failed(e.message@),
            Entry::Unsorted(a, b) => EntryView::Unsorted(a@, b@),
        }
    }
}

impl Entry {
    pub fn is_word(&self) -> (r: bool)
        ensures
            r == (self@ is Word),
    {
        match self {
            Entry::Word(_) => true,
            _ => false,
        }
    }
}

/// The views of a sequence of entries.
pub open spec fn entry_views(s: Seq<Entry>) -> Seq<EntryView> {
    s.map_values(|e: Entry| e@)
}

/// The words of a sequence of entries that holds nothing else.
pub open spec fn words_of(s: Seq<EntryView>) -> Seq<Seq<char>> {
    s.map_values(|e: EntryView| e->Word_0)
}

/// Every entry is a word.
pub open spec fn all_words(s: Seq<EntryView>) -> bool {
    forall|i: int| 0 <= i < s.len() ==> (#[trigger] s[i] is Word)
}

} // verus!
