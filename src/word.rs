//! A word: text ordered by the collation rule.

use std::cmp::Ordering;
use vstd::prelude::*;

use crate::collation::{case_fold_cmp, collate};

verus! {

/// A word; its order is the case-fold collation rule, so that
/// `"apple" < "Apple" < "APPLE" < "banana"`.
#[derive(Debug, Clone)]
pub struct Word(pub String);

impl View for Word {
    type V = Seq<char>;

    open spec fn view(&self) -> Seq<char> {
        self.0@
    }
}

impl Word {
    /// The text of the word.
    pub fn as_str(&self) -> (r: &str)
        ensures
            r@ == self@,
    {
        self.0.as_str()
    }
}

impl PartialEq for Word {
    fn eq(&self, other: &Word) -> (r: bool) {
        self.0 == other.0
    }
}

impl vstd::std_specs::cmp::PartialEqSpecImpl for Word {
    open spec fn obeys_eq_spec() -> bool {
        true
    }

    open spec fn eq_spec(&self, other: &Word) -> bool {
        self@ == other@
    }
}

impl PartialOrd for Word {
    fn partial_cmp(&self, other: &Word) -> (r: Option<Ordering>) {
        Some(case_fold_cmp(self.0.as_str(), other.0.as_str()))
    }
}

impl vstd::std_specs::cmp::PartialOrdSpecImpl for Word {
    open spec fn obeys_partial_cmp_spec() -> bool {
        true
    }

    open spec fn partial_cmp_spec(&self, other: &Word) -> Option<Ordering> {
        Some(collate(self@, other@))
    }
}

impl From<String> for Word {
    fn from(s: String) -> (r: Word) {
        Word(s)
    }
}

impl vstd::std_specs::convert::FromSpecImpl<String> for Word {
    open spec fn obeys_from_spec() -> bool {
        true
    }

    open spec fn from_spec(s: String) -> Word {
        Word(s)
    }
}

impl From<Word> for String {
    fn from(w: Word) -> (r: String) {
        w.0
    }
}

impl vstd::std_specs::convert::FromSpecImpl<Word> for String {
    open spec fn obeys_from_spec() -> bool {
        true
    }

    open spec fn from_spec(w: Word) -> String {
        w.0
    }
}

impl AsRef<str> for Word {
    fn as_ref(&self) -> &str {
        self.0.as_str()
    }
}

} // verus!
