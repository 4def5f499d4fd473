//! The word collection: a sorted set of texts with logarithmic lookup.

use std::cmp::Ordering;
use vstd::prelude::*;

use crate::collation::{
    case_fold_cmp, collate, flip, le, lemma_collate_total_order, lemma_lex_flip, lemma_lex_refl,
    lemma_lex_trans, lemma_scalars_injective, lex_cmp, lex_compare, scalars,
};
use crate::entry::{Entry, EntryView};
use crate::sorting::{lemma_checked_sorted, sorted_words};
use crate::sources::word_entries;
use crate::stream::{keeps, lowercase, lower_str, alphabetic_char, Pending, Stage, UnsortedWords, WordFilter, WordStream};
use crate::word::Word;

verus! {

/// The order of a collection: the collation rule, with texts that collate
/// equal ordered by their scalar values. Distinct texts never compare equal.
pub open spec fn word_order(a: Seq<char>, b: Seq<char>) -> Ordering {
    let c = collate(a, b);
    if c == Ordering::Equal {
        lex_cmp(scalars(a), scalars(b))
    } else {
        c
    }
}

proof fn lemma_word_order(a: Seq<char>, b: Seq<char>, c: Seq<char>)
    ensures
        word_order(b, a) == flip(word_order(a, b)),
        word_order(a, b) == Ordering::Equal ==> a == b,
        word_order(a, a) == Ordering::Equal,
        word_order(a, b) == Ordering::Less && word_order(b, c) == Ordering::Less ==> word_order(
            a,
            c,
        ) == Ordering::Less,
{
    lemma_collate_total_order(a, b, c);
    lemma_collate_total_order(b, c, a);
    lemma_collate_total_order(a, c, b);
    lemma_lex_flip(scalars(a), scalars(b));
    lemma_lex_refl(scalars(a));
    if word_order(a, b) == Ordering::Equal {
        lemma_scalars_injective(a, b);
    }
    if word_order(a, b) == Ordering::Less && word_order(b, c) == Ordering::Less {
        if collate(a, b) == Ordering::Equal && collate(b, c) == Ordering::Equal {
            lemma_lex_trans(scalars(a), scalars(b), scalars(c));
        }
    }
}

/// Compares two texts in the order of a collection.
fn word_order_cmp(a: &str, b: &str) -> (r: Ordering)
    ensures
        r == word_order(a@, b@),
{
    match case_fold_cmp(a, b) {
        Ordering::Equal => {
            let ka = scalar_values(a);
            let kb = scalar_values(b);
            lex_compare(&ka, &kb)
        },
        other => other,
    }
}

fn scalar_values(s: &str) -> (r: Vec<u32>)
    ensures
        r@ == scalars(s@),
{
    let n = s.unicode_len();
    let mut out: Vec<u32> = Vec::new();
    let mut i: usize = 0;
    while i < n
        invariant
            n == s@.len(),
            i <= n,
            out@ == scalars(s@.take(i as int)),
        decreases n - i,
    {
        let c = s.get_char(i);
        out.push(c as u32);
        assert(scalars(s@.take(i + 1)) =~= scalars(s@.take(i as int)).push(c as u32));
        i = i + 1;
    }
    assert(s@.take(n as int) =~= s@);
    out
}

/// A sorted set of texts, at most one entry per exact text.
#[derive(Debug, Clone, PartialEq, Eq)]
pub struct WordSet {
    words: Vec<String>,
}

impl View for WordSet {
    type V = Set<Seq<char>>;

    closed spec fn view(&self) -> Set<Seq<char>> {
        self.words@.map_values(|s: String| s@).to_set()
    }
}

/// The texts of a collection, in its order, are sorted by the collation rule.
pub proof fn lemma_collection_sorted(o: Seq<Seq<char>>)
    requires
        WordSet::increasing(o),
    ensures
        sorted_words(word_entries(o)),
{
    let w = word_entries(o);
    assert forall|i: int| 0 <= i < w.len() - 1 implies le(
        #[trigger] collate(w[i]->Word_0, w[i + 1]->Word_0),
    ) by {
        lemma_collate_total_order(o[i], o[i + 1], o[i]);
        assert(word_order(o[i], o[i + 1]) == Ordering::Less);
    }
}

impl WordStream {
    /// A stream over the texts of a collection, in its order.
    pub fn from_word_set(set: WordSet) -> (r: WordStream)
        requires
            set.wf(),
        ensures
            r.rest() == word_entries(set.ordered()),
            sorted_words(r.rest()),
    {
        let ghost o = set.ordered();
        let texts = set.into_vec();
        let mut texts = texts;
        let mut reversed: Vec<String> = Vec::new();
        while texts.len() > 0
            invariant
                o.len() == texts.len() + reversed.len(),
                forall|k: int| 0 <= k < texts.len() ==> texts@[k]@ == o[k],
                forall|k: int| 0 <= k < reversed.len() ==> reversed@[k]@ == o[o.len() - 1 - k],
            decreases texts.len(),
        {
            let t = texts.pop().unwrap();
            reversed.push(t);
        }
        let mut items: Vec<Entry> = Vec::new();
        while reversed.len() > 0
            invariant
                o.len() == items.len() + reversed.len(),
                forall|k: int| 0 <= k < reversed.len() ==> reversed@[k]@ == o[o.len() - 1 - k],
                forall|k: int| 0 <= k < items.len() ==> (#[trigger] items@[k])@ == EntryView::Word(o[k]),
            decreases reversed.len(),
        {
            let t = reversed.pop().unwrap();
            items.push(Entry::Word(Word(t)));
        }
        let ghost w = word_entries(o);
        assert(crate::entry::entry_views(items@) =~= w);
        proof {
            lemma_collection_sorted(o);
            lemma_checked_sorted(w);
        }
        WordStream::new(Stage::from_words(UnsortedWords::from_pending(Pending::from_vec(items))))
    }
}

impl WordSet {
    /// The texts in order.
    pub closed spec fn ordered(&self) -> Seq<Seq<char>> {
        self.words@.map_values(|s: String| s@)
    }

    /// Strictly increasing in the collection order.
    pub open spec fn increasing(s: Seq<Seq<char>>) -> bool {
        forall|i: int, j: int| 0 <= i < j < s.len() ==> word_order(s[i], s[j]) == Ordering::Less
    }

    pub closed spec fn wf(&self) -> bool {
        Self::increasing(self.ordered())
    }

    pub proof fn lemma_wf(&self)
        requires
            self.wf(),
        ensures
            Self::increasing(self.ordered()),
    {
    }

    /// The set holds exactly the ordered texts, each once.
    pub proof fn lemma_view(&self)
        ensures
            self@ == self.ordered().to_set(),
            self.wf() ==> self.ordered().no_duplicates(),
            self.wf() ==> self@.len() == self.ordered().len(),
    {
        if self.wf() {
            let o = self.ordered();
            assert forall|i: int, j: int| 0 <= i < o.len() && 0 <= j < o.len() && i != j implies o[i] != o[j] by {
                lemma_word_order(o[i], o[i], o[i]);
                if i < j {
                    assert(word_order(o[i], o[j]) == Ordering::Less);
                } else {
                    assert(word_order(o[j], o[i]) == Ordering::Less);
                }
            }
            o.unique_seq_to_set();
        }
    }

    /// An empty collection.
    pub fn new() -> (r: WordSet)
        ensures
            r.wf(),
            r@ == Set::<Seq<char>>::empty(),
            r.ordered().len() == 0,
    {
        let r = WordSet { words: Vec::new() };
        assert(r.ordered() =~= Seq::<Seq<char>>::empty());
        r
    }

    /// Where `s` stands or would stand: the number of texts before it, and
    /// whether it is present.
    fn search(&self, s: &str) -> (r: (usize, bool))
        requires
            self.wf(),
        ensures
            r.0 <= self.ordered().len(),
            forall|k: int| 0 <= k < r.0 ==> word_order(self.ordered()[k], s@) == Ordering::Less,
            r.1 ==> r.0 < self.ordered().len() && self.ordered()[r.0 as int] == s@,
            !r.1 ==> forall|k: int|
                r.0 <= k < self.ordered().len() ==> word_order(self.ordered()[k], s@)
                    == Ordering::Greater,
    {
        let ghost o = self.ordered();
        let mut lo: usize = 0;
        let mut hi: usize = self.words.len();
        while lo < hi
            invariant
                o == self.ordered(),
                self.wf(),
                0 <= lo <= hi <= o.len(),
                o.len() == self.words.len(),
                forall|k: int| 0 <= k < lo ==> word_order(o[k], s@) == Ordering::Less,
                forall|k: int| hi <= k < o.len() ==> word_order(o[k], s@) == Ordering::Greater,
            decreases hi - lo,
        {
            let mid = lo + (hi - lo) / 2;
            let c = word_order_cmp(self.words[mid].as_str(), s);
            assert(o[mid as int] == self.words@[mid as int]@);
            match c {
                Ordering::Less => {
                    assert forall|k: int| 0 <= k <= mid implies word_order(o[k], s@)
                        == Ordering::Less by {
                        if k < mid {
                            lemma_word_order(o[k], o[mid as int], s@);
                        }
                    }
                    lo = mid + 1;
                },
                Ordering::Greater => {
                    assert forall|k: int| mid <= k < o.len() implies word_order(o[k], s@)
                        == Ordering::Greater by {
                        if k > mid {
                            lemma_word_order(s@, o[mid as int], o[k]);
                            lemma_word_order(o[mid as int], s@, o[k]);
                            lemma_word_order(o[k], s@, o[k]);
                            lemma_word_order(o[mid as int], o[k], s@);
                            lemma_word_order(s@, o[k], s@);
                        }
                    }
                    hi = mid;
                },
                Ordering::Equal => {
                    proof {
                        lemma_word_order(o[mid as int], s@, s@);
                    }
                    return (mid, true);
                },
            }
        }
        (lo, false)
    }

    /// Whether the collection holds exactly this text.
    pub fn contains(&self, s: &str) -> (r: bool)
        requires
            self.wf(),
        ensures
            r == self@.contains(s@),
    {
        let (i, found) = self.search(s);
        proof {
            self.lemma_view();
            if !found && self@.contains(s@) {
                let k = choose|k: int| 0 <= k < self.ordered().len() && self.ordered()[k] == s@;
                lemma_word_order(s@, s@, s@);
                if k < i {
                    assert(word_order(self.ordered()[k], s@) == Ordering::Less);
                } else {
                    assert(word_order(self.ordered()[k], s@) == Ordering::Greater);
                }
            }
            if found {
                assert(self.ordered().contains(s@));
            }
        }
        found
    }

    /// Adds a text; `false` where it was already present.
    pub fn insert(&mut self, s: String) -> (r: bool)
        requires
            old(self).wf(),
        ensures
            final(self).wf(),
            r == !old(self)@.contains(s@),
            final(self)@ == old(self)@.insert(s@),
    {
        let (i, found) = self.search(s.as_str());
        proof {
            old(self).lemma_view();
        }
        if found {
            assert(old(self)@.contains(s@)) by {
                assert(old(self).ordered()[i as int] == s@);
            }
            assert(old(self)@.insert(s@) =~= old(self)@);
            return false;
        }
        let ghost o = self.ordered();
        let ghost sv = s@;
        self.words.insert(i, s);
        let ghost n = self.ordered();
        assert(n =~= o.insert(i as int, sv));
        assert(WordSet::increasing(n)) by {
            assert forall|a: int, b: int| 0 <= a < b < n.len() implies word_order(n[a], n[b])
                == Ordering::Less by {
                if b < i {
                } else if b == i {
                } else if a == i {
                    lemma_word_order(n[b], sv, sv);
                } else if a < i {
                    lemma_word_order(n[a], sv, n[b]);
                    lemma_word_order(n[b], sv, n[a]);
                    lemma_word_order(sv, n[b], sv);
                }
            }
        }
        proof {
            self.lemma_view();
            assert(!o.contains(sv)) by {
                if o.contains(sv) {
                    let k = choose|k: int| 0 <= k < o.len() && o[k] == sv;
                    lemma_word_order(sv, sv, sv);
                    if k < i {
                        assert(word_order(o[k], sv) == Ordering::Less);
                    } else {
                        assert(word_order(o[k], sv) == Ordering::Greater);
                    }
                }
            }
            assert(n.to_set() =~= o.to_set().insert(sv)) by {
                assert forall|x| n.to_set().contains(x) <==> o.to_set().insert(sv).contains(x) by {
                    if n.contains(x) {
                        let k = choose|k: int| 0 <= k < n.len() && n[k] == x;
                        if k < i {
                            assert(o[k] == x);
                        } else if k > i {
                            assert(o[k - 1] == x);
                        }
                    }
                    if o.contains(x) {
                        let k = choose|k: int| 0 <= k < o.len() && o[k] == x;
                        if k < i {
                            assert(n[k] == x);
                        } else {
                            assert(n[k + 1] == x);
                        }
                    }
                    if x == sv {
                        assert(n[i as int] == sv);
                    }
                }
            }
        }
        true
    }

    /// The number of texts.
    pub fn len(&self) -> (r: usize)
        ensures
            r == self.ordered().len(),
    {
        self.words.len()
    }

    /// Whether the collection is empty.
    pub fn is_empty(&self) -> (r: bool)
        ensures
            r == (self.ordered().len() == 0),
    {
        self.words.len() == 0
    }

    /// The texts, in order.
    pub fn into_vec(self) -> (r: Vec<String>)
        ensures
            r@.map_values(|s: String| s@) == self.ordered(),
    {
        self.words
    }

    /// A collection of the given texts.
    pub fn from_strings(texts: Vec<String>) -> (r: WordSet)
        ensures
            r.wf(),
            r@ == texts@.map_values(|s: String| s@).to_set(),
    {
        let ghost all = texts@.map_values(|s: String| s@);
        let mut set = WordSet::new();
        let mut i: usize = 0;
        while i < texts.len()
            invariant
                set.wf(),
                i <= texts.len(),
                all == texts@.map_values(|s: String| s@),
                set@ == all.take(i as int).to_set(),
            decreases texts.len() - i,
        {
            let t = texts[i].clone();
            assert(t@ == all[i as int]);
            set.insert(t);
            proof {
                Self::lemma_take_set(all, i as int);
            }
            i = i + 1;
        }
        assert(all.take(i as int) =~= all);
        set
    }

    proof fn lemma_take_set(o: Seq<Seq<char>>, i: int)
        requires
            0 <= i < o.len(),
        ensures
            o.take(i + 1).to_set() == o.take(i).to_set().insert(o[i]),
    {
        let prev = o.take(i);
        let next = o.take(i + 1);
        assert forall|x| next.to_set().contains(x) <==> prev.to_set().insert(o[i]).contains(x) by {
            if next.contains(x) {
                let k = choose|k: int| 0 <= k < next.len() && next[k] == x;
                if k < i {
                    assert(prev[k] == x);
                }
            }
            if prev.contains(x) {
                let k = choose|k: int| 0 <= k < prev.len() && prev[k] == x;
                assert(next[k] == x);
            }
            if x == o[i] {
                assert(next[i] == x);
            }
        }
        assert(next.to_set() =~= prev.to_set().insert(o[i]));
    }

    /// The texts of both collections.
    pub fn merge_with(self, other: WordSet) -> (r: WordSet)
        requires
            self.wf(),
        ensures
            r.wf(),
            r@ == self@.union(other@),
    {
        let mut set = self;
        let ghost start = set@;
        let ghost o = other.ordered();
        let mut i: usize = 0;
        while i < other.words.len()
            invariant
                set.wf(),
                i <= other.words.len(),
                o == other.ordered(),
                set@ == start.union(o.take(i as int).to_set()),
            decreases other.words.len() - i,
        {
            let t = other.words[i].clone();
            assert(t@ == o[i as int]);
            set.insert(t);
            proof {
                Self::lemma_take_set(o, i as int);
                assert(set@ =~= start.union(o.take(i + 1).to_set()));
            }
            i = i + 1;
        }
        proof {
            other.lemma_view();
            assert(o.take(i as int) =~= o);
        }
        set
    }

    /// The texts that `predicate` keeps.
    pub fn filter(&self, predicate: &WordFilter) -> (r: WordSet)
        ensures
            r.wf(),
            r@ == self@.filter(|w: Seq<char>| keeps(*predicate, w)),
    {
        let ghost o = self.ordered();
        let mut set = WordSet::new();
        let mut i: usize = 0;
        while i < self.words.len()
            invariant
                set.wf(),
                i <= self.words.len(),
                o == self.ordered(),
                set@ == o.take(i as int).to_set().filter(|w: Seq<char>| keeps(*predicate, w)),
            decreases self.words.len() - i,
        {
            let t = self.words[i].clone();
            assert(t@ == o[i as int]);
            proof {
                Self::lemma_take_set(o, i as int);
            }
            if predicate.accepts(t.as_str()) {
                set.insert(t);
                assert(set@ =~= o.take(i + 1).to_set().filter(|w: Seq<char>| keeps(*predicate, w)));
            } else {
                assert(set@ =~= o.take(i + 1).to_set().filter(|w: Seq<char>| keeps(*predicate, w)));
            }
            i = i + 1;
        }
        proof {
            self.lemma_view();
            assert(o.take(i as int) =~= o);
        }
        set
    }

    /// The non-empty texts whose characters are all alphabetic.
    pub fn filter_alphabetic(&self) -> (r: WordSet)
        ensures
            r.wf(),
            r@ == self@.filter(
                |w: Seq<char>| w.len() > 0 && forall|k: int| 0 <= k < w.len() ==> alphabetic_char(#[trigger] w[k]),
            ),
    {
        let nonempty = self.filter(&WordFilter::MinChars(1));
        let r = nonempty.filter(&WordFilter::Alphabetic);
        assert(r@ =~= self@.filter(
            |w: Seq<char>| w.len() > 0 && forall|k: int| 0 <= k < w.len() ==> alphabetic_char(#[trigger] w[k]),
        ));
        r
    }

    /// Replaces every text by its lowercase form; forms that coincide merge.
    pub fn to_lowercase(&mut self)
        requires
            old(self).wf(),
        ensures
            final(self).wf(),
            final(self)@ == old(self)@.map(|w: Seq<char>| lower_str(w)),
    {
        let ghost o = self.ordered();
        let mut set = WordSet::new();
        let mut i: usize = 0;
        while i < self.words.len()
            invariant
                set.wf(),
                i <= self.words.len(),
                o == self.ordered(),
                self.words@.map_values(|s: String| s@) == o,
                set@ == o.take(i as int).to_set().map(|w: Seq<char>| lower_str(w)),
            decreases self.words.len() - i,
        {
            let t = lowercase(self.words[i].as_str());
            assert(self.words@[i as int]@ == o[i as int]);
            proof {
                Self::lemma_take_set(o, i as int);
            }
            set.insert(t);
            assert(set@ =~= o.take(i + 1).to_set().map(|w: Seq<char>| lower_str(w))) by {
                let a = o.take(i as int).to_set();
                assert forall|x| #[trigger] set@.contains(x) <==> a.insert(o[i as int]).map(|w: Seq<char>| lower_str(w)).contains(x) by {
                    if x == lower_str(o[i as int]) {
                        assert(a.insert(o[i as int]).contains(o[i as int]));
                    }
                    if a.insert(o[i as int]).map(|w: Seq<char>| lower_str(w)).contains(x) {
                        let y = choose|y: Seq<char>| a.insert(o[i as int]).contains(y) && lower_str(y) == x;
                        if y != o[i as int] {
                            assert(a.contains(y));
                        }
                    }
                    if a.map(|w: Seq<char>| lower_str(w)).contains(x) {
                        let y = choose|y: Seq<char>| a.contains(y) && lower_str(y) == x;
                        assert(a.insert(o[i as int]).contains(y));
                    }
                }
            }
            i = i + 1;
        }
        proof {
            self.lemma_view();
            assert(o.take(i as int) =~= o);
        }
        *self = set;
    }
}

} // verus!
