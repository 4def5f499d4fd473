//! Sorted word streams: lazy sequences of entries, composed from sources
//! and transforms, whose words are checked to arrive in collation order.
//!
//! Every stage is one variant of [`Stage`]; [`BoxedWordStream`] holds any
//! of them, so an unbounded number of sources can be merged in a loop.

use std::cmp::Ordering;
use vstd::prelude::*;

use crate::collation::{case_fold_cmp, collate, le, lemma_collate_total_order};
use crate::entry::{entry_views, Entry, EntryView};
use crate::word::Word;

verus! {

/// What `str::to_lowercase` returns for a text.
pub uninterp spec fn lower_str(s: Seq<char>) -> Seq<char>;

/// What `char::is_alphabetic` says of a character.
pub uninterp spec fn alphabetic_char(c: char) -> bool;

/// Relies on `str::to_lowercase`: the lowercase form depends on the text alone.
#[verifier::external_body]
pub(crate) fn lowercase(s: &str) -> (r: String)
    ensures
        r@ == lower_str(s@),
{
    s.to_lowercase()
}

/// Relies on `char::is_alphabetic`.
#[verifier::external_body]
pub(crate) fn char_is_alphabetic(c: char) -> (r: bool)
    ensures
        r == alphabetic_char(c),
{
    c.is_alphabetic()
}

/// A content filter on words.
#[derive(Debug, Clone)]
pub enum WordFilter {
    /// Exactly this many characters.
    CharCount(usize),
    /// At least this many characters.
    MinChars(usize),
    /// At most this many characters.
    MaxChars(usize),
    /// Every character alphabetic.
    Alphabetic,
    /// Starts with one of these characters.
    StartsWithAny(Vec<char>),
    /// Lowercase form not among these texts.
    Excluding(Vec<String>),
}

/// The views of a sequence of texts.
pub open spec fn texts(s: Seq<String>) -> Seq<Seq<char>> {
    s.map_values(|x: String| x@)
}

/// Whether the filter keeps a word.
pub open spec fn keeps(f: WordFilter, w: Seq<char>) -> bool {
    match f {
        WordFilter::CharCount(n) => w.len() == n,
        WordFilter::MinChars(n) => w.len() >= n,
        WordFilter::MaxChars(n) => w.len() <= n,
        WordFilter::Alphabetic => forall|i: int| 0 <= i < w.len() ==> alphabetic_char(#[trigger] w[i]),
        WordFilter::StartsWithAny(cs) => w.len() > 0 && cs@.contains(w[0]),
        WordFilter::Excluding(ws) => !texts(ws@).contains(lower_str(w)),
    }
}

impl WordFilter {
    /// Whether the filter keeps `w`.
    pub fn accepts(&self, w: &str) -> (r: bool)
        ensures
            r == keeps(*self, w@),
    {
        match self {
            WordFilter::CharCount(n) => w.unicode_len() == *n,
            WordFilter::MinChars(n) => w.unicode_len() >= *n,
            WordFilter::MaxChars(n) => w.unicode_len() <= *n,
            WordFilter::Alphabetic => {
                let n = w.unicode_len();
                let mut i: usize = 0;
                while i < n
                    invariant
                        n == w@.len(),
                        i <= n,
                        *self == WordFilter::Alphabetic,
                        forall|k: int| 0 <= k < i ==> alphabetic_char(#[trigger] w@[k]),
                    decreases n - i,
                {
                    let c = w.get_char(i);
                    if !char_is_alphabetic(c) {
                        assert(!alphabetic_char(w@[i as int]));
                        return false;
                    }
                    i = i + 1;
                }
                true
            },
            WordFilter::StartsWithAny(cs) => {
                if w.unicode_len() == 0 {
                    return false;
                }
                let first = w.get_char(0);
                let mut i: usize = 0;
                while i < cs.len()
                    invariant
                        i <= cs.len(),
                        *self == WordFilter::StartsWithAny(*cs),
                        w@.len() > 0,
                        first == w@[0],
                        forall|k: int| 0 <= k < i ==> cs@[k] != first,
                    decreases cs.len() - i,
                {
                    if cs[i] == first {
                        assert(cs@[i as int] == w@[0]);
                        return true;
                    }
                    i = i + 1;
                }
                false
            },
            WordFilter::Excluding(ws) => {
                let lower = lowercase(w);
                let mut i: usize = 0;
                while i < ws.len()
                    invariant
                        i <= ws.len(),
                        *self == WordFilter::Excluding(*ws),
                        lower@ == lower_str(w@),
                        forall|k: int| 0 <= k < i ==> (#[trigger] ws@[k])@ != lower_str(w@),
                    decreases ws.len() - i,
                {
                    if ws[i] == lower {
                        assert(texts(ws@)[i as int] == lower_str(w@));
                        return false;
                    }
                    i = i + 1;
                }
                assert(!texts(ws@).contains(lower_str(w@)));
                true
            },
        }
    }
}

/// The entries that a filter lets through: words it keeps, and every
/// entry that is not a word.
pub open spec fn filtered(s: Seq<EntryView>, f: WordFilter) -> Seq<EntryView>
    decreases s.len(),
{
    if s.len() == 0 {
        seq![]
    } else {
        let tail = filtered(s.drop_first(), f);
        match s[0] {
            EntryView::Word(w) => if keeps(f, w) {
                seq![s[0]] + tail
            } else {
                tail
            },
            _ => seq![s[0]] + tail,
        }
    }
}

pub open spec fn lower_entry(e: EntryView) -> EntryView {
    match e {
        EntryView::Word(w) => EntryView::Word(lower_str(w)),
        _ => e,
    }
}

/// Every word replaced by its lowercase form.
pub open spec fn lowered(s: Seq<EntryView>) -> Seq<EntryView> {
    s.map_values(|e: EntryView| lower_entry(e))
}

/// Drops each word whose lowercase form equals that of the last word kept
/// (`prev` before the first); entries that are not words pass and leave
/// that baseline as it was.
pub open spec fn deduped(s: Seq<EntryView>, prev: Option<Seq<char>>) -> Seq<EntryView>
    decreases s.len(),
{
    if s.len() == 0 {
        seq![]
    } else {
        match s[0] {
            EntryView::Word(w) => if prev == Some(lower_str(w)) {
                deduped(s.drop_first(), prev)
            } else {
                seq![s[0]] + deduped(s.drop_first(), Some(lower_str(w)))
            },
            _ => seq![s[0]] + deduped(s.drop_first(), prev),
        }
    }
}

/// Two-way merge: of two word heads the left goes first unless it collates
/// after the right; an entry that is not a word goes first, left before right.
pub open spec fn merged(l: Seq<EntryView>, r: Seq<EntryView>) -> Seq<EntryView>
    decreases l.len() + r.len(),
{
    if l.len() == 0 {
        r
    } else if r.len() == 0 {
        l
    } else {
        match (l[0], r[0]) {
            (EntryView::Word(a), EntryView::Word(b)) => if collate(a, b) != Ordering::Greater {
                seq![l[0]] + merged(l.drop_first(), r)
            } else {
                seq![r[0]] + merged(l, r.drop_first())
            },
            (EntryView::Word(_), _) => seq![r[0]] + merged(l, r.drop_first()),
            _ => seq![l[0]] + merged(l.drop_first(), r),
        }
    }
}

/// Two adjacent words out of order.
pub open spec fn out_of_order(a: EntryView, b: EntryView) -> bool {
    a is Word && b is Word && collate(a->Word_0, b->Word_0) == Ordering::Greater
}

/// The entries up to the first pair of adjacent words out of order, which
/// is replaced by the report of that pair; nothing follows the report.
pub open spec fn checked(s: Seq<EntryView>) -> Seq<EntryView>
    decreases s.len(),
{
    if s.len() == 0 {
        seq![]
    } else if s.len() >= 2 && out_of_order(s[0], s[1]) {
        seq![EntryView::Unsorted(s[0]->Word_0, s[1]->Word_0)]
    } else {
        seq![s[0]] + checked(s.drop_first())
    }
}

/// Each word collates no later than the word right after it, where `prev`
/// is the word just before `s`, if the entry before `s` was a word.
pub open spec fn ordered_from(s: Seq<EntryView>, prev: Option<Seq<char>>) -> bool
    decreases s.len(),
{
    if s.len() == 0 {
        true
    } else {
        match s[0] {
            EntryView::Word(w) => (prev is None || le(collate(prev->Some_0, w))) && ordered_from(
                s.drop_first(),
                Some(w),
            ),
            _ => ordered_from(s.drop_first(), None),
        }
    }
}

/// No two adjacent words out of order.
pub open spec fn ordered(s: Seq<EntryView>) -> bool {
    ordered_from(s, None)
}

/// `q` bounds what `p` bounds: none, or a word no later than `p`.
pub open spec fn weaker(q: Option<Seq<char>>, p: Option<Seq<char>>) -> bool {
    q is None || (p is Some && le(collate(q->Some_0, p->Some_0)))
}

proof fn lemma_weaker_step(q: Option<Seq<char>>, p: Option<Seq<char>>, w: Seq<char>)
    requires
        weaker(q, p),
        p is None || le(collate(p->Some_0, w)),
        q is None || p is Some,
    ensures
        q is None || le(collate(q->Some_0, w)),
        weaker(Some(w), Some(w)),
{
    lemma_collate_total_order(w, w, w);
    if q is Some {
        lemma_collate_total_order(q->Some_0, p->Some_0, w);
    }
}

proof fn lemma_filtered_ordered(s: Seq<EntryView>, f: WordFilter, p: Option<Seq<char>>, q: Option<Seq<char>>)
    requires
        ordered_from(s, p),
        weaker(q, p),
    ensures
        ordered_from(filtered(s, f), q),
    decreases s.len(),
{
    if s.len() > 0 {
        let t = s.drop_first();
        match s[0] {
            EntryView::Word(w) => {
                lemma_weaker_step(q, p, w);
                if keeps(f, w) {
                    lemma_filtered_ordered(t, f, Some(w), Some(w));
                    assert((seq![s[0]] + filtered(t, f)).drop_first() =~= filtered(t, f));
                } else {
                    lemma_filtered_ordered(t, f, Some(w), q);
                }
            },
            _ => {
                lemma_filtered_ordered(t, f, None, None);
                assert((seq![s[0]] + filtered(t, f)).drop_first() =~= filtered(t, f));
            },
        }
    }
}

pub proof fn lemma_deduped_ordered(
    s: Seq<EntryView>,
    base: Option<Seq<char>>,
    p: Option<Seq<char>>,
    q: Option<Seq<char>>,
)
    requires
        ordered_from(s, p),
        weaker(q, p),
    ensures
        ordered_from(deduped(s, base), q),
    decreases s.len(),
{
    if s.len() > 0 {
        let t = s.drop_first();
        match s[0] {
            EntryView::Word(w) => {
                lemma_weaker_step(q, p, w);
                if base == Some(lower_str(w)) {
                    lemma_deduped_ordered(t, base, Some(w), q);
                } else {
                    lemma_deduped_ordered(t, Some(lower_str(w)), Some(w), Some(w));
                    assert((seq![s[0]] + deduped(t, Some(lower_str(w)))).drop_first() =~= deduped(
                        t,
                        Some(lower_str(w)),
                    ));
                }
            },
            _ => {
                lemma_deduped_ordered(t, base, None, None);
                assert((seq![s[0]] + deduped(t, base)).drop_first() =~= deduped(t, base));
            },
        }
    }
}

proof fn lemma_ordered_first(x: Seq<EntryView>, w: Seq<char>)
    requires
        ordered_from(x, None),
        x.len() == 0 || !(x[0] is Word) || le(collate(w, x[0]->Word_0)),
    ensures
        ordered_from(x, Some(w)),
{
}

/// What the order check lets through has no two adjacent words out of order.
pub proof fn lemma_checked_ordered(s: Seq<EntryView>)
    ensures
        ordered(checked(s)),
    decreases s.len(),
{
    if s.len() > 0 {
        if s.len() >= 2 && out_of_order(s[0], s[1]) {
            let c = checked(s);
            assert(c.drop_first() =~= Seq::<EntryView>::empty());
            assert(ordered_from(c.drop_first(), None));
        } else {
            let t = s.drop_first();
            lemma_checked_ordered(t);
            let c = checked(t);
            assert(checked(s) == seq![s[0]] + c);
            assert((seq![s[0]] + c).drop_first() =~= c);
            assert((seq![s[0]] + c)[0] == s[0]);
            if t.len() > 0 {
                assert(s[1] == t[0]);
            }
            if s[0] is Word {
                let w = s[0]->Word_0;
                if c.len() > 0 && c[0] is Word {
                    assert(t.len() >= 2 ==> !out_of_order(t[0], t[1]) || !(c[0] is Word));
                    assert(c[0] == t[0]);
                    lemma_collate_total_order(w, t[0]->Word_0, w);
                }
                lemma_ordered_first(c, w);
            }
        }
    }
}

/// A sequence with no two adjacent words out of order passes the order
/// check unchanged.
pub proof fn lemma_checked_identity(s: Seq<EntryView>, p: Option<Seq<char>>)
    requires
        ordered_from(s, p),
    ensures
        checked(s) == s,
    decreases s.len(),
{
    if s.len() > 0 {
        let t = s.drop_first();
        match s[0] {
            EntryView::Word(w) => {
                lemma_checked_identity(t, Some(w));
                if t.len() > 0 {
                    assert(s[1] == t[0]);
                    if t[0] is Word {
                        assert(ordered_from(t, Some(w)));
                        let w2 = t[0]->Word_0;
                        assert(t[0] == EntryView::Word(w2));
                        assert(le(collate(w, w2)));
                        assert(!out_of_order(s[0], s[1]));
                    }
                }
            },
            _ => {
                lemma_checked_identity(t, None);
            },
        }
        assert(checked(s) == seq![s[0]] + checked(t));
        assert(s =~= seq![s[0]] + t);
    }
}

pub open spec fn head_seq(h: Option<Entry>) -> Seq<EntryView> {
    match h {
        Some(e) => seq![e@],
        None => seq![],
    }
}

/// Entries held in memory, handed out front to back.
pub struct Pending {
    reversed: Vec<Entry>,
}

impl Pending {
    pub closed spec fn rest(&self) -> Seq<EntryView> {
        Seq::new(self.reversed.len() as nat, |i: int| self.reversed@[self.reversed.len() - 1 - i]@)
    }

    pub fn from_vec(mut items: Vec<Entry>) -> (r: Pending)
        ensures
            r.rest() == entry_views(items@),
    {
        let ghost given = items@;
        let mut reversed: Vec<Entry> = Vec::new();
        while items.len() > 0
            invariant
                given.len() == items.len() + reversed.len(),
                forall|k: int| 0 <= k < items.len() ==> items@[k] == given[k],
                forall|k: int|
                    0 <= k < reversed.len() ==> reversed@[k] == given[given.len() - 1 - k],
            decreases items.len(),
        {
            let e = items.pop().unwrap();
            reversed.push(e);
        }
        let r = Pending { reversed };
        assert(r.rest() =~= entry_views(given));
        r
    }

    pub fn next(&mut self) -> (r: Option<Entry>)
        ensures
            match r {
                None => old(self).rest() == Seq::<EntryView>::empty() && final(self).rest()
                    == old(self).rest(),
                Some(e) => old(self).rest() == seq![e@] + final(self).rest(),
            },
    {
        let r = self.reversed.pop();
        proof {
            if r is Some {
                assert(old(self).rest() =~= seq![r->Some_0@] + final(self).rest());
            } else {
                assert(old(self).rest() =~= Seq::<EntryView>::empty());
            }
        }
        r
    }
}

/// Words sorted in memory, handed out in order.
pub struct UnsortedWords {
    pending: Pending,
}

impl UnsortedWords {
    pub closed spec fn rest(&self) -> Seq<EntryView> {
        self.pending.rest()
    }

    /// Hands out `words` in the order given.
    pub fn new(words: Vec<Word>) -> (r: UnsortedWords)
        ensures
            r.rest() == words@.map_values(|w: Word| EntryView::Word(w@)),
    {
        let mut words = words;
        let ghost given = words@;
        let mut items: Vec<Entry> = Vec::new();
        let mut reversed: Vec<Word> = Vec::new();
        while words.len() > 0
            invariant
                given.len() == words.len() + reversed.len(),
                forall|k: int| 0 <= k < words.len() ==> words@[k] == given[k],
                forall|k: int|
                    0 <= k < reversed.len() ==> reversed@[k] == given[given.len() - 1 - k],
            decreases words.len(),
        {
            let w = words.pop().unwrap();
            reversed.push(w);
        }
        while reversed.len() > 0
            invariant
                given.len() == items.len() + reversed.len(),
                forall|k: int|
                    0 <= k < reversed.len() ==> reversed@[k] == given[given.len() - 1 - k],
                forall|k: int| 0 <= k < items.len() ==> (#[trigger] items@[k])@ == EntryView::Word(given[k]@),
            decreases reversed.len(),
        {
            let w = reversed.pop().unwrap();
            items.push(Entry::Word(w));
        }
        let r = UnsortedWords { pending: Pending::from_vec(items) };
        assert(entry_views(items@) =~= given.map_values(|w: Word| EntryView::Word(w@)));
        r
    }

    pub fn from_pending(pending: Pending) -> (r: UnsortedWords)
        ensures
            r.rest() == pending.rest(),
    {
        UnsortedWords { pending }
    }
}

/// Trimmed, non-blank lines of a text that is expected to be sorted.
pub struct SortedLines {
    pending: Pending,
}

impl SortedLines {
    pub closed spec fn rest(&self) -> Seq<EntryView> {
        self.pending.rest()
    }

    pub fn from_pending(pending: Pending) -> (r: SortedLines)
        ensures
            r.rest() == pending.rest(),
    {
        SortedLines { pending }
    }
}

/// Keeps the words that a filter accepts.
pub struct FilterStream {
    inner: Box<Stage>,
    predicate: WordFilter,
}

/// Replaces each word by its lowercase form.
pub struct LowercaseStream {
    inner: Box<Stage>,
}

/// Drops words whose lowercase form repeats that of the last word kept.
pub struct DedupStream {
    inner: Box<Stage>,
    previous_lower: Option<String>,
}

/// Merges two sorted streams.
pub struct MergeStream {
    left: Box<Stage>,
    right: Box<Stage>,
    left_head: Option<Entry>,
    right_head: Option<Entry>,
}

/// A stream whose words are checked, with one entry of lookahead, to arrive
/// in collation order.
pub struct WordStream {
    inner: Box<Stage>,
    head: Option<Entry>,
    halted: bool,
}

/// A stage of a pipeline.
pub enum Stage {
    Words(UnsortedWords),
    Lines(SortedLines),
    Filter(FilterStream),
    Lowercase(LowercaseStream),
    Dedup(DedupStream),
    Merge(MergeStream),
    Checked(WordStream),
}

pub open spec fn opt_view(s: Option<String>) -> Option<Seq<char>> {
    match s {
        Some(x) => Some(x@),
        None => None,
    }
}

impl Stage {
    /// The entries that the stage will still yield, in order.
    pub closed spec fn rest(&self) -> Seq<EntryView>
        decreases self,
    {
        match self {
            Stage::Words(u) => u.rest(),
            Stage::Lines(l) => l.rest(),
            Stage::Filter(f) => filtered(f.inner.rest(), f.predicate),
            Stage::Lowercase(l) => lowered(l.inner.rest()),
            Stage::Dedup(d) => deduped(d.inner.rest(), opt_view(d.previous_lower)),
            Stage::Merge(m) => merged(
                head_seq(m.left_head) + m.left.rest(),
                head_seq(m.right_head) + m.right.rest(),
            ),
            Stage::Checked(w) => if w.halted {
                seq![]
            } else {
                checked(head_seq(w.head) + w.inner.rest())
            },
        }
    }

    pub closed spec fn depth(&self) -> nat
        decreases self,
    {
        match self {
            Stage::Words(_) => 0,
            Stage::Lines(_) => 0,
            Stage::Filter(f) => 1 + f.inner.depth(),
            Stage::Lowercase(l) => 1 + l.inner.depth(),
            Stage::Dedup(d) => 1 + d.inner.depth(),
            Stage::Merge(m) => 1 + m.left.depth() + m.right.depth(),
            Stage::Checked(w) => 1 + w.inner.depth(),
        }
    }

    pub fn from_words(u: UnsortedWords) -> (r: Stage)
        ensures
            r.rest() == u.rest(),
    {
        Stage::Words(u)
    }

    pub fn from_lines(l: SortedLines) -> (r: Stage)
        ensures
            r.rest() == l.rest(),
    {
        Stage::Lines(l)
    }

    pub fn from_filter(f: FilterStream) -> (r: Stage)
        ensures
            r.rest() == f.rest(),
    {
        Stage::Filter(f)
    }

    pub fn from_lowercase(l: LowercaseStream) -> (r: Stage)
        ensures
            r.rest() == l.rest(),
    {
        Stage::Lowercase(l)
    }

    pub fn from_dedup(d: DedupStream) -> (r: Stage)
        ensures
            r.rest() == d.rest(),
    {
        Stage::Dedup(d)
    }

    pub fn from_merge(m: MergeStream) -> (r: Stage)
        ensures
            r.rest() == m.rest(),
    {
        Stage::Merge(m)
    }

    /// Yields the next entry.
    pub fn next(&mut self) -> (r: Option<Entry>)
        ensures
            final(self).depth() == old(self).depth(),
            match r {
                None => old(self).rest() == Seq::<EntryView>::empty() && final(self).rest()
                    == old(self).rest(),
                Some(e) => old(self).rest() == seq![e@] + final(self).rest(),
            },
        decreases old(self).depth(), 1nat,
    {
        match self {
            Stage::Words(u) => u.pending.next(),
            Stage::Lines(l) => l.pending.next(),
            Stage::Filter(f) => f.next(),
            Stage::Lowercase(l) => l.next(),
            Stage::Dedup(d) => d.next(),
            Stage::Merge(m) => m.next(),
            Stage::Checked(w) => w.next(),
        }
    }
}

impl FilterStream {
    pub closed spec fn inner_depth(&self) -> nat {
        self.inner.depth()
    }

    pub closed spec fn rest(&self) -> Seq<EntryView> {
        filtered(self.inner.rest(), self.predicate)
    }

    pub fn new(inner: Stage, predicate: WordFilter) -> (r: FilterStream)
        ensures
            r.rest() == filtered(inner.rest(), predicate),
            r.inner_depth() == inner.depth(),
    {
        FilterStream { inner: Box::new(inner), predicate }
    }

    fn next(&mut self) -> (r: Option<Entry>)
        ensures
            final(self).inner_depth() == old(self).inner_depth(),
            final(self).predicate == old(self).predicate,
            match r {
                None => old(self).rest() == Seq::<EntryView>::empty() && final(self).rest()
                    == old(self).rest(),
                Some(e) => old(self).rest() == seq![e@] + final(self).rest(),
            },
        decreases 1 + old(self).inner_depth(), 0nat,
    {
        let ghost start = self.rest();
        loop
            invariant
                self.inner_depth() == old(self).inner_depth(),
                self.predicate == old(self).predicate,
                self.rest() == start,
                start == old(self).rest(),
            decreases self.inner.rest().len(),
        {
            let ghost before = self.inner.rest();
            let next = self.inner.next();
            proof {
                if next is Some {
                    assert(before.drop_first() =~= self.inner.rest());
                    assert(before[0] == next->Some_0@);
                }
            }
            match next {
                None => {
                    return None;
                },
                Some(Entry::Word(w)) => {
                    if self.predicate.accepts(w.as_str()) {
                        return Some(Entry::Word(w));
                    }
                },
                Some(e) => {
                    return Some(e);
                },
            }
        }
    }
}


impl LowercaseStream {
    pub closed spec fn inner_depth(&self) -> nat {
        self.inner.depth()
    }

    pub closed spec fn rest(&self) -> Seq<EntryView> {
        lowered(self.inner.rest())
    }

    pub fn new(inner: Stage) -> (r: LowercaseStream)
        ensures
            r.rest() == lowered(inner.rest()),
            r.inner_depth() == inner.depth(),
    {
        LowercaseStream { inner: Box::new(inner) }
    }

    fn next(&mut self) -> (r: Option<Entry>)
        ensures
            final(self).inner_depth() == old(self).inner_depth(),
            match r {
                None => old(self).rest() == Seq::<EntryView>::empty() && final(self).rest()
                    == old(self).rest(),
                Some(e) => old(self).rest() == seq![e@] + final(self).rest(),
            },
        decreases 1 + old(self).inner_depth(), 0nat,
    {
        let ghost before = self.inner.rest();
        let r = self.inner.next();
        proof {
            if r is Some {
                assert(lowered(before) =~= seq![lower_entry(r->Some_0@)] + lowered(self.inner.rest()));
            }
        }
        match r {
            None => None,
            Some(Entry::Word(w)) => Some(Entry::Word(Word(lowercase(w.as_str())))),
            Some(e) => Some(e),
        }
    }
}

impl DedupStream {
    pub closed spec fn inner_depth(&self) -> nat {
        self.inner.depth()
    }

    pub closed spec fn rest(&self) -> Seq<EntryView> {
        deduped(self.inner.rest(), opt_view(self.previous_lower))
    }

    pub fn new(inner: Stage) -> (r: DedupStream)
        ensures
            r.rest() == deduped(inner.rest(), None),
            r.inner_depth() == inner.depth(),
    {
        DedupStream { inner: Box::new(inner), previous_lower: None }
    }

    fn next(&mut self) -> (r: Option<Entry>)
        ensures
            final(self).inner_depth() == old(self).inner_depth(),
            match r {
                None => old(self).rest() == Seq::<EntryView>::empty() && final(self).rest()
                    == old(self).rest(),
                Some(e) => old(self).rest() == seq![e@] + final(self).rest(),
            },
        decreases 1 + old(self).inner_depth(), 0nat,
    {
        let ghost start = self.rest();
        loop
            invariant
                self.inner_depth() == old(self).inner_depth(),
                self.rest() == start,
                start == old(self).rest(),
            decreases self.inner.rest().len(),
        {
            let ghost before = self.inner.rest();
            let next = self.inner.next();
            proof {
                if next is Some {
                    assert(before.drop_first() =~= self.inner.rest());
                    assert(before[0] == next->Some_0@);
                }
            }
            match next {
                None => {
                    return None;
                },
                Some(Entry::Word(w)) => {
                    let low = lowercase(w.as_str());
                    let duplicate = match &self.previous_lower {
                        Some(p) => *p == low,
                        None => false,
                    };
                    if !duplicate {
                        self.previous_lower = Some(low);
                        return Some(Entry::Word(w));
                    }
                },
                Some(e) => {
                    return Some(e);
                },
            }
        }
    }
}

impl MergeStream {
    pub closed spec fn rest(&self) -> Seq<EntryView> {
        merged(
            head_seq(self.left_head) + self.left.rest(),
            head_seq(self.right_head) + self.right.rest(),
        )
    }

    pub closed spec fn depth(&self) -> nat {
        1 + self.left.depth() + self.right.depth()
    }

    pub fn new(left: Stage, right: Stage) -> (r: MergeStream)
        ensures
            r.rest() == merged(left.rest(), right.rest()),
            r.depth() == 1 + left.depth() + right.depth(),
    {
        let r = MergeStream {
            left: Box::new(left),
            right: Box::new(right),
            left_head: None,
            right_head: None,
        };
        assert(head_seq(None) + left.rest() =~= left.rest());
        assert(head_seq(None) + right.rest() =~= right.rest());
        r
    }

    fn next(&mut self) -> (r: Option<Entry>)
        ensures
            final(self).depth() == old(self).depth(),
            match r {
                None => old(self).rest() == Seq::<EntryView>::empty() && final(self).rest()
                    == old(self).rest(),
                Some(e) => old(self).rest() == seq![e@] + final(self).rest(),
            },
        decreases old(self).depth(), 0nat,
    {
        let ghost l0 = head_seq(self.left_head) + self.left.rest();
        let ghost r0 = head_seq(self.right_head) + self.right.rest();
        if self.left_head.is_none() {
            self.left_head = self.left.next();
            assert(head_seq(self.left_head) + self.left.rest() =~= l0);
        }
        if self.right_head.is_none() {
            self.right_head = self.right.next();
            assert(head_seq(self.right_head) + self.right.rest() =~= r0);
        }
        let lh = self.left_head.take();
        let rh = self.right_head.take();
        assert(head_seq(None) + self.left.rest() =~= self.left.rest());
        assert(head_seq(None) + self.right.rest() =~= self.right.rest());
        match (lh, rh) {
            (None, None) => None,
            (Some(l), None) => {
                assert(l0.drop_first() =~= self.left.rest());
                Some(l)
            },
            (None, Some(r)) => {
                assert(r0.drop_first() =~= self.right.rest());
                Some(r)
            },
            (Some(l), Some(r)) => {
                let take_left = match (&l, &r) {
                    (Entry::Word(a), Entry::Word(b)) => match case_fold_cmp(a.as_str(), b.as_str()) {
                        Ordering::Greater => false,
                        _ => true,
                    },
                    (Entry::Word(_), _) => false,
                    _ => true,
                };
                assert(l0.drop_first() =~= self.left.rest());
                assert(r0.drop_first() =~= self.right.rest());
                if take_left {
                    self.right_head = Some(r);
                    Some(l)
                } else {
                    self.left_head = Some(l);
                    Some(r)
                }
            },
        }
    }
}

impl WordStream {
    pub closed spec fn inner_depth(&self) -> nat {
        self.inner.depth()
    }

    /// The entries that the stream will still yield.
    pub closed spec fn rest(&self) -> Seq<EntryView> {
        if self.halted {
            seq![]
        } else {
            checked(head_seq(self.head) + self.inner.rest())
        }
    }

    /// A checked stream over a stage: it yields the stage's entries, except
    /// that the first pair of adjacent words out of order is reported as
    /// `Entry::Unsorted` and ends the stream.
    pub fn new(inner: Stage) -> (r: WordStream)
        ensures
            r.rest() == checked(inner.rest()),
            r.inner_depth() == inner.depth(),
    {
        let r = WordStream { inner: Box::new(inner), head: None, halted: false };
        assert(head_seq(None) + inner.rest() =~= inner.rest());
        r
    }

    /// Yields the next entry.
    pub fn next(&mut self) -> (r: Option<Entry>)
        ensures
            final(self).inner_depth() == old(self).inner_depth(),
            match r {
                None => old(self).rest() == Seq::<EntryView>::empty() && final(self).rest()
                    == old(self).rest(),
                Some(e) => old(self).rest() == seq![e@] + final(self).rest(),
            },
        decreases 1 + old(self).inner_depth(), 0nat,
    {
        if self.halted {
            return None;
        }
        let ghost s0 = head_seq(self.head) + self.inner.rest();
        if self.head.is_none() {
            self.head = self.inner.next();
            assert(head_seq(self.head) + self.inner.rest() =~= s0);
        }
        match self.head.take() {
            None => {
                assert(s0 =~= Seq::<EntryView>::empty());
                None
            },
            Some(cur) => {
                let nxt = self.inner.next();
                let ghost s1 = head_seq(nxt) + self.inner.rest();
                assert(s0 =~= seq![cur@] + s1);
                assert(s0.drop_first() =~= s1);
                let bad = match (&cur, &nxt) {
                    (Entry::Word(a), Some(Entry::Word(b))) => match case_fold_cmp(
                        a.as_str(),
                        b.as_str(),
                    ) {
                        Ordering::Greater => true,
                        _ => false,
                    },
                    _ => false,
                };
                if bad {
                    self.halted = true;
                    match (cur, nxt) {
                        (Entry::Word(a), Some(Entry::Word(b))) => Some(Entry::Unsorted(a, b)),
                        _ => None,
                    }
                } else {
                    self.head = nxt;
                    Some(cur)
                }
            },
        }
    }

    /// The entries left after `filter(predicate)`.
    pub open spec fn filter_spec(self, predicate: WordFilter) -> Seq<EntryView> {
        filtered(self.rest(), predicate)
    }

    /// No two adjacent words of what the stream will still yield are out of order.
    pub proof fn lemma_rest_ordered(&self)
        ensures
            ordered(self.rest()),
    {
        if !self.halted {
            lemma_checked_ordered(head_seq(self.head) + self.inner.rest());
        }
    }

    /// Keeps the words that `predicate` accepts.
    pub fn filter(self, predicate: WordFilter) -> (r: WordStream)
        ensures
            r.rest() == filtered(self.rest(), predicate),
    {
        proof {
            self.lemma_rest_ordered();
            lemma_filtered_ordered(self.rest(), predicate, None, None);
            lemma_checked_identity(filtered(self.rest(), predicate), None);
        }
        WordStream::new(Stage::Filter(FilterStream::new(Stage::Checked(self), predicate)))
    }

    /// Drops words with a character that is not alphabetic.
    pub fn filter_non_alphabetic(self) -> (r: WordStream)
        ensures
            r.rest() == filtered(self.rest(), WordFilter::Alphabetic),
    {
        self.filter(WordFilter::Alphabetic)
    }

    /// Replaces each word by its lowercase form.
    ///
    /// The order is checked again afterwards: the collation key is the
    /// lowercase form, so lowercasing keeps sorted input sorted only if
    /// lowercasing a lowercase form changes nothing, and `str::to_lowercase`
    /// does not document that law.
    pub fn to_lowercase(self) -> (r: WordStream)
        ensures
            r.rest() == checked(lowered(self.rest())),
    {
        WordStream::new(Stage::Lowercase(LowercaseStream::new(Stage::Checked(self))))
    }

    /// Drops each word whose lowercase form equals that of the last word kept.
    pub fn dedup(self) -> (r: WordStream)
        ensures
            r.rest() == deduped(self.rest(), None),
    {
        proof {
            self.lemma_rest_ordered();
            lemma_deduped_ordered(self.rest(), None, None, None);
            lemma_checked_identity(deduped(self.rest(), None), None);
        }
        WordStream::new(Stage::Dedup(DedupStream::new(Stage::Checked(self))))
    }

    /// Merges with another sorted stream; duplicates are kept, left first.
    pub fn merge(self, other: WordStream) -> (r: WordStream)
        ensures
            r.rest() == checked(merged(self.rest(), other.rest())),
    {
        WordStream::new(Stage::Merge(MergeStream::new(Stage::Checked(self), Stage::Checked(other))))
    }

    /// The entries the stream still holds, before the order check.
    pub closed spec fn unchecked_rest(&self) -> Seq<EntryView> {
        if self.halted {
            seq![]
        } else {
            head_seq(self.head) + self.inner.rest()
        }
    }

    /// What the stream yields is its held entries, order-checked.
    pub proof fn lemma_rest_is_checked(&self)
        ensures
            self.rest() == checked(self.unchecked_rest()),
    {
    }

    /// The stream as a stage that still checks the order.
    pub fn into_stage(self) -> (r: Stage)
        ensures
            r.rest() == self.rest(),
    {
        Stage::Checked(self)
    }

    /// The entries the stream still holds, as a stage without the order check.
    pub fn into_inner(self) -> (r: Stage)
        ensures
            r.rest() == self.unchecked_rest(),
    {
        if self.halted {
            let empty = UnsortedWords::new(Vec::new());
            let r = Stage::Words(empty);
            assert(r.rest() =~= Seq::<EntryView>::empty());
            return r;
        }
        let ghost held = head_seq(self.head) + self.inner.rest();
        let none = UnsortedWords::new(Vec::new());
        let m = MergeStream {
            left: self.inner,
            right: Box::new(Stage::Words(none)),
            left_head: self.head,
            right_head: None,
        };
        assert(head_seq(None) + m.right.rest() =~= Seq::<EntryView>::empty());
        assert(merged(held, Seq::<EntryView>::empty()) == held);
        Stage::Merge(m)
    }

    /// A type-erased stream with the same entries.
    pub fn boxed(self) -> (r: BoxedWordStream)
        ensures
            r.rest() == self.rest(),
    {
        BoxedWordStream::new(Stage::Checked(self))
    }
}

/// A stream of any composition of stages; its transforms do not add
/// order checks of their own.
pub struct BoxedWordStream {
    inner: Stage,
}

impl BoxedWordStream {
    pub closed spec fn rest(&self) -> Seq<EntryView> {
        self.inner.rest()
    }

    pub fn new(inner: Stage) -> (r: BoxedWordStream)
        ensures
            r.rest() == inner.rest(),
    {
        BoxedWordStream { inner }
    }

    pub fn next(&mut self) -> (r: Option<Entry>)
        ensures
            match r {
                None => old(self).rest() == Seq::<EntryView>::empty() && final(self).rest()
                    == old(self).rest(),
                Some(e) => old(self).rest() == seq![e@] + final(self).rest(),
            },
    {
        self.inner.next()
    }

    /// The stage inside the stream.
    pub fn into_inner(self) -> (r: Stage)
        ensures
            r.rest() == self.rest(),
    {
        self.inner
    }

    /// Merges with another stream; duplicates are kept, left first.
    pub fn merge(self, other: BoxedWordStream) -> (r: BoxedWordStream)
        ensures
            r.rest() == merged(self.rest(), other.rest()),
    {
        BoxedWordStream::new(Stage::Merge(MergeStream::new(self.inner, other.inner)))
    }

    /// Keeps the words that `predicate` accepts.
    pub fn filter(self, predicate: WordFilter) -> (r: BoxedWordStream)
        ensures
            r.rest() == filtered(self.rest(), predicate),
    {
        BoxedWordStream::new(Stage::Filter(FilterStream::new(self.inner, predicate)))
    }

    /// Replaces each word by its lowercase form.
    pub fn to_lowercase(self) -> (r: BoxedWordStream)
        ensures
            r.rest() == lowered(self.rest()),
    {
        BoxedWordStream::new(Stage::Lowercase(LowercaseStream::new(self.inner)))
    }

    /// Drops each word whose lowercase form equals that of the last word kept.
    pub fn dedup(self) -> (r: BoxedWordStream)
        ensures
            r.rest() == deduped(self.rest(), None),
    {
        BoxedWordStream::new(Stage::Dedup(DedupStream::new(self.inner)))
    }
}

/// The cleaning chain applied to each source before merging: five-letter
/// words, all alphabetic, lowercased, with repeated lowercase forms dropped.
pub fn process_input_stream(stream: WordStream) -> (r: BoxedWordStream)
    ensures
        r.rest() == deduped(
            checked(
                lowered(
                    filtered(filtered(stream.rest(), WordFilter::CharCount(5)), WordFilter::Alphabetic),
                ),
            ),
            None,
        ),
{
    stream.filter(WordFilter::CharCount(5)).filter_non_alphabetic().to_lowercase().dedup().boxed()
}

} // verus!
