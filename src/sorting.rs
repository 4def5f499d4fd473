//! Sortedness, the merge law, and sorting words in memory by merging.

use std::cmp::Ordering;
use vstd::prelude::*;

use crate::collation::{collate, flip, le, lemma_collate_total_order, lemma_lex_flip, lemma_lex_trans, lemma_scalars_injective, lex_cmp, primary_key, scalars};
use crate::entry::{all_words, entry_views, Entry, EntryView};
use crate::stream::{checked, deduped, lemma_deduped_ordered, lower_str, merged, ordered_from, out_of_order, MergeStream, Pending, Stage, UnsortedWords};

verus! {

/// Only words, each collating no later than the next.
pub open spec fn sorted_words(s: Seq<EntryView>) -> bool {
    &&& all_words(s)
    &&& forall|i: int| 0 <= i < s.len() - 1 ==> le(#[trigger] collate(s[i]->Word_0, s[i + 1]->Word_0))
}

proof fn lemma_merged_head(l: Seq<EntryView>, r: Seq<EntryView>)
    requires
        l.len() + r.len() > 0,
    ensures
        merged(l, r).len() == l.len() + r.len(),
        (l.len() > 0 && merged(l, r)[0] == l[0]) || (r.len() > 0 && merged(l, r)[0] == r[0]),
    decreases l.len() + r.len(),
{
    lemma_merged_len(l, r);
}

proof fn lemma_merged_len(l: Seq<EntryView>, r: Seq<EntryView>)
    ensures
        merged(l, r).len() == l.len() + r.len(),
    decreases l.len() + r.len(),
{
    if l.len() > 0 && r.len() > 0 {
        lemma_merged_len(l.drop_first(), r);
        lemma_merged_len(l, r.drop_first());
    }
}

proof fn lemma_merged_multiset(l: Seq<EntryView>, r: Seq<EntryView>)
    ensures
        merged(l, r).to_multiset() == l.to_multiset().add(r.to_multiset()),
    decreases l.len() + r.len(),
{
    broadcast use vstd::seq_lib::lemma_multiset_commutative;
    broadcast use vstd::multiset::group_multiset_axioms;

    if l.len() == 0 {
        assert(l + r =~= r);
        assert((l + r).to_multiset() =~= l.to_multiset().add(r.to_multiset()));
    } else if r.len() == 0 {
        assert(l + r =~= l);
        assert((l + r).to_multiset() =~= l.to_multiset().add(r.to_multiset()));
    } else {
        assert(l =~= seq![l[0]] + l.drop_first());
        assert(r =~= seq![r[0]] + r.drop_first());
        lemma_merged_multiset(l.drop_first(), r);
        lemma_merged_multiset(l, r.drop_first());
        assert(merged(l, r).to_multiset() =~= l.to_multiset().add(r.to_multiset()));
    }
}

/// Merging two sorted sequences of words yields a sorted sequence of words
/// that holds exactly the entries of both, duplicates included.
pub proof fn lemma_merge_sorted(l: Seq<EntryView>, r: Seq<EntryView>)
    requires
        sorted_words(l),
        sorted_words(r),
    ensures
        sorted_words(merged(l, r)),
        merged(l, r).to_multiset() == l.to_multiset().add(r.to_multiset()),
    decreases l.len() + r.len(),
{
    lemma_merged_multiset(l, r);
    lemma_merged_len(l, r);
    if l.len() > 0 && r.len() > 0 {
        let a = l[0]->Word_0;
        let b = r[0]->Word_0;
        lemma_collate_total_order(a, b, a);
        if collate(a, b) != Ordering::Greater {
            let t = l.drop_first();
            lemma_merge_sorted(t, r);
            let m = merged(t, r);
            assert(merged(l, r) == seq![l[0]] + m);
            lemma_merged_head(t, r);
            lemma_merged_len(t, r);
            if t.len() > 0 {
                assert(l[1] == t[0]);
                assert(le(collate(l[0]->Word_0, l[1]->Word_0)));
            }
            assert forall|i: int| 0 <= i < merged(l, r).len() implies (#[trigger] merged(l, r)[i]) is Word by {
                if i > 0 {
                    assert(merged(l, r)[i] == m[i - 1]);
                }
            }
            assert forall|i: int| 0 <= i < merged(l, r).len() - 1 implies le(
                #[trigger] collate(merged(l, r)[i]->Word_0, merged(l, r)[i + 1]->Word_0),
            ) by {
                assert(merged(l, r)[i + 1] == m[i]);
                if i > 0 {
                    let k = i - 1;
                    assert(merged(l, r)[i] == m[k]);
                    assert(le(collate(m[k]->Word_0, m[k + 1]->Word_0)));
                } else {
                    assert(merged(l, r)[0]->Word_0 == if collate(a, b) != Ordering::Greater { a } else { b });
                }
            }
        } else {
            let t = r.drop_first();
            lemma_merge_sorted(l, t);
            let m = merged(l, t);
            assert(merged(l, r) == seq![r[0]] + m);
            lemma_merged_head(l, t);
            lemma_merged_len(l, t);
            assert(collate(b, a) == Ordering::Less);
            if t.len() > 0 {
                assert(r[1] == t[0]);
                assert(le(collate(r[0]->Word_0, r[1]->Word_0)));
            }
            assert forall|i: int| 0 <= i < merged(l, r).len() implies (#[trigger] merged(l, r)[i]) is Word by {
                if i > 0 {
                    assert(merged(l, r)[i] == m[i - 1]);
                }
            }
            assert forall|i: int| 0 <= i < merged(l, r).len() - 1 implies le(
                #[trigger] collate(merged(l, r)[i]->Word_0, merged(l, r)[i + 1]->Word_0),
            ) by {
                assert(merged(l, r)[i + 1] == m[i]);
                if i > 0 {
                    let k = i - 1;
                    assert(merged(l, r)[i] == m[k]);
                    assert(le(collate(m[k]->Word_0, m[k + 1]->Word_0)));
                } else {
                    assert(merged(l, r)[0]->Word_0 == if collate(a, b) != Ordering::Greater { a } else { b });
                }
            }
        }
    }
}

/// A sorted sequence of words passes the order check unchanged.
pub proof fn lemma_checked_sorted(s: Seq<EntryView>)
    requires
        sorted_words(s),
    ensures
        checked(s) == s,
    decreases s.len(),
{
    if s.len() > 0 {
        let t = s.drop_first();
        assert(sorted_words(t)) by {
            assert forall|i: int| 0 <= i < t.len() implies (#[trigger] t[i]) is Word by {
                assert(t[i] == s[i + 1]);
            }
            assert forall|i: int| 0 <= i < t.len() - 1 implies le(
                #[trigger] collate(t[i]->Word_0, t[i + 1]->Word_0),
            ) by {
                let k = i + 1;
                assert(le(collate(s[k]->Word_0, s[k + 1]->Word_0)));
            }
        }
        lemma_checked_sorted(t);
        if s.len() >= 2 {
            assert(le(collate(s[0]->Word_0, s[1]->Word_0)));
        }
        assert(s =~= seq![s[0]] + t);
    }
}

/// A sequence with two adjacent words out of order never passes the order
/// check: the checked sequence ends with the report of an unsorted pair,
/// which is not a read error.
pub proof fn lemma_unsorted_reported(s: Seq<EntryView>, k: int)
    requires
        0 <= k < s.len() - 1,
        out_of_order(s[k], s[k + 1]),
    ensures
        checked(s).len() > 0,
        checked(s).last() is Unsorted,
    decreases s.len(),
{
    if !out_of_order(s[0], s[1]) {
        let t = s.drop_first();
        assert(t[k - 1] == s[k] && t[k] == s[k + 1]);
        lemma_unsorted_reported(t, k - 1);
        assert(checked(s) == seq![s[0]] + checked(t));
        assert(checked(s).last() == checked(t).last());
    }
}

/// The lowercase forms of the words of a sequence, in order; entries that
/// are not words are skipped.
pub open spec fn word_lowers(s: Seq<EntryView>) -> Seq<Seq<char>>
    decreases s.len(),
{
    if s.len() == 0 {
        seq![]
    } else {
        let t = word_lowers(s.drop_first());
        match s[0] {
            EntryView::Word(w) => seq![lower_str(w)] + t,
            _ => t,
        }
    }
}

proof fn lemma_dedup_general(s: Seq<EntryView>, prev: Option<Seq<char>>)
    ensures
        word_lowers(deduped(s, prev)).len() > 0 && prev is Some ==> word_lowers(deduped(s, prev))[0]
            != prev->Some_0,
        forall|i: int|
            0 <= i < word_lowers(deduped(s, prev)).len() - 1 ==> #[trigger] word_lowers(
                deduped(s, prev),
            )[i] != word_lowers(deduped(s, prev))[i + 1],
        forall|x: Seq<char>|
            word_lowers(s).contains(x) ==> word_lowers(deduped(s, prev)).contains(x) || prev == Some(
                x,
            ),
        forall|x: Seq<char>| word_lowers(deduped(s, prev)).contains(x) ==> word_lowers(s).contains(x),
        forall|e: EntryView| deduped(s, prev).contains(e) ==> s.contains(e),
    decreases s.len(),
{
    if s.len() > 0 {
        let t = s.drop_first();
        match s[0] {
            EntryView::Word(w) => {
                let lw = lower_str(w);
                assert(word_lowers(s) == seq![lw] + word_lowers(t));
                if prev == Some(lw) {
                    lemma_dedup_general(t, prev);
                    let out = deduped(t, prev);
                    assert(deduped(s, prev) == out);
                    assert forall|x: Seq<char>| word_lowers(s).contains(x) implies word_lowers(
                        out,
                    ).contains(x) || prev == Some(x) by {
                        if x != lw {
                            let k = choose|k: int|
                                0 <= k < word_lowers(s).len() && word_lowers(s)[k] == x;
                            assert(word_lowers(t)[k - 1] == x);
                            assert(word_lowers(t).contains(x));
                        }
                    }
                    assert forall|x: Seq<char>| word_lowers(out).contains(x) implies word_lowers(
                        s,
                    ).contains(x) by {
                        assert(word_lowers(t).contains(x));
                        let k = choose|k: int| 0 <= k < word_lowers(t).len() && word_lowers(t)[k] == x;
                        assert(word_lowers(s)[k + 1] == x);
                    }
                    assert forall|e: EntryView| out.contains(e) implies s.contains(e) by {
                        assert(t.contains(e));
                        let k = choose|k: int| 0 <= k < t.len() && t[k] == e;
                        assert(s[k + 1] == e);
                    }
                } else {
                    lemma_dedup_general(t, Some(lw));
                    let o = deduped(t, Some(lw));
                    let out = deduped(s, prev);
                    assert(out == seq![s[0]] + o);
                    assert((seq![s[0]] + o).drop_first() =~= o);
                    assert(word_lowers(out) == seq![lw] + word_lowers(o));
                    assert forall|i: int| 0 <= i < word_lowers(out).len() - 1 implies #[trigger] word_lowers(
                        out,
                    )[i] != word_lowers(out)[i + 1] by {
                        assert(word_lowers(out)[i + 1] == word_lowers(o)[i]);
                        if i > 0 {
                            let k = i - 1;
                            assert(word_lowers(out)[i] == word_lowers(o)[k]);
                            assert(word_lowers(o)[k] != word_lowers(o)[k + 1]);
                        }
                    }
                    assert forall|x: Seq<char>| word_lowers(s).contains(x) implies word_lowers(
                        out,
                    ).contains(x) || prev == Some(x) by {
                        if x == lw {
                            assert(word_lowers(out)[0] == x);
                        } else {
                            let k = choose|k: int|
                                0 <= k < word_lowers(s).len() && word_lowers(s)[k] == x;
                            assert(word_lowers(t)[k - 1] == x);
                            assert(word_lowers(t).contains(x));
                            assert(word_lowers(o).contains(x));
                            let j = choose|j: int| 0 <= j < word_lowers(o).len() && word_lowers(o)[j] == x;
                            assert(word_lowers(out)[j + 1] == x);
                        }
                    }
                    assert forall|x: Seq<char>| word_lowers(out).contains(x) implies word_lowers(
                        s,
                    ).contains(x) by {
                        let k = choose|k: int| 0 <= k < word_lowers(out).len() && word_lowers(out)[k] == x;
                        if k == 0 {
                            assert(word_lowers(s)[0] == x);
                        } else {
                            assert(word_lowers(o)[k - 1] == x);
                            assert(word_lowers(o).contains(x));
                            assert(word_lowers(t).contains(x));
                            let j = choose|j: int| 0 <= j < word_lowers(t).len() && word_lowers(t)[j] == x;
                            assert(word_lowers(s)[j + 1] == x);
                        }
                    }
                    assert forall|e: EntryView| out.contains(e) implies s.contains(e) by {
                        let k = choose|k: int| 0 <= k < out.len() && out[k] == e;
                        if k == 0 {
                            assert(s[0] == e);
                        } else {
                            assert(o[k - 1] == e);
                            assert(o.contains(e));
                            assert(t.contains(e));
                            let j = choose|j: int| 0 <= j < t.len() && t[j] == e;
                            assert(s[j + 1] == e);
                        }
                    }
                }
            },
            _ => {
                lemma_dedup_general(t, prev);
                let o = deduped(t, prev);
                let out = deduped(s, prev);
                assert(out == seq![s[0]] + o);
                assert((seq![s[0]] + o).drop_first() =~= o);
                assert(word_lowers(out) == word_lowers(o));
                assert(word_lowers(s) == word_lowers(t));
                assert forall|e: EntryView| out.contains(e) implies s.contains(e) by {
                    let k = choose|k: int| 0 <= k < out.len() && out[k] == e;
                    if k == 0 {
                        assert(s[0] == e);
                    } else {
                        assert(o[k - 1] == e);
                        assert(o.contains(e));
                        assert(t.contains(e));
                        let j = choose|j: int| 0 <= j < t.len() && t[j] == e;
                        assert(s[j + 1] == e);
                    }
                }
            },
        }
    }
}

/// Deduplicating keeps only entries of the input; among the words it keeps,
/// read errors between them aside, no two in a row have equal lowercase
/// forms; and the lowercase forms of the kept words are exactly those of the
/// input's words.
pub proof fn lemma_dedup(s: Seq<EntryView>)
    ensures
        forall|i: int|
            0 <= i < word_lowers(deduped(s, None)).len() - 1 ==> #[trigger] word_lowers(
                deduped(s, None),
            )[i] != word_lowers(deduped(s, None))[i + 1],
        word_lowers(deduped(s, None)).to_set() == word_lowers(s).to_set(),
        forall|e: EntryView| deduped(s, None).contains(e) ==> s.contains(e),
{
    lemma_dedup_general(s, None);
    assert(word_lowers(deduped(s, None)).to_set() =~= word_lowers(s).to_set());
}

proof fn lemma_sorted_ordered(s: Seq<EntryView>, p: Option<Seq<char>>)
    requires
        sorted_words(s),
        s.len() > 0 ==> (p is None || le(collate(p->Some_0, s[0]->Word_0))),
    ensures
        ordered_from(s, p),
    decreases s.len(),
{
    if s.len() > 0 {
        let t = s.drop_first();
        assert(sorted_words(t)) by {
            assert forall|i: int| 0 <= i < t.len() implies (#[trigger] t[i]) is Word by {
                assert(t[i] == s[i + 1]);
            }
            assert forall|i: int| 0 <= i < t.len() - 1 implies le(
                #[trigger] collate(t[i]->Word_0, t[i + 1]->Word_0),
            ) by {
                let k = i + 1;
                assert(le(collate(s[k]->Word_0, s[k + 1]->Word_0)));
            }
        }
        if t.len() > 0 {
            assert(le(collate(s[0]->Word_0, s[1]->Word_0)));
        }
        assert(s[0] == EntryView::Word(s[0]->Word_0));
        lemma_sorted_ordered(t, Some(s[0]->Word_0));
    }
}

proof fn lemma_ordered_adjacent(x: Seq<EntryView>, p: Option<Seq<char>>, i: int)
    requires
        ordered_from(x, p),
        all_words(x),
        0 <= i < x.len() - 1,
    ensures
        le(collate(x[i]->Word_0, x[i + 1]->Word_0)),
    decreases i,
{
    let t = x.drop_first();
    assert(x[0] == EntryView::Word(x[0]->Word_0));
    assert(all_words(t)) by {
        assert forall|k: int| 0 <= k < t.len() implies (#[trigger] t[k]) is Word by {
            assert(t[k] == x[k + 1]);
        }
    }
    assert(ordered_from(t, Some(x[0]->Word_0)));
    if i == 0 {
        assert(t[0] == x[1]);
        assert(t[0] == EntryView::Word(t[0]->Word_0));
    } else {
        lemma_ordered_adjacent(t, Some(x[0]->Word_0), i - 1);
        assert(t[i - 1] == x[i] && t[i] == x[i + 1]);
    }
}

proof fn lemma_word_lowers_all(x: Seq<EntryView>)
    requires
        all_words(x),
    ensures
        word_lowers(x).len() == x.len(),
        forall|i: int| 0 <= i < x.len() ==> #[trigger] word_lowers(x)[i] == lower_str(x[i]->Word_0),
    decreases x.len(),
{
    if x.len() > 0 {
        let t = x.drop_first();
        assert(all_words(t)) by {
            assert forall|k: int| 0 <= k < t.len() implies (#[trigger] t[k]) is Word by {
                assert(t[k] == x[k + 1]);
            }
        }
        lemma_word_lowers_all(t);
        assert(x[0] == EntryView::Word(x[0]->Word_0));
        assert forall|i: int| 0 <= i < x.len() implies #[trigger] word_lowers(x)[i] == lower_str(
            x[i]->Word_0,
        ) by {
            if i > 0 {
                assert(word_lowers(x)[i] == word_lowers(t)[i - 1]);
                assert(t[i - 1] == x[i]);
            }
        }
    }
}

/// Deduplicating words sorted by the collation rule leaves each lowercase
/// form once: texts with one lowercase form collate next to each other.
pub proof fn lemma_dedup_sorted(s: Seq<EntryView>)
    requires
        sorted_words(s),
    ensures
        word_lowers(deduped(s, None)).no_duplicates(),
        word_lowers(deduped(s, None)).to_set() == word_lowers(s).to_set(),
{
    let out = deduped(s, None);
    lemma_dedup(s);
    lemma_sorted_ordered(s, None);
    lemma_deduped_ordered(s, None, None, None);
    assert(all_words(out)) by {
        assert forall|i: int| 0 <= i < out.len() implies (#[trigger] out[i]) is Word by {
            assert(out.contains(out[i]));
            assert(s.contains(out[i]));
            let k = choose|k: int| 0 <= k < s.len() && s[k] == out[i];
            assert(s[k] is Word);
        }
    }
    lemma_word_lowers_all(out);
    let l = word_lowers(out);
    assert forall|i: int| 0 <= i < out.len() - 1 implies #[trigger] lex_cmp(
        scalars(l[i]),
        scalars(l[i + 1]),
    ) == Ordering::Less by {
        lemma_ordered_adjacent(out, None, i);
        let a = out[i]->Word_0;
        let b = out[i + 1]->Word_0;
        assert(l[i] == lower_str(a) && l[i + 1] == lower_str(b));
        assert(l[i] != l[i + 1]);
        lemma_lex_flip(primary_key(a), primary_key(b));
        if lex_cmp(primary_key(a), primary_key(b)) == Ordering::Equal {
            lemma_scalars_injective(lower_str(a), lower_str(b));
        }
    }
    assert forall|i: int, j: int| 0 <= i < j < l.len() implies lex_cmp(scalars(l[i]), scalars(l[j]))
        == Ordering::Less by {
        lemma_increasing_chain(l, i, j);
    }
    assert forall|i: int, j: int| 0 <= i < l.len() && 0 <= j < l.len() && i != j implies l[i] != l[j] by {
        if i < j {
            assert(lex_cmp(scalars(l[i]), scalars(l[j])) == Ordering::Less);
            lemma_lex_flip(scalars(l[i]), scalars(l[j]));
        } else {
            assert(lex_cmp(scalars(l[j]), scalars(l[i])) == Ordering::Less);
            lemma_lex_flip(scalars(l[j]), scalars(l[i]));
        }
    }
}

proof fn lemma_increasing_chain(l: Seq<Seq<char>>, i: int, j: int)
    requires
        0 <= i < j < l.len(),
        forall|k: int| 0 <= k < l.len() - 1 ==> #[trigger] lex_cmp(scalars(l[k]), scalars(l[k + 1])) == Ordering::Less,
    ensures
        lex_cmp(scalars(l[i]), scalars(l[j])) == Ordering::Less,
    decreases j - i,
{
    if j > i + 1 {
        lemma_increasing_chain(l, i, j - 1);
        let k = j - 1;
        assert(lex_cmp(scalars(l[k]), scalars(l[k + 1])) == Ordering::Less);
        lemma_lex_trans(scalars(l[i]), scalars(l[k]), scalars(l[j]));
    } else {
        assert(lex_cmp(scalars(l[i]), scalars(l[i + 1])) == Ordering::Less);
    }
}

/// The entries of `s` at the positions where `mask` holds `side`, in order.
pub open spec fn pick(s: Seq<EntryView>, mask: Seq<bool>, side: bool) -> Seq<EntryView>
    decreases s.len(),
{
    if s.len() == 0 || mask.len() == 0 {
        seq![]
    } else {
        let rest = pick(s.drop_first(), mask.drop_first(), side);
        if mask[0] == side {
            seq![s[0]] + rest
        } else {
            rest
        }
    }
}

proof fn lemma_pick_uniform(s: Seq<EntryView>, side: bool)
    ensures
        pick(s, Seq::new(s.len(), |i: int| side), side) == s,
        pick(s, Seq::new(s.len(), |i: int| side), !side) == Seq::<EntryView>::empty(),
    decreases s.len(),
{
    if s.len() > 0 {
        let m = Seq::new(s.len(), |i: int| side);
        lemma_pick_uniform(s.drop_first(), side);
        assert(m.drop_first() =~= Seq::new(s.drop_first().len(), |i: int| side));
        assert(s =~= seq![s[0]] + s.drop_first());
    }
}

proof fn merge_mask(l: Seq<EntryView>, r: Seq<EntryView>) -> (mask: Seq<bool>)
    ensures
        mask.len() == merged(l, r).len(),
        pick(merged(l, r), mask, true) == l,
        pick(merged(l, r), mask, false) == r,
    decreases l.len() + r.len(),
{
    lemma_merged_len(l, r);
    if l.len() == 0 {
        lemma_pick_uniform(r, false);
        Seq::new(r.len(), |i: int| false)
    } else if r.len() == 0 {
        lemma_pick_uniform(l, true);
        Seq::new(l.len(), |i: int| true)
    } else {
        let out = merged(l, r);
        let left_first = match (l[0], r[0]) {
            (EntryView::Word(a), EntryView::Word(b)) => collate(a, b) != Ordering::Greater,
            (EntryView::Word(_), _) => false,
            _ => true,
        };
        if left_first {
            let t = l.drop_first();
            let m = merge_mask(t, r);
            let mask = seq![true] + m;
            assert(out == seq![l[0]] + merged(t, r));
            assert(out.drop_first() =~= merged(t, r));
            assert(mask.drop_first() =~= m);
            assert(l =~= seq![l[0]] + t);
            mask
        } else {
            let t = r.drop_first();
            let m = merge_mask(l, t);
            let mask = seq![false] + m;
            assert(out == seq![r[0]] + merged(l, t));
            assert(out.drop_first() =~= merged(l, t));
            assert(mask.drop_first() =~= m);
            assert(r =~= seq![r[0]] + t);
            mask
        }
    }
}

/// A merge interleaves its inputs: each input's entries appear in the
/// output in their own order, and nothing else does.
pub proof fn lemma_merge_interleaves(l: Seq<EntryView>, r: Seq<EntryView>)
    ensures
        exists|mask: Seq<bool>|
            mask.len() == merged(l, r).len() && #[trigger] pick(merged(l, r), mask, true) == l && pick(
                merged(l, r),
                mask,
                false,
            ) == r,
{
    let mask = merge_mask(l, r);
    assert(pick(merged(l, r), mask, true) == l);
}

/// Takes every entry that a stage will still yield.
pub fn drain(stage: &mut Stage) -> (r: Vec<Entry>)
    ensures
        entry_views(r@) == old(stage).rest(),
        final(stage).rest() == Seq::<EntryView>::empty(),
{
    let ghost start = stage.rest();
    let mut out: Vec<Entry> = Vec::new();
    loop
        invariant
            start == old(stage).rest(),
            entry_views(out@) + stage.rest() == start,
        decreases stage.rest().len(),
    {
        let ghost before = stage.rest();
        match stage.next() {
            None => {
                assert(entry_views(out@) + stage.rest() =~= entry_views(out@));
                return out;
            },
            Some(e) => {
                let ghost prev = out@;
                out.push(e);
                assert(entry_views(out@) =~= entry_views(prev).push(e@));
                assert(entry_views(out@) + stage.rest() =~= entry_views(prev) + before);
            },
        }
    }
}

/// Sorts words in memory by the collation rule.
pub fn sort_entries(mut v: Vec<Entry>) -> (r: Vec<Entry>)
    requires
        all_words(entry_views(v@)),
    ensures
        sorted_words(entry_views(r@)),
        entry_views(r@).to_multiset() == entry_views(v@).to_multiset(),
    decreases v.len(),
{
    if v.len() <= 1 {
        return v;
    }
    let ghost whole = entry_views(v@);
    let mid = v.len() / 2;
    let right = v.split_off(mid);
    let ghost lv = entry_views(v@);
    let ghost rv = entry_views(right@);
    assert(whole =~= lv + rv);
    assert(all_words(lv)) by {
        assert forall|i: int| 0 <= i < lv.len() implies (#[trigger] lv[i]) is Word by {
            assert(lv[i] == whole[i]);
        }
    }
    assert(all_words(rv)) by {
        assert forall|i: int| 0 <= i < rv.len() implies (#[trigger] rv[i]) is Word by {
            assert(rv[i] == whole[i + lv.len()]);
        }
    }
    let sl = sort_entries(v);
    let sr = sort_entries(right);
    let mut stage = Stage::from_merge(
        MergeStream::new(
            Stage::from_words(UnsortedWords::from_pending(Pending::from_vec(sl))),
            Stage::from_words(UnsortedWords::from_pending(Pending::from_vec(sr))),
        ),
    );
    let r = drain(&mut stage);
    proof {
        lemma_merge_sorted(entry_views(sl@), entry_views(sr@));
        vstd::seq_lib::lemma_multiset_commutative(lv, rv);
    }
    r
}

} // verus!
