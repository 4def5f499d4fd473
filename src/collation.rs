//! The case-fold collation rule.
//!
//! Texts are ordered by the full lowercase expansion of their characters
//! (compared by Unicode scalar value), and, where those agree, by the
//! position-wise "is upper case" flags, lower case first.

use std::cmp::Ordering;
use vstd::prelude::*;

use crate::sources::{chars_of, string_of};
use crate::stream::{lower_str, lowercase};

verus! {

/// What `char::is_uppercase` says of a character.
pub uninterp spec fn upper_char(c: char) -> bool;

/// Relies on `char::is_uppercase`.
#[verifier::external_body]
fn char_is_uppercase(c: char) -> (r: bool)
    ensures
        r == upper_char(c),
{
    c.is_uppercase()
}

/// Lexicographic order on sequences of scalar values; a proper prefix
/// sorts first.
pub open spec fn lex_cmp(a: Seq<u32>, b: Seq<u32>) -> Ordering
    decreases a.len(),
{
    if a.len() == 0 {
        if b.len() == 0 {
            Ordering::Equal
        } else {
            Ordering::Less
        }
    } else if b.len() == 0 {
        Ordering::Greater
    } else if a[0] < b[0] {
        Ordering::Less
    } else if a[0] > b[0] {
        Ordering::Greater
    } else {
        lex_cmp(a.drop_first(), b.drop_first())
    }
}

/// The scalar values of a character sequence.
pub open spec fn scalars(s: Seq<char>) -> Seq<u32> {
    s.map_values(|c: char| c as u32)
}

/// Primary key: the text's lowercase form, as scalar values.
pub open spec fn primary_key(s: Seq<char>) -> Seq<u32> {
    scalars(lower_str(s))
}

/// Secondary key: one flag per character, 1 for upper case and 0 otherwise.
pub open spec fn secondary_key(s: Seq<char>) -> Seq<u32> {
    s.map_values(|c: char| if upper_char(c) { 1u32 } else { 0u32 })
}

/// The collation rule on texts.
pub open spec fn collate(a: Seq<char>, b: Seq<char>) -> Ordering {
    let primary = lex_cmp(primary_key(a), primary_key(b));
    if primary == Ordering::Equal {
        lex_cmp(secondary_key(a), secondary_key(b))
    } else {
        primary
    }
}

/// Collation of single characters.
pub open spec fn collate_char(a: char, b: char) -> Ordering {
    collate(seq![a], seq![b])
}

pub open spec fn flip(o: Ordering) -> Ordering {
    match o {
        Ordering::Less => Ordering::Greater,
        Ordering::Equal => Ordering::Equal,
        Ordering::Greater => Ordering::Less,
    }
}

/// `a` comes no later than `b`.
pub open spec fn le(o: Ordering) -> bool {
    o != Ordering::Greater
}

pub proof fn lemma_lex_flip(a: Seq<u32>, b: Seq<u32>)
    ensures
        lex_cmp(b, a) == flip(lex_cmp(a, b)),
        lex_cmp(a, b) == Ordering::Equal ==> a == b,
    decreases a.len(),
{
    if a.len() > 0 && b.len() > 0 && a[0] == b[0] {
        lemma_lex_flip(a.drop_first(), b.drop_first());
        if lex_cmp(a, b) == Ordering::Equal {
            assert(a =~= seq![a[0]] + a.drop_first());
            assert(b =~= seq![b[0]] + b.drop_first());
        }
    }
}

pub proof fn lemma_lex_refl(a: Seq<u32>)
    ensures
        lex_cmp(a, a) == Ordering::Equal,
    decreases a.len(),
{
    if a.len() > 0 {
        lemma_lex_refl(a.drop_first());
    }
}

pub proof fn lemma_lex_trans(a: Seq<u32>, b: Seq<u32>, c: Seq<u32>)
    requires
        le(lex_cmp(a, b)),
        le(lex_cmp(b, c)),
    ensures
        le(lex_cmp(a, c)),
        lex_cmp(a, b) == Ordering::Less ==> lex_cmp(a, c) == Ordering::Less,
        lex_cmp(b, c) == Ordering::Less ==> lex_cmp(a, c) == Ordering::Less,
    decreases a.len(),
{
    if a.len() > 0 && b.len() > 0 && c.len() > 0 && a[0] == b[0] && b[0] == c[0] {
        lemma_lex_trans(a.drop_first(), b.drop_first(), c.drop_first());
    }
}

/// Equal scalar values mean equal texts.
pub proof fn lemma_scalars_injective(x: Seq<char>, y: Seq<char>)
    requires
        scalars(x) == scalars(y),
    ensures
        x == y,
{
    assert(scalars(x).len() == x.len());
    assert(scalars(y).len() == y.len());
    assert forall|i: int| 0 <= i < x.len() implies x[i] == y[i] by {
        assert(scalars(x)[i] == scalars(y)[i]);
        assert(scalars(x)[i] == x[i] as u32);
        assert(scalars(y)[i] == y[i] as u32);
        lemma_char_cast_injective(x[i], y[i]);
    }
    assert(x =~= y);
}

proof fn lemma_char_cast_injective(a: char, b: char)
    ensures
        a as u32 == b as u32 ==> a == b,
{
}

/// The collation rule is a total order: every text collates equal to
/// itself, swapping the arguments flips the result, results that are not
/// `Greater` compose, and a strict step makes the composition strict.
/// Texts that collate equal have the same primary and secondary keys.
pub proof fn lemma_collate_total_order(a: Seq<char>, b: Seq<char>, c: Seq<char>)
    ensures
        collate(a, a) == Ordering::Equal,
        collate(b, a) == flip(collate(a, b)),
        collate(a, b) == Ordering::Equal ==> collate(b, a) == Ordering::Equal,
        collate(a, b) == Ordering::Equal ==> primary_key(a) == primary_key(b)
            && secondary_key(a) == secondary_key(b),
        collate(a, b) == Ordering::Equal ==> lower_str(a) == lower_str(b),
        le(collate(a, b)) && le(collate(b, c)) ==> le(collate(a, c)),
        collate(a, b) == Ordering::Less && le(collate(b, c)) ==> collate(a, c) == Ordering::Less,
        le(collate(a, b)) && collate(b, c) == Ordering::Less ==> collate(a, c) == Ordering::Less,
{
    lemma_lex_refl(primary_key(a));
    lemma_lex_refl(secondary_key(a));
    lemma_lex_flip(primary_key(a), primary_key(b));
    lemma_lex_flip(secondary_key(a), secondary_key(b));
    lemma_lex_flip(primary_key(b), primary_key(c));
    lemma_lex_flip(secondary_key(b), secondary_key(c));
    if collate(a, b) == Ordering::Equal {
        lemma_scalars_injective(lower_str(a), lower_str(b));
    }
    if le(collate(a, b)) && le(collate(b, c)) {
        lemma_lex_trans(primary_key(a), primary_key(b), primary_key(c));
        if primary_key(a) == primary_key(b) && primary_key(b) == primary_key(c) {
            lemma_lex_trans(secondary_key(a), secondary_key(b), secondary_key(c));
        }
    }
}

/// Compares two scalar sequences lexicographically.
pub(crate) fn lex_compare(a: &Vec<u32>, b: &Vec<u32>) -> (r: Ordering)
    ensures
        r == lex_cmp(a@, b@),
{
    let mut i: usize = 0;
    assert(a@.skip(0) =~= a@);
    assert(b@.skip(0) =~= b@);
    while i < a.len() && i < b.len()
        invariant
            i <= a.len(),
            i <= b.len(),
            lex_cmp(a@, b@) == lex_cmp(a@.skip(i as int), b@.skip(i as int)),
        decreases a.len() - i,
    {
        assert(a@.skip(i as int)[0] == a@[i as int]);
        assert(b@.skip(i as int)[0] == b@[i as int]);
        if a[i] < b[i] {
            return Ordering::Less;
        }
        if a[i] > b[i] {
            return Ordering::Greater;
        }
        assert(a@.skip(i as int).drop_first() =~= a@.skip(i + 1));
        assert(b@.skip(i as int).drop_first() =~= b@.skip(i + 1));
        i = i + 1;
    }
    if i < a.len() {
        Ordering::Greater
    } else if i < b.len() {
        Ordering::Less
    } else {
        Ordering::Equal
    }
}

fn scalar_key(cs: &Vec<char>) -> (r: Vec<u32>)
    ensures
        r@ == scalars(cs@),
{
    let mut out: Vec<u32> = Vec::new();
    let mut j: usize = 0;
    while j < cs.len()
        invariant
            j <= cs.len(),
            out@ == scalars(cs@.take(j as int)),
        decreases cs.len() - j,
    {
        out.push(cs[j] as u32);
        assert(scalars(cs@.take(j + 1)) =~= scalars(cs@.take(j as int)).push(cs@[j as int] as u32));
        j = j + 1;
    }
    assert(cs@.take(j as int) =~= cs@);
    out
}

/// Builds the primary and secondary keys of a text.
fn collation_keys(s: &str) -> (r: (Vec<u32>, Vec<u32>))
    ensures
        r.0@ == primary_key(s@),
        r.1@ == secondary_key(s@),
{
    let low = lowercase(s);
    let primary = scalar_key(&chars_of(low.as_str()));
    let cs = chars_of(s);
    let mut secondary: Vec<u32> = Vec::new();
    let mut i: usize = 0;
    while i < cs.len()
        invariant
            cs@ == s@,
            i <= cs.len(),
            secondary@ == secondary_key(s@.take(i as int)),
        decreases cs.len() - i,
    {
        if char_is_uppercase(cs[i]) {
            secondary.push(1);
        } else {
            secondary.push(0);
        }
        assert(secondary_key(s@.take(i + 1)) =~= secondary_key(s@.take(i as int)).push(
            if upper_char(s@[i as int]) { 1u32 } else { 0u32 },
        ));
        i = i + 1;
    }
    assert(s@.take(i as int) =~= s@);
    (primary, secondary)
}

/// Compares two characters under the collation rule.
pub fn char_cmp(a: char, b: char) -> (r: Ordering)
    ensures
        r == collate_char(a, b),
{
    let ta = string_of(&[a]);
    let tb = string_of(&[b]);
    assert(ta@ =~= seq![a]);
    assert(tb@ =~= seq![b]);
    case_fold_cmp(ta.as_str(), tb.as_str())
}

/// Compares two texts under the collation rule.
pub fn case_fold_cmp(a: &str, b: &str) -> (r: Ordering)
    ensures
        r == collate(a@, b@),
{
    let (pa, sa) = collation_keys(a);
    let (pb, sb) = collation_keys(b);
    let primary = lex_compare(&pa, &pb);
    match primary {
        Ordering::Equal => lex_compare(&sa, &sb),
        _ => primary,
    }
}

} // verus!
