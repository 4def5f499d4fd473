//! Sinks: draining a stream into a word collection, into lines of text,
//! or into zstd-compressed lines of text.

use vstd::prelude::*;
use vstd::utf8::encode_utf8;

use crate::entry::{all_words, words_of, Entry, EntryView, ReadError};
use crate::sorting::lemma_checked_sorted;
use crate::sources::{
    all_present, kept, line_pieces, lines_of, split_lines, strip_cr, text_words, trim_end,
    trim_start, trimmed, whitespace_char, word_entries,
};
use crate::stream::{checked, BoxedWordStream, Stage, WordStream};
use crate::word_set::lemma_collection_sorted;
use crate::word_set::WordSet;

verus! {

/// What `zstd::encode_all` returns for bytes at a compression level.
pub uninterp spec fn zstd_compressed(level: i32, b: Seq<u8>) -> Seq<u8>;

/// The compression level of compressed output.
pub const ZSTD_LEVEL: i32 = 19;

/// Relies on `zstd::encode_all` over the UTF-8 bytes of `text`: reading a
/// byte slice into a `Vec` raises no I/O error, so at a valid level it succeeds.
#[verifier::external_body]
fn zstd_encode(text: &str, level: i32) -> (r: Result<Vec<u8>, String>)
    requires
        1 <= level <= 22,
    ensures
        r is Ok,
        r is Ok ==> r->Ok_0@ == zstd_compressed(level, encode_utf8(text@)),
{
    zstd::encode_all(text.as_bytes(), level).map_err(|e| e.to_string())
}

/// One word per line, each line ending in `\n`.
pub open spec fn lines_text(ws: Seq<Seq<char>>) -> Seq<char>
    decreases ws.len(),
{
    if ws.len() == 0 {
        seq![]
    } else {
        lines_text(ws.drop_last()) + ws.last() + seq!['\n']
    }
}

/// A word that reads back as itself from its own line: not empty, without
/// a `\n`, and with neither whitespace nor `\r` at either end.
pub open spec fn line_safe(w: Seq<char>) -> bool {
    &&& w.len() > 0
    &&& !whitespace_char(w[0])
    &&& !whitespace_char(w.last())
    &&& w.last() != '\r'
    &&& forall|i: int| 0 <= i < w.len() ==> w[i] != '\n'
}

proof fn lemma_split_word(a: Seq<char>, w: Seq<char>)
    requires
        split_lines(a).len() > 0,
        split_lines(a).last() == Seq::<char>::empty(),
        forall|i: int| 0 <= i < w.len() ==> w[i] != '\n',
    ensures
        split_lines(a + w) == split_lines(a).drop_last().push(w),
    decreases w.len(),
{
    if w.len() == 0 {
        assert(w =~= Seq::<char>::empty());
        assert(a + w =~= a);
        assert(split_lines(a).drop_last().push(w) =~= split_lines(a));
    } else {
        let v = w.drop_last();
        lemma_split_word(a, v);
        assert((a + w).drop_last() =~= a + v);
        assert((a + w).last() == w.last());
        assert(w[w.len() - 1] != '\n');
        assert(w =~= v.push(w.last()));
        assert(split_lines(a + w) == split_lines(a + v).update(
            split_lines(a + v).len() - 1,
            split_lines(a + v).last().push(w.last()),
        ));
        assert(split_lines(a).drop_last().push(v).update(
            split_lines(a).drop_last().push(v).len() - 1,
            v.push(w.last()),
        ) =~= split_lines(a).drop_last().push(w));
    }
}

proof fn lemma_split_lines_text(ws: Seq<Seq<char>>)
    requires
        forall|i: int| 0 <= i < ws.len() ==> line_safe(#[trigger] ws[i]),
    ensures
        split_lines(lines_text(ws)) == ws.push(Seq::<char>::empty()),
    decreases ws.len(),
{
    if ws.len() == 0 {
        assert(split_lines(Seq::<char>::empty()) =~= seq![Seq::<char>::empty()]);
        assert(ws.push(Seq::<char>::empty()) =~= seq![Seq::<char>::empty()]);
    } else {
        let v = ws.drop_last();
        let w = ws.last();
        assert forall|i: int| 0 <= i < v.len() implies line_safe(#[trigger] v[i]) by {
            assert(v[i] == ws[i]);
        }
        lemma_split_lines_text(v);
        assert(line_safe(ws[ws.len() - 1]));
        let a = lines_text(v);
        lemma_split_word(a, w);
        assert(lines_text(ws) == (a + w) + seq!['\n']);
        assert((a + w + seq!['\n']).drop_last() =~= a + w);
        assert(split_lines(a).drop_last() =~= v);
        assert(split_lines(lines_text(ws)) =~= ws.push(Seq::<char>::empty()));
    }
}

proof fn lemma_kept_safe(ws: Seq<Seq<char>>)
    requires
        forall|i: int| 0 <= i < ws.len() ==> line_safe(#[trigger] ws[i]),
    ensures
        kept(all_present(ws)) == ws,
    decreases ws.len(),
{
    if ws.len() > 0 {
        let v = ws.drop_last();
        assert forall|i: int| 0 <= i < v.len() implies line_safe(#[trigger] v[i]) by {
            assert(v[i] == ws[i]);
        }
        lemma_kept_safe(v);
        let w = ws.last();
        assert(line_safe(ws[ws.len() - 1]));
        assert(all_present(ws).drop_last() =~= all_present(v));
        assert(trim_start(w) == w);
        assert(trim_end(w) == w);
        assert(trimmed(w) == w);
        assert(kept(all_present(ws)) =~= ws);
    }
}

/// Words that are safe on a line read back from the text written for them
/// exactly, in the same order.
pub proof fn lemma_text_round_trip(ws: Seq<Seq<char>>)
    requires
        forall|i: int| 0 <= i < ws.len() ==> line_safe(#[trigger] ws[i]),
    ensures
        text_words(lines_text(ws)) == ws,
{
    lemma_split_lines_text(ws);
    assert(line_pieces(lines_text(ws)) =~= ws);
    assert forall|i: int| 0 <= i < ws.len() implies strip_cr(#[trigger] ws[i]) == ws[i] by {
        assert(line_safe(ws[i]));
    }
    assert(lines_of(lines_text(ws)) =~= ws);
    lemma_kept_safe(ws);
}

/// A collection written one word per line and read back as a sorted source
/// yields its words unchanged and in order, where every word is safe on a line.
pub proof fn lemma_collection_round_trip(set: crate::word_set::WordSet)
    requires
        set.wf(),
        forall|i: int| 0 <= i < set.ordered().len() ==> line_safe(#[trigger] set.ordered()[i]),
    ensures
        checked(word_entries(text_words(lines_text(set.ordered())))) == word_entries(set.ordered()),
{
    lemma_text_round_trip(set.ordered());
    set.lemma_wf();
    lemma_collection_sorted(set.ordered());
    lemma_checked_sorted(word_entries(set.ordered()));
}

/// `e` is the first entry of `s` that is not a word, at position `k`.
pub open spec fn stops_at(s: Seq<EntryView>, k: int, e: EntryView) -> bool {
    &&& 0 <= k < s.len()
    &&& s[k] == e
    &&& !(e is Word)
    &&& all_words(s.take(k))
}

/// Collects every word into a collection; stops at the first entry that is
/// not a word and returns it.
pub fn collect_to_set(stage: Stage) -> (r: Result<WordSet, Entry>)
    ensures
        match r {
            Ok(set) => set.wf() && all_words(stage.rest()) && set@ == words_of(
                stage.rest(),
            ).to_set(),
            Err(e) => exists|k: int| stops_at(stage.rest(), k, e@),
        },
{
    let mut stage = stage;
    collect_from(&mut stage)
}

fn collect_from(stage: &mut Stage) -> (r: Result<WordSet, Entry>)
    ensures
        match r {
            Ok(set) => set.wf() && all_words(old(stage).rest()) && set@ == words_of(
                old(stage).rest(),
            ).to_set(),
            Err(e) => exists|k: int| stops_at(old(stage).rest(), k, e@),
        },
{
    let ghost start = stage.rest();
    let mut set = WordSet::new();
    let ghost mut done: Seq<EntryView> = seq![];
    loop
        invariant
            start == old(stage).rest(),
            set.wf(),
            done + stage.rest() == start,
            all_words(done),
            set@ == words_of(done).to_set(),
        decreases stage.rest().len(),
    {
        let ghost before = stage.rest();
        match stage.next() {
            None => {
                assert(done =~= start);
                return Ok(set);
            },
            Some(Entry::Word(w)) => {
                let ghost wv = w@;
                set.insert(w.0);
                proof {
                    let prev = done;
                    done = done.push(EntryView::Word(wv));
                    assert(done + stage.rest() =~= prev + before);
                    assert(words_of(done) =~= words_of(prev).push(wv));
                    assert(words_of(done).to_set() =~= words_of(prev).to_set().insert(wv)) by {
                        vstd::seq_lib::seq_to_set_distributes_over_add(words_of(prev), seq![wv]);
                        assert(words_of(prev).push(wv) =~= words_of(prev) + seq![wv]);
                        assert(seq![wv].to_set() =~= Set::empty().insert(wv)) by {
                            assert forall|x| seq![wv].to_set().contains(x) <==> x == wv by {
                                if x == wv {
                                    assert(seq![wv][0] == wv);
                                }
                            }
                        }
                    }
                }
            },
            Some(e) => {
                assert(start.take(done.len() as int) =~= done);
                assert(stops_at(start, done.len() as int, e@));
                return Err(e);
            },
        }
    }
}

/// Appends each word and a newline to `out`; stops at the first entry that
/// is not a word and returns it, with the words before it written.
pub fn write_to_writer(stage: Stage, out: &mut String) -> (r: Result<(), Entry>)
    ensures
        match r {
            Ok(_) => all_words(stage.rest()) && final(out)@ == old(out)@ + lines_text(
                words_of(stage.rest()),
            ),
            Err(e) => exists|k: int|
                stops_at(stage.rest(), k, e@) && final(out)@ == old(out)@ + lines_text(
                    words_of(stage.rest().take(k)),
                ),
        },
{
    let mut stage = stage;
    write_from(&mut stage, out)
}

fn write_from(stage: &mut Stage, out: &mut String) -> (r: Result<(), Entry>)
    ensures
        match r {
            Ok(_) => all_words(old(stage).rest()) && final(out)@ == old(out)@ + lines_text(
                words_of(old(stage).rest()),
            ),
            Err(e) => exists|k: int|
                stops_at(old(stage).rest(), k, e@) && final(out)@ == old(out)@ + lines_text(
                    words_of(old(stage).rest().take(k)),
                ),
        },
{
    let ghost start = stage.rest();
    let ghost base = out@;
    let ghost mut done: Seq<EntryView> = seq![];
    loop
        invariant
            start == old(stage).rest(),
            base == old(out)@,
            done + stage.rest() == start,
            all_words(done),
            out@ == base + lines_text(words_of(done)),
        decreases stage.rest().len(),
    {
        let ghost before = stage.rest();
        match stage.next() {
            None => {
                assert(done =~= start);
                return Ok(());
            },
            Some(Entry::Word(w)) => {
                out.append(w.as_str());
                out.append("\n");
                proof {
                    reveal_strlit("\n");
                    let prev = done;
                    done = done.push(EntryView::Word(w@));
                    assert(done + stage.rest() =~= prev + before);
                    assert(words_of(done) =~= words_of(prev).push(w@));
                    assert(words_of(done).drop_last() =~= words_of(prev));
                    assert(out@ =~= base + lines_text(words_of(done)));
                }
            },
            Some(e) => {
                assert(start.take(done.len() as int) =~= done);
                assert(stops_at(start, done.len() as int, e@));
                return Err(e);
            },
        }
    }
}

/// The lines of text of every word, zstd-compressed; stops at the first
/// entry that is not a word, or returns a read error where compression fails.
pub fn write_to_zst(stage: Stage) -> (r: Result<Vec<u8>, Entry>)
    ensures
        all_words(stage.rest()) ==> r is Ok && r->Ok_0@ == zstd_compressed(
            ZSTD_LEVEL,
            encode_utf8(lines_text(words_of(stage.rest()))),
        ),
        !all_words(stage.rest()) ==> r is Err && exists|k: int| stops_at(stage.rest(), k, r->Err_0@),
{
    let ghost start = stage.rest();
    let mut text = String::new();
    match write_to_writer(stage, &mut text) {
        Err(e) => {
            let ghost k = choose|k: int| stops_at(start, k, e@);
            let ghost ev = e@;
            assert(stops_at(start, k, ev));
            assert(!(start[k] is Word));
            let r: Result<Vec<u8>, Entry> = Err(e);
            assert(r->Err_0@ == ev);
            assert(stops_at(start, k, r->Err_0@));
            r
        },
        Ok(()) => {
            assert(all_words(start));
            assert(text@ =~= lines_text(words_of(start)));
            match zstd_encode(text.as_str(), ZSTD_LEVEL) {
                Ok(bytes) => Ok(bytes),
                Err(m) => Err(Entry::Failed(ReadError { message: m })),
            }
        },
    }
}

impl WordStream {
    /// Collects the words into a collection; see [`collect_to_set`].
    pub fn collect_to_set(self) -> (r: Result<WordSet, Entry>)
        ensures
            match r {
                Ok(set) => set.wf() && all_words(self.rest()) && set@ == words_of(
                    self.rest(),
                ).to_set(),
                Err(e) => exists|k: int| stops_at(self.rest(), k, e@),
            },
    {
        collect_to_set(self.into_stage())
    }

    /// Appends the words to `out`, one per line; see [`write_to_writer`].
    pub fn write_to_writer(self, out: &mut String) -> (r: Result<(), Entry>)
        ensures
            match r {
                Ok(_) => all_words(self.rest()) && final(out)@ == old(out)@ + lines_text(
                    words_of(self.rest()),
                ),
                Err(e) => exists|k: int|
                    stops_at(self.rest(), k, e@) && final(out)@ == old(out)@ + lines_text(
                        words_of(self.rest().take(k)),
                    ),
            },
    {
        write_to_writer(self.into_stage(), out)
    }

    /// The words as compressed lines of text; see [`write_to_zst`].
    pub fn write_to_zst(self) -> (r: Result<Vec<u8>, Entry>)
        ensures
            all_words(self.rest()) ==> r is Ok && r->Ok_0@ == zstd_compressed(
                ZSTD_LEVEL,
                encode_utf8(lines_text(words_of(self.rest()))),
            ),
            !all_words(self.rest()) ==> r is Err && exists|k: int| stops_at(self.rest(), k, r->Err_0@),
    {
        write_to_zst(self.into_stage())
    }
}

impl BoxedWordStream {
    /// Collects the words into a collection; see [`collect_to_set`].
    pub fn collect_to_set(self) -> (r: Result<WordSet, Entry>)
        ensures
            match r {
                Ok(set) => set.wf() && all_words(self.rest()) && set@ == words_of(
                    self.rest(),
                ).to_set(),
                Err(e) => exists|k: int| stops_at(self.rest(), k, e@),
            },
    {
        collect_to_set(self.into_inner())
    }

    /// Appends the words to `out`, one per line; see [`write_to_writer`].
    pub fn write_to_writer(self, out: &mut String) -> (r: Result<(), Entry>)
        ensures
            match r {
                Ok(_) => all_words(self.rest()) && final(out)@ == old(out)@ + lines_text(
                    words_of(self.rest()),
                ),
                Err(e) => exists|k: int|
                    stops_at(self.rest(), k, e@) && final(out)@ == old(out)@ + lines_text(
                        words_of(self.rest().take(k)),
                    ),
            },
    {
        write_to_writer(self.into_inner(), out)
    }

    /// The words as compressed lines of text; see [`write_to_zst`].
    pub fn write_to_zst(self) -> (r: Result<Vec<u8>, Entry>)
        ensures
            all_words(self.rest()) ==> r is Ok && r->Ok_0@ == zstd_compressed(
                ZSTD_LEVEL,
                encode_utf8(lines_text(words_of(self.rest()))),
            ),
            !all_words(self.rest()) ==> r is Err && exists|k: int| stops_at(self.rest(), k, r->Err_0@),
    {
        write_to_zst(self.into_inner())
    }
}

} // verus!
