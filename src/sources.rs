//! Sources of sorted word streams: lines of text that are already sorted,
//! unsorted text and CSV loaded and sorted in memory, and their
//! zstd-compressed forms.

use vstd::prelude::*;
use vstd::utf8::{decode_utf8, encode_utf8, valid_utf8};

use crate::entry::{entry_views, Entry, EntryView, ReadError};
use crate::sinks::zstd_compressed;
use crate::sorting::{lemma_checked_sorted, sort_entries, sorted_words};
use crate::stream::{checked, texts, Pending, SortedLines, Stage, UnsortedWords, WordStream};
use crate::word::Word;

verus! {

/// Whitespace as `char::is_whitespace` defines it: the Unicode
/// `White_Space` property.
pub open spec fn whitespace_char(c: char) -> bool {
    let u = c as u32;
    (0x9 <= u <= 0xd) || u == 0x20 || u == 0x85 || u == 0xa0 || u == 0x1680 || (0x2000 <= u
        <= 0x200a) || u == 0x2028 || u == 0x2029 || u == 0x202f || u == 0x205f || u == 0x3000
}

/// What `zstd::decode_all` returns for a byte sequence; `None` where it fails.
pub uninterp spec fn zstd_decoded(b: Seq<u8>) -> Option<Seq<u8>>;

/// The text a byte sequence encodes in UTF-8; `None` where it is not UTF-8.
pub open spec fn utf8_text(b: Seq<u8>) -> Option<Seq<char>> {
    if valid_utf8(b) {
        Some(decode_utf8(b))
    } else {
        None
    }
}

/// What a `csv` reader without headers yields: the first field of each
/// record, or `None` where the input is malformed.
pub uninterp spec fn csv_records(b: Seq<u8>) -> Option<Seq<Seq<Seq<char>>>>;

/// The first field of each record, where it has one: only the first
/// column of CSV input holds a word.
pub open spec fn first_fields(records: Seq<Seq<Seq<char>>>) -> Seq<Option<Seq<char>>> {
    records.map_values(
        |rec: Seq<Seq<char>>|
            if rec.len() > 0 {
                Some(rec[0])
            } else {
                None
            },
    )
}

/// The first fields of CSV data, where it parses.
pub open spec fn csv_first_fields(b: Seq<u8>) -> Option<Seq<Option<Seq<char>>>> {
    match csv_records(b) {
        Some(records) => Some(first_fields(records)),
        None => None,
    }
}

/// Whether a character is whitespace.
fn char_is_whitespace(c: char) -> (r: bool)
    ensures
        r == whitespace_char(c),
{
    let u = c as u32;
    (0x9 <= u && u <= 0xd) || u == 0x20 || u == 0x85 || u == 0xa0 || u == 0x1680 || (0x2000 <= u
        && u <= 0x200a) || u == 0x2028 || u == 0x2029 || u == 0x202f || u == 0x205f || u == 0x3000
}

/// Relies on `str::chars`: the characters of a text.
#[verifier::external_body]
pub(crate) fn chars_of(s: &str) -> (r: Vec<char>)
    ensures
        r@ == s@,
{
    s.chars().collect()
}

/// Relies on `String::from_iter` over characters.
#[verifier::external_body]
pub(crate) fn string_of(cs: &[char]) -> (r: String)
    ensures
        r@ == cs@,
{
    cs.iter().collect()
}

/// The pieces of a text between its `\n` characters; never empty, and the
/// last piece is what follows the last `\n`.
pub open spec fn split_lines(t: Seq<char>) -> Seq<Seq<char>>
    decreases t.len(),
{
    if t.len() == 0 {
        seq![seq![]]
    } else {
        let p = split_lines(t.drop_last());
        if t.last() == '\n' {
            p.push(seq![])
        } else {
            p.update(p.len() - 1, p.last().push(t.last()))
        }
    }
}

/// A line without a final `\r`.
pub open spec fn strip_cr(l: Seq<char>) -> Seq<char> {
    if l.len() > 0 && l.last() == '\r' {
        l.drop_last()
    } else {
        l
    }
}

/// The pieces between `\n`s, without the empty piece after a final `\n`.
pub open spec fn line_pieces(t: Seq<char>) -> Seq<Seq<char>> {
    let p = split_lines(t);
    if p.last().len() == 0 {
        p.drop_last()
    } else {
        p
    }
}

/// The lines of a text: split at `\n`, each without a final `\r`; a text
/// that ends in `\n` has no empty line after it.
pub open spec fn lines_of(t: Seq<char>) -> Seq<Seq<char>> {
    line_pieces(t).map_values(|l: Seq<char>| strip_cr(l))
}

pub open spec fn trim_start(s: Seq<char>) -> Seq<char>
    decreases s.len(),
{
    if s.len() > 0 && whitespace_char(s[0]) {
        trim_start(s.drop_first())
    } else {
        s
    }
}

pub open spec fn trim_end(s: Seq<char>) -> Seq<char>
    decreases s.len(),
{
    if s.len() > 0 && whitespace_char(s.last()) {
        trim_end(s.drop_last())
    } else {
        s
    }
}

/// A text without leading and trailing whitespace.
pub open spec fn trimmed(s: Seq<char>) -> Seq<char> {
    trim_end(trim_start(s))
}

proof fn lemma_split_nonempty(t: Seq<char>)
    ensures
        split_lines(t).len() > 0,
    decreases t.len(),
{
    if t.len() > 0 {
        lemma_split_nonempty(t.drop_last());
    }
}

/// Splits a text at its `\n`s.
fn split_text(t: &Vec<char>) -> (r: Vec<Vec<char>>)
    ensures
        r@.map_values(|l: Vec<char>| l@) == line_pieces(t@),
{
    let mut pieces: Vec<Vec<char>> = Vec::new();
    let mut cur: Vec<char> = Vec::new();
    let mut i: usize = 0;
    while i < t.len()
        invariant
            i <= t.len(),
            pieces@.map_values(|l: Vec<char>| l@).push(cur@) == split_lines(t@.take(i as int)),
        decreases t.len() - i,
    {
        let ghost before = pieces@.map_values(|l: Vec<char>| l@).push(cur@);
        proof {
            lemma_split_nonempty(t@.take(i as int));
        }
        assert(t@.take(i + 1).drop_last() =~= t@.take(i as int));
        let c = t[i];
        if c == '\n' {
            pieces.push(cur);
            cur = Vec::new();
            assert(pieces@.map_values(|l: Vec<char>| l@).push(cur@) =~= before.push(seq![]));
        } else {
            cur.push(c);
            assert(pieces@.map_values(|l: Vec<char>| l@).push(cur@) =~= before.update(
                before.len() - 1,
                before.last().push(c),
            ));
        }
        i = i + 1;
    }
    assert(t@.take(t.len() as int) =~= t@);
    let ghost all = pieces@.map_values(|l: Vec<char>| l@).push(cur@);
    if cur.len() > 0 {
        pieces.push(cur);
    }
    assert(pieces@.map_values(|l: Vec<char>| l@) =~= if all.last().len() == 0 {
        all.drop_last()
    } else {
        all
    });
    pieces
}

/// Removes leading and trailing whitespace.
fn trim_chars(s: &Vec<char>) -> (r: Vec<char>)
    ensures
        r@ == trimmed(s@),
{
    let mut lo: usize = 0;
    assert(s@.skip(0) =~= s@);
    while lo < s.len() && char_is_whitespace(s[lo])
        invariant
            lo <= s.len(),
            trim_start(s@) == trim_start(s@.skip(lo as int)),
        decreases s.len() - lo,
    {
        assert(s@.skip(lo as int).drop_first() =~= s@.skip(lo + 1));
        lo = lo + 1;
    }
    assert(trim_start(s@) =~= s@.subrange(lo as int, s.len() as int)) by {
        assert(s@.skip(lo as int) =~= s@.subrange(lo as int, s.len() as int));
    }
    let mut hi: usize = s.len();
    while hi > lo && char_is_whitespace(s[hi - 1])
        invariant
            lo <= hi <= s.len(),
            trimmed(s@) == trim_end(s@.subrange(lo as int, hi as int)),
        decreases hi - lo,
    {
        assert(s@.subrange(lo as int, hi as int).drop_last() =~= s@.subrange(lo as int, hi - 1));
        hi = hi - 1;
    }
    let mut out: Vec<char> = Vec::new();
    let mut k: usize = lo;
    while k < hi
        invariant
            lo <= k <= hi,
            hi <= s.len(),
            out@ == s@.subrange(lo as int, k as int),
        decreases hi - k,
    {
        out.push(s[k]);
        assert(s@.subrange(lo as int, k + 1) =~= s@.subrange(lo as int, k as int).push(s@[k as int]));
        k = k + 1;
    }
    out
}

/// Relies on `zstd::decode_all`, which decompresses a whole zstd stream;
/// zstd is lossless, so what `zstd::encode_all` produced decodes to its input.
#[verifier::external_body]
fn zstd_decode(b: &[u8]) -> (r: Result<Vec<u8>, String>)
    ensures
        match r {
            Ok(v) => zstd_decoded(b@) == Some(v@),
            Err(_) => zstd_decoded(b@) is None,
        },
        forall|level: i32, x: Seq<u8>|
            1 <= level <= 22 && b@ == #[trigger] zstd_compressed(level, x) ==> r is Ok && r->Ok_0@
                == x,
{
    zstd::decode_all(b).map_err(|e| e.to_string())
}

/// Relies on `String::from_utf8`: it fails exactly on bytes that are not UTF-8.
#[verifier::external_body]
fn utf8_decode(b: Vec<u8>) -> (r: Result<String, String>)
    ensures
        match r {
            Ok(s) => valid_utf8(b@) && s@ == decode_utf8(b@),
            Err(_) => !valid_utf8(b@),
        },
{
    String::from_utf8(b).map_err(|e| e.to_string())
}

/// Relies on `csv::Reader::records`, with headers off: every field of every
/// record, stopping at the first malformed record.
#[verifier::external_body]
fn csv_read(b: &[u8]) -> (r: Result<Vec<Vec<String>>, String>)
    ensures
        match r {
            Ok(v) => csv_records(b@) == Some(v@.map_values(|rec: Vec<String>| texts(rec@))),
            Err(_) => csv_records(b@) is None,
        },
{
    let mut reader = csv::ReaderBuilder::new().has_headers(false).from_reader(b);
    reader.records().map(|rec| rec.map(|x| x.iter().map(String::from).collect()).map_err(|e| e.to_string()))
        .collect()
}

/// The first field of each record, where it has one.
fn first_of_records(records: &Vec<Vec<String>>) -> (r: Vec<Option<String>>)
    ensures
        r@.map_values(|o: Option<String>| opt_text(o)) == first_fields(
            records@.map_values(|rec: Vec<String>| texts(rec@)),
        ),
{
    let ghost all = records@.map_values(|rec: Vec<String>| texts(rec@));
    let mut out: Vec<Option<String>> = Vec::new();
    let mut i: usize = 0;
    while i < records.len()
        invariant
            i <= records.len(),
            all == records@.map_values(|rec: Vec<String>| texts(rec@)),
            out.len() == i,
            out@.map_values(|o: Option<String>| opt_text(o)) == first_fields(all).take(i as int),
        decreases records.len() - i,
    {
        let rec = &records[i];
        let ghost prev = out@;
        assert(all[i as int] == texts(rec@));
        assert(all[i as int].len() == rec@.len());
        if rec.len() > 0 {
            assert(all[i as int][0] == rec@[0]@);
            out.push(Some(rec[0].clone()));
        } else {
            out.push(None);
        }
        let ghost f = first_fields(all);
        assert(f[i as int] == (if all[i as int].len() > 0 { Some(all[i as int][0]) } else { None }));
        assert(opt_text(out@[i as int]) == f[i as int]);
        assert(out@.map_values(|o: Option<String>| opt_text(o)) =~= prev.map_values(
            |o: Option<String>| opt_text(o),
        ).push(f[i as int]));
        assert(f.take(i + 1) =~= f.take(i as int).push(f[i as int]));
        i = i + 1;
    }
    assert(first_fields(all).take(i as int) =~= first_fields(all));
    out
}

pub open spec fn opt_text(o: Option<String>) -> Option<Seq<char>> {
    match o {
        Some(s) => Some(s@),
        None => None,
    }
}

/// The trimmed, non-empty texts among `fields`, in order.
pub open spec fn kept(fields: Seq<Option<Seq<char>>>) -> Seq<Seq<char>>
    decreases fields.len(),
{
    if fields.len() == 0 {
        seq![]
    } else {
        let before = kept(fields.drop_last());
        match fields.last() {
            Some(t) => if trimmed(t).len() == 0 {
                before
            } else {
                before.push(trimmed(t))
            },
            None => before,
        }
    }
}

/// Every line present.
pub open spec fn all_present(lines: Seq<Seq<char>>) -> Seq<Option<Seq<char>>> {
    lines.map_values(|l: Seq<char>| Some(l))
}

/// Words as stream entries.
pub open spec fn word_entries(ws: Seq<Seq<char>>) -> Seq<EntryView> {
    ws.map_values(|w: Seq<char>| EntryView::Word(w))
}

/// The words of a text: its trimmed, non-blank lines, in order.
pub open spec fn text_words(text: Seq<char>) -> Seq<Seq<char>> {
    kept(all_present(lines_of(text)))
}

/// Trims every field and keeps the non-empty ones as words.
fn keep_fields(fields: Vec<Option<String>>) -> (r: Vec<Entry>)
    ensures
        entry_views(r@) == word_entries(kept(fields@.map_values(|o: Option<String>| opt_text(o)))),
{
    let ghost all = fields@.map_values(|o: Option<String>| opt_text(o));
    let mut out: Vec<Entry> = Vec::new();
    let mut i: usize = 0;
    while i < fields.len()
        invariant
            i <= fields.len(),
            all == fields@.map_values(|o: Option<String>| opt_text(o)),
            entry_views(out@) == word_entries(kept(all.take(i as int))),
        decreases fields.len() - i,
    {
        assert(all.take(i + 1).drop_last() =~= all.take(i as int));
        match &fields[i] {
            Some(t) => {
                let cs = chars_of(t.as_str());
                let tc = trim_chars(&cs);
                if tc.len() > 0 {
                    let w = string_of(tc.as_slice());
                    let ghost prev = out@;
                    out.push(Entry::Word(Word(w)));
                    assert(entry_views(out@) =~= entry_views(prev).push(EntryView::Word(w@)));
                    assert(word_entries(kept(all.take(i + 1))) =~= word_entries(
                        kept(all.take(i as int)),
                    ).push(EntryView::Word(w@)));
                }
            },
            None => {},
        }
        i = i + 1;
    }
    assert(all.take(fields.len() as int) =~= all);
    out
}

/// The words of a text, in order, as stream entries.
fn text_entries(text: &str) -> (r: Vec<Entry>)
    ensures
        entry_views(r@) == word_entries(text_words(text@)),
{
    let cs = chars_of(text);
    let mut pieces = split_text(&cs);
    let ghost given = pieces@.map_values(|l: Vec<char>| l@);
    let ghost fields = all_present(lines_of(text@));
    let mut reversed: Vec<Vec<char>> = Vec::new();
    while pieces.len() > 0
        invariant
            given.len() == pieces.len() + reversed.len(),
            forall|k: int| 0 <= k < pieces.len() ==> pieces@[k]@ == given[k],
            forall|k: int| 0 <= k < reversed.len() ==> reversed@[k]@ == given[given.len() - 1 - k],
        decreases pieces.len(),
    {
        let l = pieces.pop().unwrap();
        reversed.push(l);
    }
    let mut out: Vec<Entry> = Vec::new();
    let mut k: usize = 0;
    assert(given.len() == reversed.len());
    let total = reversed.len();
    while reversed.len() > 0
        invariant
            given.len() == k + reversed.len(),
            given.len() == total,
            given == line_pieces(text@),
            fields == all_present(lines_of(text@)),
            fields.len() == given.len(),
            forall|j: int| 0 <= j < reversed.len() ==> reversed@[j]@ == given[given.len() - 1 - j],
            entry_views(out@) == word_entries(kept(fields.take(k as int))),
        decreases reversed.len(),
    {
        let mut l = reversed.pop().unwrap();
        assert(l@ == given[k as int]);
        if l.len() > 0 && l[l.len() - 1] == '\r' {
            l.pop();
        }
        assert(l@ == strip_cr(given[k as int]));
        assert(fields[k as int] == Some(l@));
        assert(fields.take(k + 1).drop_last() =~= fields.take(k as int));
        let tc = trim_chars(&l);
        if tc.len() > 0 {
            let w = string_of(tc.as_slice());
            let ghost prev = out@;
            out.push(Entry::Word(Word(w)));
            assert(entry_views(out@) =~= entry_views(prev).push(EntryView::Word(w@)));
            assert(word_entries(kept(fields.take(k + 1))) =~= word_entries(
                kept(fields.take(k as int)),
            ).push(EntryView::Word(w@)));
        }
        k = k + 1;
    }
    assert(fields.take(k as int) =~= fields);
    out
}

proof fn lemma_word_entries_all_words(ws: Seq<Seq<char>>)
    ensures
        crate::entry::all_words(word_entries(ws)),
{
}

/// A checked stream over words sorted in memory.
fn sorted_stream(items: Vec<Entry>) -> (r: WordStream)
    requires
        crate::entry::all_words(entry_views(items@)),
    ensures
        sorted_words(r.rest()),
        r.rest().to_multiset() == entry_views(items@).to_multiset(),
{
    let sorted = sort_entries(items);
    let r = WordStream::new(Stage::from_words(UnsortedWords::from_pending(Pending::from_vec(sorted))));
    proof {
        lemma_checked_sorted(entry_views(sorted@));
    }
    r
}

impl SortedLines {
    /// The trimmed, non-blank lines of `text`, in the order they stand.
    pub fn new(text: &str) -> (r: SortedLines)
        ensures
            r.rest() == word_entries(text_words(text@)),
    {
        SortedLines::from_pending(Pending::from_vec(text_entries(text)))
    }
}

/// A stream over text that is already sorted: its trimmed, non-blank lines
/// in the order they stand, checked against the collation rule.
pub fn from_sorted_reader(text: &str) -> (r: WordStream)
    ensures
        r.rest() == checked(word_entries(text_words(text@))),
{
    WordStream::new(Stage::from_lines(SortedLines::new(text)))
}

/// A stream over zstd-compressed text that is already sorted.
pub fn from_sorted_zst(data: &[u8]) -> (r: Result<WordStream, ReadError>)
    ensures
        match r {
            Ok(s) => exists|text: Seq<char>|
                zstd_decoded(data@) is Some && utf8_text(zstd_decoded(data@)->Some_0) == Some(text)
                    && s.rest() == checked(word_entries(text_words(text))),
            Err(_) => zstd_decoded(data@) is None || utf8_text(zstd_decoded(data@)->Some_0) is None,
        },
        forall|level: i32, t: Seq<char>|
            1 <= level <= 22 && data@ == #[trigger] zstd_compressed(level, encode_utf8(t)) ==> r is Ok
                && r->Ok_0.rest() == checked(word_entries(text_words(t))),
{
    let text = decompress_text(data)?;
    Ok(from_sorted_reader(text.as_str()))
}

/// Decompresses zstd data holding UTF-8 text.
pub fn decompress_text(data: &[u8]) -> (r: Result<String, ReadError>)
    ensures
        match r {
            Ok(s) => zstd_decoded(data@) is Some && utf8_text(zstd_decoded(data@)->Some_0) == Some(
                s@,
            ),
            Err(_) => zstd_decoded(data@) is None || utf8_text(zstd_decoded(data@)->Some_0) is None,
        },
        forall|level: i32, t: Seq<char>|
            1 <= level <= 22 && data@ == #[trigger] zstd_compressed(level, encode_utf8(t)) ==> r is Ok
                && r->Ok_0@ == t,
{
    broadcast use vstd::utf8::encode_utf8_valid_utf8, vstd::utf8::encode_utf8_decode_utf8;

    match zstd_decode(data) {
        Err(m) => Err(ReadError { message: m }),
        Ok(bytes) => {
            let ghost b = bytes@;
            match utf8_decode(bytes) {
                Err(m) => {
                    assert forall|level: i32, t: Seq<char>|
                        1 <= level <= 22 && data@ == #[trigger] zstd_compressed(level, encode_utf8(t))
                            implies false by {
                        assert(b == encode_utf8(t));
                    }
                    Err(ReadError { message: m })
                },
                Ok(s) => {
                    assert forall|level: i32, t: Seq<char>|
                        1 <= level <= 22 && data@ == #[trigger] zstd_compressed(level, encode_utf8(t))
                            implies s@ == t by {
                        assert(b == encode_utf8(t));
                    }
                    Ok(s)
                },
            }
        },
    }
}

/// A stream over unsorted text: its trimmed, non-blank lines, sorted in
/// memory by the collation rule.
pub fn from_unsorted_reader(text: &str) -> (r: WordStream)
    ensures
        sorted_words(r.rest()),
        r.rest().to_multiset() == word_entries(text_words(text@)).to_multiset(),
{
    let items = text_entries(text);
    proof {
        lemma_word_entries_all_words(text_words(text@));
    }
    sorted_stream(items)
}

/// A stream over unsorted plain text, sorted in memory.
pub fn from_txt(text: &str) -> (r: WordStream)
    ensures
        sorted_words(r.rest()),
        r.rest().to_multiset() == word_entries(text_words(text@)).to_multiset(),
{
    from_unsorted_reader(text)
}

/// A stream over unsorted zstd-compressed text, sorted in memory.
pub fn from_txt_zstd(data: &[u8]) -> (r: Result<WordStream, ReadError>)
    ensures
        match r {
            Ok(s) => exists|text: Seq<char>|
                zstd_decoded(data@) is Some && utf8_text(zstd_decoded(data@)->Some_0) == Some(text)
                    && sorted_words(s.rest()) && s.rest().to_multiset() == word_entries(
                    text_words(text),
                ).to_multiset(),
            Err(_) => zstd_decoded(data@) is None || utf8_text(zstd_decoded(data@)->Some_0) is None,
        },
{
    let text = decompress_text(data)?;
    Ok(from_txt(text.as_str()))
}

/// A stream over CSV data: the trimmed, non-empty first field of each
/// record, sorted in memory. Malformed CSV is a read error.
pub fn from_csv(data: &[u8]) -> (r: Result<WordStream, ReadError>)
    ensures
        match r {
            Ok(s) => csv_first_fields(data@) is Some && sorted_words(s.rest())
                && s.rest().to_multiset() == word_entries(
                kept(csv_first_fields(data@)->Some_0),
            ).to_multiset(),
            Err(_) => csv_first_fields(data@) is None,
        },
{
    match csv_read(data) {
        Err(m) => Err(ReadError { message: m }),
        Ok(records) => {
            let fields = first_of_records(&records);
            let ghost f = fields@.map_values(|o: Option<String>| opt_text(o));
            let items = keep_fields(fields);
            proof {
                lemma_word_entries_all_words(kept(f));
            }
            Ok(sorted_stream(items))
        },
    }
}

/// The same as [`from_csv`].
pub fn from_csv_reader(data: &[u8]) -> (r: Result<WordStream, ReadError>)
    ensures
        match r {
            Ok(s) => csv_first_fields(data@) is Some && sorted_words(s.rest())
                && s.rest().to_multiset() == word_entries(
                kept(csv_first_fields(data@)->Some_0),
            ).to_multiset(),
            Err(_) => csv_first_fields(data@) is None,
        },
{
    from_csv(data)
}

/// A stream over zstd-compressed CSV data, sorted in memory.
pub fn from_csv_zstd(data: &[u8]) -> (r: Result<WordStream, ReadError>)
    ensures
        r is Ok ==> zstd_decoded(data@) is Some,
        zstd_decoded(data@) is None ==> r is Err,
        zstd_decoded(data@) is Some ==> match r {
            Ok(s) => csv_first_fields(zstd_decoded(data@)->Some_0) is Some && sorted_words(s.rest())
                && s.rest().to_multiset() == word_entries(
                kept(csv_first_fields(zstd_decoded(data@)->Some_0)->Some_0),
            ).to_multiset(),
            Err(_) => csv_first_fields(zstd_decoded(data@)->Some_0) is None,
        },
{
    match zstd_decode(data) {
        Err(m) => Err(ReadError { message: m }),
        Ok(bytes) => from_csv(bytes.as_slice()),
    }
}

} // verus!
