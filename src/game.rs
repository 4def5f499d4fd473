//! The word-guessing game that consumes word lists: letters and words of
//! fixed length, feedback on a guess, the pool of valid words, and the
//! game's state machine.

use rand::Rng;
use vstd::prelude::*;

use crate::entry::{words_of, Entry, EntryView, ReadError};
use crate::sorting::sorted_words;
use crate::sources::{decompress_text, from_txt, text_words, utf8_text, word_entries, zstd_decoded};
use crate::stream::{alphabetic_char, char_is_alphabetic};

verus! {

/// Letters in a word.
pub const WORD_LENGTH: usize = 5;

/// Guesses allowed by default.
pub const MAX_GUESSES: usize = 6;

/// Errors of the game layer.
#[derive(Debug, Clone, PartialEq, Eq)]
pub enum GameError {
    /// The word list could not be loaded.
    WordListLoadError(String),
    /// The word pool is empty.
    EmptyWordPool,
}

impl GameError {
    /// A description of the error.
    pub fn message(&self) -> (r: String) {
        match self {
            GameError::WordListLoadError(m) => {
                let mut s = String::new();
                s.append("Failed to load word list: ");
                s.append(m.as_str());
                s
            },
            GameError::EmptyWordPool => String::from_str("Word pool is empty"),
        }
    }
}

/// Relies on `String::push`.
#[verifier::external_body]
fn push_char(out: &mut String, c: char)
    ensures
        final(out)@ == old(out)@.push(c),
{
    out.push(c)
}

/// Relies on `String::pop`.
#[verifier::external_body]
fn pop_char(out: &mut String)
    ensures
        old(out)@.len() > 0 ==> final(out)@ == old(out)@.drop_last(),
        old(out)@.len() == 0 ==> final(out)@ == old(out)@,
{
    out.pop();
}

/// What `char::to_lowercase` yields for a character (one or more characters).
pub uninterp spec fn lower_of_char(c: char) -> Seq<char>;

/// Relies on `char::to_lowercase`: the lowercase expansion of `c`, which
/// depends on `c` alone.
#[verifier::external_body]
pub(crate) fn char_lowercase(c: char) -> (r: Vec<char>)
    ensures
        r@ == lower_of_char(c),
{
    c.to_lowercase().collect()
}

/// The character a letter is stored as: the first character of the
/// lowercase expansion, or the character itself where that is empty.
pub open spec fn letter_char(c: char) -> char {
    if lower_of_char(c).len() > 0 {
        lower_of_char(c)[0]
    } else {
        c
    }
}

fn lower_first(c: char) -> (r: char)
    ensures
        r == letter_char(c),
{
    let l = char_lowercase(c);
    if l.len() > 0 {
        l[0]
    } else {
        c
    }
}

/// A single letter, stored lowercase.
#[derive(Debug, Clone, Copy, PartialEq, Eq, Hash)]
pub struct Letter(char);

impl Letter {
    pub closed spec fn view_char(&self) -> char {
        self.0
    }

    /// The letter of an alphabetic character; `None` for any other.
    pub fn new(c: char) -> (r: Option<Letter>)
        ensures
            alphabetic_char(c) ==> r is Some && r->Some_0.view_char() == letter_char(c),
            !alphabetic_char(c) ==> r is None,
    {
        if char_is_alphabetic(c) {
            Some(Letter(lower_first(c)))
        } else {
            None
        }
    }

    /// The character.
    pub fn char(&self) -> (r: char)
        ensures
            r == self.view_char(),
    {
        self.0
    }
}

/// A word of `WORD_LENGTH` letters.
#[derive(Debug, Clone, PartialEq, Eq, Hash)]
pub struct Word(Vec<Letter>);

impl View for Word {
    type V = Seq<char>;

    closed spec fn view(&self) -> Seq<char> {
        self.0@.map_values(|l: Letter| l.0)
    }
}

/// The words that the texts parse as, in order; texts that do not parse are left out.
pub open spec fn parsed_all(ss: Seq<Seq<char>>) -> Seq<Seq<char>>
    decreases ss.len(),
{
    if ss.len() == 0 {
        seq![]
    } else {
        let before = parsed_all(ss.drop_last());
        match parsed(ss.last()) {
            Some(w) => before.push(w),
            None => before,
        }
    }
}

/// The word that `parse` makes of a text, if any.
pub open spec fn parsed(s: Seq<char>) -> Option<Seq<char>> {
    if s.len() == WORD_LENGTH && forall|i: int| 0 <= i < s.len() ==> alphabetic_char(#[trigger] s[i]) {
        Some(s.map_values(|c: char| letter_char(c)))
    } else {
        None
    }
}

impl Word {
    pub closed spec fn wf(&self) -> bool {
        self.0.len() == WORD_LENGTH
    }

    /// A well-formed word has `WORD_LENGTH` letters.
    pub proof fn lemma_wf(&self)
        requires
            self.wf(),
        ensures
            self@.len() == WORD_LENGTH,
    {
    }

    /// Parses exactly `WORD_LENGTH` alphabetic characters, stored lowercase.
    pub fn parse(s: &str) -> (r: Option<Word>)
        ensures
            match r {
                Some(w) => w.wf() && parsed(s@) == Some(w@),
                None => parsed(s@) is None,
            },
    {
        let n = s.unicode_len();
        if n != WORD_LENGTH {
            return None;
        }
        let mut letters: Vec<Letter> = Vec::new();
        let mut i: usize = 0;
        while i < n
            invariant
                n == s@.len(),
                n == WORD_LENGTH,
                i <= n,
                letters.len() == i,
                forall|k: int| 0 <= k < i ==> alphabetic_char(#[trigger] s@[k]),
                forall|k: int| 0 <= k < i ==> (#[trigger] letters@[k]).0 == letter_char(s@[k]),
            decreases n - i,
        {
            let c = s.get_char(i);
            match Letter::new(c) {
                Some(l) => letters.push(l),
                None => {
                    return None;
                },
            }
            i = i + 1;
        }
        let w = Word(letters);
        assert(w@ =~= s@.map_values(|c: char| letter_char(c)));
        Some(w)
    }

    /// The letter at `index`.
    pub fn letter(&self, index: usize) -> (r: Letter)
        requires
            self.wf(),
            index < WORD_LENGTH,
        ensures
            r.view_char() == self@[index as int],
    {
        self.0[index]
    }

    /// The letters, in order.
    pub fn letters(&self) -> (r: Vec<Letter>)
        ensures
            r@.map_values(|l: Letter| l.view_char()) == self@,
    {
        let mut out: Vec<Letter> = Vec::new();
        let mut i: usize = 0;
        while i < self.0.len()
            invariant
                i <= self.0.len(),
                out@ == self.0@.take(i as int),
            decreases self.0.len() - i,
        {
            out.push(self.0[i]);
            assert(self.0@.take(i + 1) =~= self.0@.take(i as int).push(self.0@[i as int]));
            i = i + 1;
        }
        assert(self.0@.take(i as int) =~= self.0@);
        assert(out@.map_values(|l: Letter| l.view_char()) =~= self@);
        out
    }

    /// The word as lowercase text.
    pub fn as_str(&self) -> (r: String)
        ensures
            r@ == self@,
    {
        let mut s = String::new();
        let mut i: usize = 0;
        while i < self.0.len()
            invariant
                i <= self.0.len(),
                s@ == self@.take(i as int),
            decreases self.0.len() - i,
        {
            push_char(&mut s, self.0[i].0);
            assert(self@.take(i + 1) =~= self@.take(i as int).push(self@[i as int]));
            i = i + 1;
        }
        assert(self@.take(i as int) =~= self@);
        s
    }

    fn same(&self, other: &Word) -> (r: bool)
        ensures
            r == (self@ == other@),
    {
        if self.0.len() != other.0.len() {
            assert(self@.len() != other@.len());
            return false;
        }
        let mut i: usize = 0;
        while i < self.0.len()
            invariant
                i <= self.0.len(),
                self.0.len() == other.0.len(),
                forall|k: int| 0 <= k < i ==> self@[k] == other@[k],
            decreases self.0.len() - i,
        {
            if self.0[i].0 != other.0[i].0 {
                assert(self@[i as int] != other@[i as int]);
                return false;
            }
            i = i + 1;
        }
        assert(self@ =~= other@);
        true
    }

    fn copy(&self) -> (r: Word)
        ensures
            r@ == self@,
            r.0@.len() == self.0@.len(),
    {
        let r = Word(self.letters());
        assert(r@ =~= self@);
        r
    }
}

/// Feedback for one letter of a guess.
#[derive(Debug, Clone, Copy, PartialEq, Eq, Hash)]
pub enum LetterFeedback {
    /// Right letter, right position.
    Correct,
    /// In the word, at another position.
    WrongPosition,
    /// Not in the word (or all its occurrences already accounted for).
    NotInWord,
}

/// Positions below `n` where `g` and `s` differ and `a` holds `c`.
pub open spec fn unmatched_count(g: Seq<char>, s: Seq<char>, a: Seq<char>, c: char, n: int) -> nat
    decreases n,
{
    if n <= 0 {
        0
    } else {
        unmatched_count(g, s, a, c, n - 1) + if g[n - 1] != s[n - 1] && a[n - 1] == c {
            1nat
        } else {
            0nat
        }
    }
}

/// The feedback on position `i` of guess `g` against secret `s`: correct
/// where they agree; otherwise in the word while the unmatched occurrences
/// of the letter in the guess up to `i` do not outnumber those in the secret.
pub open spec fn feedback_at(g: Seq<char>, s: Seq<char>, i: int) -> LetterFeedback {
    if g[i] == s[i] {
        LetterFeedback::Correct
    } else if unmatched_count(g, s, g, g[i], i) < unmatched_count(g, s, s, g[i], s.len() as int) {
        LetterFeedback::WrongPosition
    } else {
        LetterFeedback::NotInWord
    }
}

fn count_unmatched(g: &Vec<Letter>, s: &Vec<Letter>, a: &Vec<Letter>, c: char, n: usize) -> (r: usize)
    requires
        n <= g.len(),
        g.len() == s.len(),
        s.len() == a.len(),
    ensures
        r == unmatched_count(g@.map_values(|l: Letter| l.0), s@.map_values(|l: Letter| l.0), a@.map_values(|l: Letter| l.0), c, n as int),
{
    let ghost gv = g@.map_values(|l: Letter| l.0);
    let ghost sv = s@.map_values(|l: Letter| l.0);
    let ghost av = a@.map_values(|l: Letter| l.0);
    let mut k: usize = 0;
    let mut count: usize = 0;
    while k < n
        invariant
            k <= n,
            n <= g.len(),
            g.len() == s.len(),
            s.len() == a.len(),
            gv == g@.map_values(|l: Letter| l.0),
            sv == s@.map_values(|l: Letter| l.0),
            av == a@.map_values(|l: Letter| l.0),
            count == unmatched_count(gv, sv, av, c, k as int),
            count <= k,
        decreases n - k,
    {
        if g[k].0 != s[k].0 && a[k].0 == c {
            count = count + 1;
        }
        k = k + 1;
    }
    count
}

/// The feedback on a guess.
#[derive(Debug, Clone, PartialEq, Eq)]
pub struct GuessFeedback {
    word: Word,
    feedback: Vec<LetterFeedback>,
}

impl GuessFeedback {
    pub closed spec fn guess(&self) -> Seq<char> {
        self.word@
    }

    pub closed spec fn marks(&self) -> Seq<LetterFeedback> {
        self.feedback@
    }

    /// Feedback on `guess` against `secret`.
    pub fn evaluate(guess: &Word, secret: &Word) -> (r: GuessFeedback)
        requires
            guess.wf(),
            secret.wf(),
        ensures
            r.guess() == guess@,
            r.marks().len() == WORD_LENGTH,
            forall|i: int| 0 <= i < WORD_LENGTH ==> r.marks()[i] == feedback_at(guess@, secret@, i),
            (forall|i: int| 0 <= i < WORD_LENGTH ==> r.marks()[i] == LetterFeedback::Correct) <==> guess@
                == secret@,
    {
        let mut feedback: Vec<LetterFeedback> = Vec::new();
        let mut i: usize = 0;
        while i < WORD_LENGTH
            invariant
                guess.wf(),
                secret.wf(),
                i <= WORD_LENGTH,
                feedback.len() == i,
                forall|k: int| 0 <= k < i ==> feedback@[k] == feedback_at(guess@, secret@, k),
            decreases WORD_LENGTH - i,
        {
            let c = guess.0[i].0;
            let mark = if c == secret.0[i].0 {
                LetterFeedback::Correct
            } else if count_unmatched(&guess.0, &secret.0, &guess.0, c, i) < count_unmatched(
                &guess.0,
                &secret.0,
                &secret.0,
                c,
                WORD_LENGTH,
            ) {
                LetterFeedback::WrongPosition
            } else {
                LetterFeedback::NotInWord
            };
            feedback.push(mark);
            i = i + 1;
        }
        let r = GuessFeedback { word: guess.copy(), feedback };
        proof {
            if forall|i: int| 0 <= i < WORD_LENGTH ==> r.marks()[i] == LetterFeedback::Correct {
                assert forall|i: int| 0 <= i < guess@.len() implies guess@[i] == secret@[i] by {
                    assert(r.marks()[i] == LetterFeedback::Correct);
                }
                assert(guess@ =~= secret@);
            }
        }
        r
    }

    /// The guessed word.
    pub fn word(&self) -> (r: &Word)
        ensures
            r@ == self.guess(),
    {
        &self.word
    }

    /// The feedback on each position.
    pub fn feedback(&self) -> (r: &[LetterFeedback])
        ensures
            r@ == self.marks(),
    {
        self.feedback.as_slice()
    }

    /// Whether every position is correct.
    pub fn is_win(&self) -> (r: bool)
        ensures
            r == forall|i: int| 0 <= i < self.marks().len() ==> self.marks()[i] == LetterFeedback::Correct,
    {
        let mut i: usize = 0;
        while i < self.feedback.len()
            invariant
                i <= self.feedback.len(),
                forall|k: int| 0 <= k < i ==> self.feedback@[k] == LetterFeedback::Correct,
            decreases self.feedback.len() - i,
        {
            match self.feedback[i] {
                LetterFeedback::Correct => {},
                _ => {
                    return false;
                },
            }
            i = i + 1;
        }
        true
    }

    /// The letters with their feedback.
    pub fn iter(&self) -> (r: Vec<(Letter, LetterFeedback)>)
        ensures
            r@.len() <= self.marks().len(),
            forall|i: int| 0 <= i < r@.len() ==> (#[trigger] r@[i]).1 == self.marks()[i],
    {
        let mut out: Vec<(Letter, LetterFeedback)> = Vec::new();
        let mut i: usize = 0;
        while i < self.feedback.len() && i < self.word.0.len()
            invariant
                i <= self.feedback.len(),
                i <= self.word.0.len(),
                out.len() == i,
                forall|k: int| 0 <= k < i ==> (#[trigger] out@[k]).1 == self.feedback@[k],
            decreases self.feedback.len() - i,
        {
            out.push((self.word.0[i], self.feedback[i]));
            i = i + 1;
        }
        out
    }
}

/// Relies on `rand::Rng::gen_range` over `0..n` with the thread's generator.
#[verifier::external_body]
fn random_below(n: usize) -> (r: usize)
    requires
        n > 0,
    ensures
        r < n,
{
    rand::thread_rng().gen_range(0..n)
}

/// The pool of valid words.
#[derive(Debug, Clone)]
pub struct WordPool {
    words: Vec<Word>,
}

impl WordPool {
    /// The words, in the order given.
    pub closed spec fn words_view(&self) -> Seq<Seq<char>> {
        self.words@.map_values(|w: Word| w@)
    }

    pub closed spec fn wf(&self) -> bool {
        forall|i: int| 0 <= i < self.words@.len() ==> (#[trigger] self.words@[i]).wf()
    }

    /// A pool of the given words.
    pub fn from_words(words: Vec<Word>) -> (r: WordPool)
        requires
            forall|i: int| 0 <= i < words@.len() ==> (#[trigger] words@[i]).wf(),
        ensures
            r.wf(),
            r.words_view() == words@.map_values(|w: Word| w@),
    {
        WordPool { words }
    }

    /// A pool of the texts that parse as words, in order; the others are dropped.
    pub fn from_strings(strings: Vec<String>) -> (r: WordPool)
        ensures
            r.wf(),
            r.words_view() == parsed_all(strings@.map_values(|s: String| s@)),
    {
        let ghost all = strings@.map_values(|s: String| s@);
        let mut words: Vec<Word> = Vec::new();
        let mut i: usize = 0;
        while i < strings.len()
            invariant
                i <= strings.len(),
                all == strings@.map_values(|s: String| s@),
                forall|k: int| 0 <= k < words@.len() ==> (#[trigger] words@[k]).wf(),
                words@.map_values(|w: Word| w@) == parsed_all(all.take(i as int)),
            decreases strings.len() - i,
        {
            let ghost prev = words@;
            assert(all.take(i + 1).drop_last() =~= all.take(i as int));
            assert(all.take(i + 1).last() == strings@[i as int]@);
            match Word::parse(strings[i].as_str()) {
                Some(w) => {
                    words.push(w);
                    assert(words@.map_values(|w: Word| w@) =~= prev.map_values(|w: Word| w@).push(w@));
                },
                None => {},
            }
            i = i + 1;
        }
        assert(all.take(i as int) =~= all);
        WordPool { words }
    }

    /// Whether `word` is in the pool.
    pub fn contains(&self, word: &Word) -> (r: bool)
        ensures
            r == self.words_view().contains(word@),
    {
        let mut i: usize = 0;
        while i < self.words.len()
            invariant
                i <= self.words.len(),
                forall|k: int| 0 <= k < i ==> self.words@[k]@ != word@,
            decreases self.words.len() - i,
        {
            if self.words[i].same(word) {
                assert(self.words_view()[i as int] == word@);
                return true;
            }
            i = i + 1;
        }
        assert(!self.words_view().contains(word@)) by {
            if self.words_view().contains(word@) {
                let k = choose|k: int| 0 <= k < self.words_view().len() && self.words_view()[k] == word@;
                assert(self.words@[k]@ == word@);
            }
        }
        false
    }

    /// A word of the pool chosen at random.
    pub fn random(&self) -> (r: &Word)
        requires
            self.words_view().len() > 0,
        ensures
            self.words_view().contains(r@),
            self.wf() ==> r.wf(),
    {
        let i = random_below(self.words.len());
        assert(self.words_view()[i as int] == self.words@[i as int]@);
        &self.words[i]
    }

    /// The number of words.
    pub fn len(&self) -> (r: usize)
        ensures
            r == self.words_view().len(),
    {
        self.words.len()
    }

    /// Whether the pool is empty.
    pub fn is_empty(&self) -> (r: bool)
        ensures
            r == (self.words_view().len() == 0),
    {
        self.words.len() == 0
    }
}

/// Loads a pool from a zstd-compressed word list: the trimmed, non-blank
/// lines that parse as words, taken in collation order.
pub fn load_german_wordlist(data: &[u8]) -> (r: Result<WordPool, ReadError>)
    ensures
        r is Ok <==> (zstd_decoded(data@) is Some && utf8_text(zstd_decoded(data@)->Some_0) is Some),
        r is Ok ==> r->Ok_0.wf() && exists|text: Seq<char>, ws: Seq<Seq<char>>|
            utf8_text(zstd_decoded(data@)->Some_0) == Some(text) && sorted_words(word_entries(ws))
                && word_entries(ws).to_multiset() == word_entries(text_words(text)).to_multiset()
                && (#[trigger] r->Ok_0.words_view()) == parsed_all(ws),
{
    let text = decompress_text(data)?;
    let mut stream = from_txt(text.as_str());
    let ghost start = stream.rest();
    let mut words: Vec<String> = Vec::new();
    let ghost mut done: Seq<EntryView> = seq![];
    loop
        invariant
            sorted_words(start),
            done + stream.rest() == start,
            words@.map_values(|s: String| s@) == words_of(done),
        ensures
            sorted_words(start),
            done == start,
            words@.map_values(|s: String| s@) == words_of(done),
        decreases stream.rest().len(),
    {
        let ghost before = stream.rest();
        match stream.next() {
            None => {
                assert(done + stream.rest() =~= done);
                break;
            },
            Some(Entry::Word(w)) => {
                let ghost wv = w@;
                let ghost prev = words@;
                words.push(w.0);
                proof {
                    let d = done;
                    done = done.push(EntryView::Word(wv));
                    assert(done + stream.rest() =~= d + before);
                    assert(words@.map_values(|s: String| s@) =~= prev.map_values(|s: String| s@).push(wv));
                    assert(words_of(done) =~= words_of(d).push(wv));
                }
            },
            Some(e) => {
                proof {
                    assert(start[done.len() as int] == before[0]);
                    assert(false);
                }
            },
        }
    }
    let ghost ws = words_of(done);
    assert(word_entries(ws) =~= start);
    let pool = WordPool::from_strings(words);
    Ok(pool)
}

/// Settings of a game.
#[derive(Debug, Clone)]
pub struct GameConfig {
    /// Guesses allowed.
    pub max_guesses: usize,
}

impl Default for GameConfig {
    fn default() -> (r: GameConfig)
        ensures
            r.max_guesses == MAX_GUESSES,
    {
        GameConfig { max_guesses: MAX_GUESSES }
    }
}

/// Where a game stands.
#[derive(Debug, Clone, PartialEq, Eq, Structural)]
pub enum GameState {
    Playing,
    Won { guesses_used: usize },
    Lost,
}

/// The outcome of a guess.
#[derive(Debug, Clone, PartialEq, Eq)]
pub enum GuessResult {
    /// Accepted, with its feedback.
    Accepted(GuessFeedback),
    /// Not in the word pool.
    NotInWordList,
    /// The game is already over.
    GameOver,
    /// Not `WORD_LENGTH` alphabetic characters.
    InvalidInput,
}

/// A game in progress or finished.
#[derive(Debug, Clone)]
pub struct Game {
    secret: Word,
    guesses: Vec<GuessFeedback>,
    config: GameConfig,
    word_pool: WordPool,
}

impl Game {
    pub closed spec fn wf(&self) -> bool {
        &&& self.secret.wf()
        &&& self.word_pool.wf()
        &&& self.guesses.len() <= self.config.max_guesses
    }

    pub closed spec fn secret_word(&self) -> Seq<char> {
        self.secret@
    }

    pub closed spec fn pool(&self) -> Seq<Seq<char>> {
        self.word_pool.words_view()
    }

    pub closed spec fn limit(&self) -> nat {
        self.config.max_guesses as nat
    }

    pub closed spec fn history(&self) -> Seq<GuessFeedback> {
        self.guesses@
    }

    /// The last guess was all correct.
    pub open spec fn won(&self) -> bool {
        self.history().len() > 0 && forall|i: int|
            0 <= i < self.history().last().marks().len() ==> self.history().last().marks()[i]
                == LetterFeedback::Correct
    }

    pub open spec fn state_spec(&self) -> GameState {
        if self.won() {
            GameState::Won { guesses_used: self.history().len() as usize }
        } else if self.history().len() >= self.limit() {
            GameState::Lost
        } else {
            GameState::Playing
        }
    }

    /// A new game with a secret chosen at random from the pool.
    pub fn new(word_pool: WordPool) -> (r: Game)
        requires
            word_pool.wf(),
            word_pool.words_view().len() > 0,
        ensures
            r.wf(),
            r.pool() == word_pool.words_view(),
            r.pool().contains(r.secret_word()),
            r.limit() == MAX_GUESSES,
            r.history().len() == 0,
    {
        Game::with_config(word_pool, GameConfig::default())
    }

    /// A new game with the given settings.
    pub fn with_config(word_pool: WordPool, config: GameConfig) -> (r: Game)
        requires
            word_pool.wf(),
            word_pool.words_view().len() > 0,
        ensures
            r.wf(),
            r.pool() == word_pool.words_view(),
            r.pool().contains(r.secret_word()),
            r.limit() == config.max_guesses,
            r.history().len() == 0,
    {
        let secret = word_pool.random().copy();
        Game { secret, guesses: Vec::new(), config, word_pool }
    }

    /// A new game with a chosen secret.
    pub fn with_secret(word_pool: WordPool, secret: Word) -> (r: Game)
        requires
            word_pool.wf(),
            secret.wf(),
        ensures
            r.wf(),
            r.pool() == word_pool.words_view(),
            r.secret_word() == secret@,
            r.limit() == MAX_GUESSES,
            r.history().len() == 0,
    {
        Game { secret, guesses: Vec::new(), config: GameConfig { max_guesses: MAX_GUESSES }, word_pool }
    }

    /// Guesses a text.
    pub fn guess(&mut self, input: &str) -> (r: GuessResult)
        requires
            old(self).wf(),
        ensures
            final(self).wf(),
            final(self).secret_word() == old(self).secret_word(),
            final(self).pool() == old(self).pool(),
            final(self).limit() == old(self).limit(),
            parsed(input@) is None ==> r == GuessResult::InvalidInput && final(self).history()
                == old(self).history(),
            parsed(input@) is Some ==> Self::outcome(*old(self), *final(self), parsed(input@)->Some_0, r),
    {
        match Word::parse(input) {
            Some(word) => self.guess_word(&word),
            None => GuessResult::InvalidInput,
        }
    }

    /// What a guess of `w` does to a game.
    pub open spec fn outcome(before: Game, after: Game, w: Seq<char>, r: GuessResult) -> bool {
        if before.state_spec() != GameState::Playing {
            r == GuessResult::GameOver && after.history() == before.history()
        } else if !before.pool().contains(w) {
            r == GuessResult::NotInWordList && after.history() == before.history()
        } else {
            &&& r is Accepted
            &&& r->Accepted_0.guess() == w
            &&& r->Accepted_0.marks().len() == WORD_LENGTH
            &&& forall|i: int| 0 <= i < WORD_LENGTH ==> r->Accepted_0.marks()[i] == feedback_at(w, before.secret_word(), i)
            &&& after.history().len() == before.history().len() + 1
            &&& after.history().drop_last() == before.history()
            &&& after.history().last().guess() == w
            &&& after.history().last().marks() == r->Accepted_0.marks()
        }
    }

    /// Guesses a parsed word.
    pub fn guess_word(&mut self, word: &Word) -> (r: GuessResult)
        requires
            old(self).wf(),
            word.wf(),
        ensures
            final(self).wf(),
            final(self).secret_word() == old(self).secret_word(),
            final(self).pool() == old(self).pool(),
            final(self).limit() == old(self).limit(),
            Self::outcome(*old(self), *final(self), word@, r),
    {
        match self.state() {
            GameState::Playing => {},
            _ => {
                return GuessResult::GameOver;
            },
        }
        if !self.word_pool.contains(word) {
            return GuessResult::NotInWordList;
        }
        let feedback = GuessFeedback::evaluate(word, &self.secret);
        let kept = GuessFeedback { word: feedback.word.copy(), feedback: copy_marks(&feedback.feedback) };
        let ghost before = self.guesses@;
        self.guesses.push(kept);
        assert(self.guesses@.drop_last() =~= before);
        GuessResult::Accepted(feedback)
    }

    /// Where the game stands.
    pub fn state(&self) -> (r: GameState)
        ensures
            r == self.state_spec(),
    {
        let n = self.guesses.len();
        if n > 0 && self.guesses[n - 1].is_win() {
            return GameState::Won { guesses_used: n };
        }
        if n >= self.config.max_guesses {
            return GameState::Lost;
        }
        GameState::Playing
    }

    /// The guesses so far.
    pub fn guesses(&self) -> (r: &[GuessFeedback])
        ensures
            r@ == self.history(),
    {
        self.guesses.as_slice()
    }

    /// Guesses left.
    pub fn guesses_remaining(&self) -> (r: usize)
        ensures
            r == if self.history().len() <= self.limit() { self.limit() - self.history().len() } else { 0 },
    {
        if self.guesses.len() <= self.config.max_guesses {
            self.config.max_guesses - self.guesses.len()
        } else {
            0
        }
    }

    /// The number of the next guess, from 1.
    pub fn current_guess_number(&self) -> (r: usize)
        requires
            self.history().len() < usize::MAX,
        ensures
            r == self.history().len() + 1,
    {
        self.guesses.len() + 1
    }

    /// The secret, once the game is over.
    pub fn secret(&self) -> (r: Option<&Word>)
        ensures
            self.state_spec() == GameState::Playing ==> r is None,
            self.state_spec() != GameState::Playing ==> r is Some && r->Some_0@ == self.secret_word(),
    {
        match self.state() {
            GameState::Playing => None,
            _ => Some(&self.secret),
        }
    }

    /// Whether `word` is in the pool.
    pub fn is_valid_word(&self, word: &Word) -> (r: bool)
        ensures
            r == self.pool().contains(word@),
    {
        self.word_pool.contains(word)
    }

    /// Guesses allowed.
    pub fn max_guesses(&self) -> (r: usize)
        ensures
            r == self.limit(),
    {
        self.config.max_guesses
    }
}

fn copy_marks(m: &Vec<LetterFeedback>) -> (r: Vec<LetterFeedback>)
    ensures
        r@ == m@,
{
    let mut out: Vec<LetterFeedback> = Vec::new();
    let mut i: usize = 0;
    while i < m.len()
        invariant
            i <= m.len(),
            out@ == m@.take(i as int),
        decreases m.len() - i,
    {
        out.push(m[i]);
        assert(m@.take(i + 1) =~= m@.take(i as int).push(m@[i as int]));
        i = i + 1;
    }
    assert(m@.take(i as int) =~= m@);
    out
}

/// The letters typed so far for the next guess.
#[derive(Debug, Default, Clone)]
pub struct InputState {
    buffer: String,
}

impl InputState {
    pub closed spec fn typed(&self) -> Seq<char> {
        self.buffer@
    }

    /// Nothing typed.
    pub fn new() -> (r: InputState)
        ensures
            r.typed().len() == 0,
    {
        InputState { buffer: String::new() }
    }

    /// Adds the letter of an alphabetic character, unless the input is full.
    pub fn push(&mut self, c: char)
        ensures
            old(self).typed().len() < WORD_LENGTH && alphabetic_char(c) ==> final(self).typed()
                == old(self).typed().push(letter_char(c)),
            !(old(self).typed().len() < WORD_LENGTH && alphabetic_char(c)) ==> final(self).typed()
                == old(self).typed(),
    {
        if self.buffer.as_str().unicode_len() < WORD_LENGTH && char_is_alphabetic(c) {
            push_char(&mut self.buffer, lower_first(c));
        }
    }

    /// Removes the last character.
    pub fn pop(&mut self)
        ensures
            old(self).typed().len() > 0 ==> final(self).typed() == old(self).typed().drop_last(),
            old(self).typed().len() == 0 ==> final(self).typed() == old(self).typed(),
    {
        pop_char(&mut self.buffer);
    }

    /// Clears the input.
    pub fn clear(&mut self)
        ensures
            final(self).typed().len() == 0,
    {
        self.buffer = String::new();
    }

    /// The input.
    pub fn as_str(&self) -> (r: &str)
        ensures
            r@ == self.typed(),
    {
        self.buffer.as_str()
    }

    /// Whether `WORD_LENGTH` letters are typed.
    pub fn is_complete(&self) -> (r: bool)
        ensures
            r == (self.typed().len() == WORD_LENGTH),
    {
        self.buffer.as_str().unicode_len() == WORD_LENGTH
    }
}

} // verus!
