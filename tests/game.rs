use wordle::game::{
    Game, GameState, GuessFeedback, GuessResult, InputState, Letter, LetterFeedback, Word,
    WordPool, MAX_GUESSES, WORD_LENGTH,
};

fn test_pool() -> WordPool {
    WordPool::from_strings(vec![
        "hello".to_string(),
        "world".to_string(),
        "crane".to_string(),
        "slate".to_string(),
        "audio".to_string(),
    ])
}

#[test]
fn test_all_correct() {
    let guess = Word::parse("hello").unwrap();
    let secret = Word::parse("hello").unwrap();
    let feedback = GuessFeedback::evaluate(&guess, &secret);
    assert!(feedback.is_win());
    assert_eq!(feedback.feedback(), &[LetterFeedback::Correct; WORD_LENGTH]);
}

#[test]
fn test_all_wrong() {
    let guess = Word::parse("xxxxx").unwrap();
    let secret = Word::parse("hello").unwrap();
    let feedback = GuessFeedback::evaluate(&guess, &secret);
    assert!(!feedback.is_win());
    assert_eq!(feedback.feedback(), &[LetterFeedback::NotInWord; WORD_LENGTH]);
}

#[test]
fn test_wrong_position() {
    let guess = Word::parse("olleh").unwrap();
    let secret = Word::parse("hello").unwrap();
    let feedback = GuessFeedback::evaluate(&guess, &secret);
    assert!(!feedback.is_win());
    assert_eq!(
        feedback.feedback(),
        &[
            LetterFeedback::WrongPosition,
            LetterFeedback::WrongPosition,
            LetterFeedback::Correct,
            LetterFeedback::WrongPosition,
            LetterFeedback::WrongPosition,
        ]
    );
}

#[test]
fn test_duplicate_letters() {
    let guess = Word::parse("llama").unwrap();
    let secret = Word::parse("hello").unwrap();
    let feedback = GuessFeedback::evaluate(&guess, &secret);
    assert_eq!(
        feedback.feedback(),
        &[
            LetterFeedback::WrongPosition,
            LetterFeedback::WrongPosition,
            LetterFeedback::NotInWord,
            LetterFeedback::NotInWord,
            LetterFeedback::NotInWord,
        ]
    );
}

#[test]
fn test_duplicate_letters_one_correct() {
    let guess = Word::parse("hello").unwrap();
    let secret = Word::parse("hella").unwrap();
    let feedback = GuessFeedback::evaluate(&guess, &secret);
    assert_eq!(
        feedback.feedback(),
        &[
            LetterFeedback::Correct,
            LetterFeedback::Correct,
            LetterFeedback::Correct,
            LetterFeedback::Correct,
            LetterFeedback::NotInWord,
        ]
    );
}

#[test]
fn test_extra_duplicate_in_guess() {
    let guess = Word::parse("geese").unwrap();
    let secret = Word::parse("eerie").unwrap();
    let feedback = GuessFeedback::evaluate(&guess, &secret);
    assert_eq!(
        feedback.feedback(),
        &[
            LetterFeedback::NotInWord,
            LetterFeedback::Correct,
            LetterFeedback::WrongPosition,
            LetterFeedback::NotInWord,
            LetterFeedback::Correct,
        ]
    );
}

#[test]
fn test_win_first_guess() {
    let pool = test_pool();
    let mut game = Game::with_secret(pool, Word::parse("hello").unwrap());
    let result = game.guess("hello");
    assert!(matches!(result, GuessResult::Accepted(f) if f.is_win()));
    assert_eq!(game.state(), GameState::Won { guesses_used: 1 });
}

#[test]
fn test_win_after_multiple_guesses() {
    let pool = test_pool();
    let mut game = Game::with_secret(pool, Word::parse("hello").unwrap());
    game.guess("world");
    game.guess("crane");
    let result = game.guess("hello");
    assert!(matches!(result, GuessResult::Accepted(f) if f.is_win()));
    assert_eq!(game.state(), GameState::Won { guesses_used: 3 });
}

#[test]
fn test_lose_after_max_guesses() {
    let pool = test_pool();
    let mut game = Game::with_secret(pool, Word::parse("hello").unwrap());
    for _ in 0..MAX_GUESSES {
        game.guess("world");
    }
    assert_eq!(game.state(), GameState::Lost);
    assert_eq!(game.secret(), Some(&Word::parse("hello").unwrap()));
}

#[test]
fn test_invalid_word() {
    let pool = test_pool();
    let mut game = Game::with_secret(pool, Word::parse("hello").unwrap());
    let result = game.guess("hi");
    assert_eq!(result, GuessResult::InvalidInput);
    let result = game.guess("12345");
    assert_eq!(result, GuessResult::InvalidInput);
}

#[test]
fn test_word_not_in_list() {
    let pool = test_pool();
    let mut game = Game::with_secret(pool, Word::parse("hello").unwrap());
    let result = game.guess("zzzzz");
    assert_eq!(result, GuessResult::NotInWordList);
}

#[test]
fn test_game_over_prevents_more_guesses() {
    let pool = test_pool();
    let mut game = Game::with_secret(pool, Word::parse("hello").unwrap());
    game.guess("hello");
    let result = game.guess("world");
    assert_eq!(result, GuessResult::GameOver);
}

#[test]
fn test_guesses_remaining() {
    let pool = test_pool();
    let mut game = Game::with_secret(pool, Word::parse("hello").unwrap());
    assert_eq!(game.guesses_remaining(), MAX_GUESSES);
    game.guess("world");
    assert_eq!(game.guesses_remaining(), MAX_GUESSES - 1);
}

#[test]
fn test_letter_new() {
    assert_eq!(Letter::new('a').map(|l| l.char()), Some('a'));
    assert_eq!(Letter::new('A').map(|l| l.char()), Some('a'));
    assert_eq!(Letter::new('1'), None);
    assert_eq!(Letter::new(' '), None);
}

#[test]
fn test_word_parse() {
    let word = Word::parse("hello").unwrap();
    assert_eq!(word.as_str(), "hello");
    let word = Word::parse("HELLO").unwrap();
    assert_eq!(word.as_str(), "hello");
    assert!(Word::parse("hi").is_none());
    assert!(Word::parse("toolong").is_none());
    assert!(Word::parse("hell0").is_none());
}

#[test]
fn test_word_letters() {
    let word = Word::parse("hello").unwrap();
    let letters: Vec<char> = word.letters().into_iter().map(|l| l.char()).collect();
    assert_eq!(letters, vec!['h', 'e', 'l', 'l', 'o']);
}

#[test]
fn test_word_pool_from_strings() {
    let pool = WordPool::from_strings(vec![
        "hello".to_string(),
        "world".to_string(),
        "short".to_string(),
    ]);
    assert_eq!(pool.len(), 3);
    assert!(pool.contains(&Word::parse("hello").unwrap()));
    assert!(pool.contains(&Word::parse("world").unwrap()));
    assert!(!pool.contains(&Word::parse("other").unwrap()));
}

#[test]
fn test_word_pool_filters_invalid() {
    let pool = WordPool::from_strings(vec![
        "hello".to_string(),
        "hi".to_string(),
        "toolong".to_string(),
        "12345".to_string(),
    ]);
    assert_eq!(pool.len(), 1);
    assert!(pool.contains(&Word::parse("hello").unwrap()));
}

#[test]
fn test_random_word() {
    let pool = WordPool::from_strings(vec!["hello".to_string(), "world".to_string()]);
    let random = pool.random();
    assert!(pool.contains(random));
}

#[test]
fn random_secret_comes_from_pool() {
    let pool = test_pool();
    let game = Game::new(pool.clone());
    assert_eq!(game.max_guesses(), MAX_GUESSES);
    assert_eq!(game.current_guess_number(), 1);
    assert!(game.secret().is_none());
}

#[test]
fn input_state_edits() {
    let mut input = InputState::new();
    for c in "HeLlo!x".chars() {
        input.push(c);
    }
    assert_eq!(input.as_str(), "hello");
    assert!(input.is_complete());
    input.pop();
    assert_eq!(input.as_str(), "hell");
    assert!(!input.is_complete());
    input.clear();
    assert_eq!(input.as_str(), "");
}
