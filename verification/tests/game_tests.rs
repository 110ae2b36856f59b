use soletra::game::{ActiveGame, ActiveGameWord, BadGuess, Game, GuessResult, Word};
use soletra::normalize::NormalizedString;

fn word(original: &str, normalized: &str, is_pangram: bool) -> Word {
    Word {
        original: original.to_string(),
        normalized: NormalizedString(normalized.to_string()),
        is_pangram,
    }
}

fn sample_game() -> Game {
    Game {
        main_letter: 'a',
        secondary_letters: ['b', 'c', 'd', 'e', 'f', 'g'],
        words: vec![
            word("bead", "bead", false),
            word("cafe/Café", "cafe", false),
            word("faced", "faced", false),
            word("abcdefg", "abcdefg", true),
        ],
    }
}

#[test]
fn word_points_by_length_and_pangram() {
    assert_eq!(ActiveGameWord::from(word("bead", "bead", false)).points, 1);
    assert_eq!(ActiveGameWord::from(word("faced", "faced", false)).points, 5);
    assert_eq!(ActiveGameWord::from(word("abcdefg", "abcdefg", true)).points, 14);
    // length in bytes of the whole spelling list
    assert_eq!(ActiveGameWord::from(word("cafe/Café", "cafe", false)).points, 10);
    assert_eq!(ActiveGameWord::from(word("açaí", "açai", false)).points, 6);
    let w = ActiveGameWord::from(word("bead", "bead", false));
    assert!(!w.discovered);
    assert!(!w.has_effect);
}

#[test]
fn new_active_game_totals() {
    let g = ActiveGame::from(sample_game());
    assert_eq!(g.total_points, 1 + 10 + 5 + 14);
    assert_eq!(g.points, 0);
    assert_eq!(g.found_words, 0);
    assert_eq!(g.main_letter, 'a');
    assert_eq!(g.secondary_letters, ['b', 'c', 'd', 'e', 'f', 'g']);
    assert_eq!(g.original_secondary_letters, ['b', 'c', 'd', 'e', 'f', 'g']);
    assert_eq!(g.words.len(), 4);
    assert!(g.is_well_formed());
}

#[test]
fn guess_success_and_game_over() {
    let mut g = ActiveGame::from(sample_game());
    assert_eq!(
        g.guess(" FACED "),
        GuessResult::Success { index: 2, points: 5, is_pangram: false, is_game_over: false }
    );
    assert_eq!(g.points, 5);
    assert_eq!(g.found_words, 1);
    assert!(g.words[2].discovered);
    assert_eq!(
        g.guess("Café"),
        GuessResult::Success { index: 1, points: 10, is_pangram: false, is_game_over: false }
    );
    assert_eq!(
        g.guess("bead"),
        GuessResult::Success { index: 0, points: 1, is_pangram: false, is_game_over: false }
    );
    assert_eq!(
        g.guess("ABCDEFG"),
        GuessResult::Success { index: 3, points: 14, is_pangram: true, is_game_over: true }
    );
    assert_eq!(g.points, g.total_points);
    assert_eq!(g.found_words, 4);
    assert!(g.is_well_formed());
}

#[test]
fn guess_refusals() {
    let mut g = ActiveGame::from(sample_game());
    assert_eq!(g.guess("kale"), GuessResult::Failure(BadGuess::InvalidCharacters));
    assert_eq!(g.guess("bead!"), GuessResult::Failure(BadGuess::InvalidCharacters));
    // 'h' is a letter of the alphabet but not of the puzzle
    assert_eq!(g.guess("head"), GuessResult::Failure(BadGuess::InvalidCharacters));
    assert_eq!(g.guess("bad"), GuessResult::Failure(BadGuess::TooShort));
    assert_eq!(g.guess(""), GuessResult::Failure(BadGuess::TooShort));
    assert_eq!(g.guess("dead"), GuessResult::Failure(BadGuess::WordNotInGame));
    assert_eq!(g.points, 0);
    assert_eq!(g.guess("bead"), GuessResult::Success { index: 0, points: 1, is_pangram: false, is_game_over: false });
    assert_eq!(g.guess("BEAD"), GuessResult::Failure(BadGuess::AlreadyDiscovered));
    assert_eq!(g.points, 1);
    assert_eq!(g.found_words, 1);
}

#[test]
fn message_keys() {
    assert_eq!(BadGuess::InvalidCharacters.message_key(), "bad_guess.invalid_characters");
    assert_eq!(BadGuess::TooShort.message_key(), "bad_guess.too_short");
    assert_eq!(BadGuess::WordNotInGame.message_key(), "bad_guess.word_not_in_game");
    assert_eq!(BadGuess::AlreadyDiscovered.message_key(), "bad_guess.already_discovered");
    let found = GuessResult::Success { index: 0, points: 1, is_pangram: false, is_game_over: false };
    let pangram = GuessResult::Success { index: 0, points: 14, is_pangram: true, is_game_over: false };
    assert_eq!(found.message_key(), "good_guess");
    assert_eq!(pangram.message_key(), "good_guess_pangram");
    assert_eq!(GuessResult::Failure(BadGuess::TooShort).message_key(), "bad_guess.too_short");
}

#[test]
fn shuffle_keeps_the_letters() {
    let mut g = ActiveGame::from(sample_game());
    g.guess("bead");
    for _ in 0..20 {
        g.shuffle();
        let mut sorted = g.secondary_letters;
        sorted.sort();
        assert_eq!(sorted, ['b', 'c', 'd', 'e', 'f', 'g']);
        assert_eq!(g.original_secondary_letters, ['b', 'c', 'd', 'e', 'f', 'g']);
        assert_eq!(g.points, 1);
    }
    g.reset_shuffle();
    assert_eq!(g.secondary_letters, ['b', 'c', 'd', 'e', 'f', 'g']);
}

#[test]
fn display_order_does_not_change_scoring() {
    let mut g = ActiveGame::from(sample_game());
    g.secondary_letters = ['g', 'f', 'e', 'd', 'c', 'b'];
    assert_eq!(g.guess("faced"), GuessResult::Success { index: 2, points: 5, is_pangram: false, is_game_over: false });
}

#[test]
fn well_formedness_check() {
    let mut g = ActiveGame::from(sample_game());
    assert!(g.is_well_formed());
    g.points = 3;
    assert!(!g.is_well_formed());
    g.points = 0;
    g.total_points = 1;
    assert!(!g.is_well_formed());
    g.total_points = 30;
    g.found_words = 2;
    assert!(!g.is_well_formed());
}

#[test]
fn clear_effects_only_touches_animations() {
    let mut g = ActiveGame::from(sample_game());
    g.guess("bead");
    g.words[0].has_effect = true;
    g.words[3].has_effect = true;
    g.clear_effects();
    assert!(g.words.iter().all(|w| !w.has_effect));
    assert!(g.words[0].discovered);
    assert_eq!(g.points, 1);
}

#[test]
fn playable_and_copies() {
    let game = sample_game();
    assert!(game.is_playable());
    let copy = game.duplicate();
    assert_eq!(copy.main_letter, game.main_letter);
    assert_eq!(copy.secondary_letters, game.secondary_letters);
    assert_eq!(copy.words.len(), game.words.len());
    for (a, b) in copy.words.iter().zip(game.words.iter()) {
        assert_eq!(a.original, b.original);
        assert_eq!(a.normalized, b.normalized);
        assert_eq!(a.is_pangram, b.is_pangram);
    }
    let long = "x".repeat(40000);
    let too_many = Game {
        main_letter: 'a',
        secondary_letters: ['b', 'c', 'd', 'e', 'f', 'g'],
        words: vec![word(&long, "abcd", true)],
    };
    assert!(!too_many.is_playable());
    let big = "y".repeat(30000);
    let sum_too_big = Game {
        main_letter: 'a',
        secondary_letters: ['b', 'c', 'd', 'e', 'f', 'g'],
        words: vec![word(&big, "abcd", false), word(&big, "abce", false), word(&big, "abcf", false)],
    };
    assert!(!sum_too_big.is_playable());
}

#[test]
fn reset_after_many_shuffles_restores_the_puzzle() {
    let mut g = ActiveGame::from(sample_game());
    g.guess("bead");
    let points = g.points;
    for _ in 0..7 {
        g.shuffle();
    }
    g.reset_shuffle();
    assert_eq!(g.secondary_letters, g.original_secondary_letters);
    assert_eq!(g.secondary_letters, ['b', 'c', 'd', 'e', 'f', 'g']);
    assert_eq!(g.points, points);
    assert!(g.words[0].discovered);
}

#[test]
fn score_answers_without_scoring() {
    let g = ActiveGame::from(sample_game());
    assert_eq!(g.score("bead"), GuessResult::Success { index: 0, points: 1, is_pangram: false, is_game_over: false });
    assert_eq!(g.points, 0);
    assert!(!g.words[0].discovered);
    assert_eq!(g.score("bad"), GuessResult::Failure(BadGuess::TooShort));
}
