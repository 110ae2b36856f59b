use soletra::game::{ActiveGame, Game, GuessResult, Word};
use soletra::language::Language;
use soletra::normalize::NormalizedString;
use soletra::progress::{pick_game_index, AppData, EmptyGameList, GAME_SEED};

fn plain_word(original: &str, is_pangram: bool) -> Word {
    Word {
        original: original.to_string(),
        normalized: NormalizedString(original.to_string()),
        is_pangram,
    }
}

fn puzzle_with(main: char) -> Game {
    Game {
        main_letter: main,
        secondary_letters: ['b', 'c', 'd', 'e', 'f', 'g'],
        words: vec![plain_word("bead", false), plain_word("abcdefg", true)],
    }
}

#[test]
fn pick_stays_in_range_and_is_repeatable() {
    assert_eq!(GAME_SEED, 42);
    assert_eq!(pick_game_index(0, 0), None);
    assert_eq!(pick_game_index(0, 5), None);
    assert_eq!(pick_game_index(1, 3), Some(0));
    for count in [2usize, 7, 100, 12345] {
        for played in 0..10 {
            let i = pick_game_index(count, played).unwrap();
            assert!(i < count);
            assert_eq!(pick_game_index(count, played), Some(i));
        }
    }
}

#[test]
fn new_progress_is_empty() {
    let d = AppData::new(Language::English);
    assert!(d.active_games.is_empty());
    assert_eq!(d.current_game, 0);
    assert_eq!(d.language, Language::English);
    assert!(!d.has_current_game());
    assert!(d.is_well_formed());
}

#[test]
fn start_game_adds_and_shows_a_puzzle() {
    let mut d = AppData::new(Language::Portuguese);
    assert_eq!(d.start_game(&Vec::new()), Err(EmptyGameList));
    assert!(d.active_games.is_empty());
    let games = vec![puzzle_with('a'), puzzle_with('z')];
    let first = d.start_game(&games).unwrap();
    assert!(first < 2);
    assert_eq!(d.active_games.len(), 1);
    assert_eq!(d.current_game, 0);
    assert_eq!(d.active_games[0].main_letter, games[first].main_letter);
    assert_eq!(d.active_games[0].total_points, 1 + 14);
    let second = d.start_game(&games).unwrap();
    assert!(second < 2);
    assert_eq!(d.active_games.len(), 2);
    assert_eq!(d.current_game, 1);
    assert!(d.has_current_game());
    assert!(d.is_well_formed());
}

#[test]
fn moving_between_puzzles_keeps_progress() {
    let mut d = AppData::new(Language::English);
    d.active_games.push(ActiveGame::from(puzzle_with('a')));
    d.active_games.push(ActiveGame::from(puzzle_with('a')));
    d.current_game = 0;
    assert_eq!(
        d.guess_current("bead"),
        GuessResult::Success { index: 0, points: 1, is_pangram: false, is_game_over: false }
    );
    d.active_games[0].words[0].has_effect = true;
    d.next_game();
    assert_eq!(d.current_game, 1);
    assert!(!d.active_games[0].words[0].has_effect);
    assert!(d.active_games[0].words[0].discovered);
    assert_eq!(d.active_games[0].points, 1);
    d.previous_game();
    assert_eq!(d.current_game, 0);
    assert_eq!(d.active_games[0].points, 1);
    // at the first puzzle, going back does nothing
    d.previous_game();
    assert_eq!(d.current_game, 0);
    // going forward from the last puzzle moves past it
    d.next_game();
    d.next_game();
    assert_eq!(d.current_game, 2);
    assert!(!d.has_current_game());
}

#[test]
fn letters_of_the_shown_puzzle() {
    let mut d = AppData::new(Language::English);
    d.active_games.push(ActiveGame::from(puzzle_with('a')));
    d.shuffle_current();
    let mut sorted = d.active_games[0].secondary_letters;
    sorted.sort();
    assert_eq!(sorted, ['b', 'c', 'd', 'e', 'f', 'g']);
    d.reset_shuffle_current();
    assert_eq!(d.active_games[0].secondary_letters, ['b', 'c', 'd', 'e', 'f', 'g']);
}

#[test]
fn well_formedness_of_loaded_progress() {
    let mut d = AppData::new(Language::English);
    d.active_games.push(ActiveGame::from(puzzle_with('a')));
    assert!(d.is_well_formed());
    d.active_games[0].points = 7;
    assert!(!d.is_well_formed());
}
