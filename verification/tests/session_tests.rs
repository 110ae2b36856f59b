use soletra::game::{Game, GuessResult, Word};
use soletra::language::Language;
use soletra::normalize::NormalizedString;
use soletra::progress::{AppData, EmptyGameList};
use soletra::session::{
    click_action, guess_columns, guess_rows, key_action, scroll_offset, submit_fits_check, Action, AppAreas,
    Area, Key, KeyInput, Page, Screen, Scroll, Session, COLUMN_STRIDE, SCROLL_STEP,
};

fn press(key: Key) -> KeyInput {
    KeyInput { key, control: false, press: true }
}

fn ctrl(c: char) -> KeyInput {
    KeyInput { key: Key::Char(c), control: true, press: true }
}

fn listed_word(original: &str, is_pangram: bool) -> Word {
    Word {
        original: original.to_string(),
        normalized: NormalizedString(original.to_string()),
        is_pangram,
    }
}

fn sample_puzzle() -> Game {
    Game {
        main_letter: 'a',
        secondary_letters: ['b', 'c', 'd', 'e', 'f', 'g'],
        words: vec![listed_word("bead", false), listed_word("faced", false), listed_word("abcdefg", true)],
    }
}

fn area(x: u16, y: u16) -> Area {
    Area { x, y, width: 5, height: 3 }
}

fn areas() -> AppAreas {
    AppAreas {
        button_left: area(0, 0),
        button_right: area(10, 0),
        button_main: area(5, 3),
        button_one: area(2, 0),
        button_two: area(0, 3),
        button_three: area(2, 6),
        button_four: area(8, 6),
        button_five: area(10, 3),
        button_six: area(8, 0),
        button_shuffle: area(20, 0),
        button_reset_shuffle: area(25, 0),
        button_backspace: area(30, 0),
        button_submit: area(35, 0),
    }
}

/// A session playing a started puzzle.
fn playing() -> Session {
    let mut s = Session::new(Language::English, Some(AppData::new(Language::English)));
    let plan = s.prepare_frame().unwrap();
    assert_eq!(plan.page, Page::Loading);
    assert!(plan.load_games);
    s.games_loaded(vec![sample_puzzle()]);
    let plan = s.prepare_frame().unwrap();
    assert_eq!(plan.page, Page::Game);
    assert_eq!(plan.started, Some(0));
    s
}

fn type_word(s: &mut Session, w: &str) {
    for c in w.chars() {
        s.handle_key(press(Key::Char(c)));
    }
}

#[test]
fn keys_on_the_game_screen() {
    let playing = Screen::Playing { has_game: true, input_len: 3 };
    assert_eq!(key_action(playing, ctrl('c')), Action::Quit);
    assert_eq!(key_action(playing, ctrl('l')), Action::LeaveGame);
    assert_eq!(key_action(playing, press(Key::Char('['))), Action::PreviousGame);
    assert_eq!(key_action(playing, press(Key::Char(']'))), Action::NextGame);
    assert_eq!(key_action(playing, press(Key::Char('x'))), Action::Type('x'));
    assert_eq!(key_action(playing, ctrl('x')), Action::Type('x'));
    assert_eq!(key_action(playing, press(Key::Backspace)), Action::Erase);
    assert_eq!(key_action(playing, press(Key::Enter)), Action::Submit);
    assert_eq!(key_action(playing, press(Key::Right)), Action::ScrollRight);
    assert_eq!(key_action(playing, press(Key::Left)), Action::ScrollLeft);
    assert_eq!(key_action(playing, press(Key::Other)), Action::Nothing);
    let released = KeyInput { key: Key::Char('c'), control: true, press: false };
    assert_eq!(key_action(playing, released), Action::Nothing);
    let full = Screen::Playing { has_game: true, input_len: 19 };
    assert_eq!(key_action(full, press(Key::Char('x'))), Action::Nothing);
    assert_eq!(key_action(full, press(Key::Char(']'))), Action::NextGame);
    let loading = Screen::Playing { has_game: false, input_len: 0 };
    assert_eq!(key_action(loading, press(Key::Char('x'))), Action::Nothing);
    assert_eq!(key_action(loading, press(Key::Enter)), Action::Nothing);
    assert_eq!(key_action(loading, press(Key::Backspace)), Action::Nothing);
    assert_eq!(key_action(loading, ctrl('c')), Action::Quit);
}

#[test]
fn keys_on_the_language_screen() {
    let screen = Screen::LanguageSelection;
    assert_eq!(key_action(screen, ctrl('c')), Action::Quit);
    assert_eq!(key_action(screen, press(Key::Left)), Action::PreviousLanguage);
    assert_eq!(key_action(screen, press(Key::Char('h'))), Action::PreviousLanguage);
    assert_eq!(key_action(screen, press(Key::Right)), Action::NextLanguage);
    assert_eq!(key_action(screen, press(Key::Char('l'))), Action::NextLanguage);
    assert_eq!(key_action(screen, ctrl('l')), Action::NextLanguage);
    assert_eq!(key_action(screen, press(Key::Enter)), Action::SelectLanguage);
    assert_eq!(key_action(screen, press(Key::Char('x'))), Action::Nothing);
    assert_eq!(key_action(screen, press(Key::Backspace)), Action::Nothing);
}

#[test]
fn clicks_on_buttons() {
    let a = areas();
    let playing = Screen::Playing { has_game: true, input_len: 0 };
    let shown = ['b', 'c', 'd', 'e', 'f', 'g'];
    assert_eq!(click_action(&a, 6, 4, playing, 'a', &shown), Action::Type('a'));
    assert_eq!(click_action(&a, 2, 0, playing, 'a', &shown), Action::Type('b'));
    assert_eq!(click_action(&a, 12, 5, playing, 'a', &shown), Action::Type('f'));
    assert_eq!(click_action(&a, 21, 1, playing, 'a', &shown), Action::Shuffle);
    assert_eq!(click_action(&a, 26, 1, playing, 'a', &shown), Action::ResetShuffle);
    assert_eq!(click_action(&a, 31, 1, playing, 'a', &shown), Action::Erase);
    assert_eq!(click_action(&a, 39, 2, playing, 'a', &shown), Action::Submit);
    // right and bottom edges are outside
    assert_eq!(click_action(&a, 40, 1, playing, 'a', &shown), Action::Nothing);
    assert_eq!(click_action(&a, 36, 3, playing, 'a', &shown), Action::Nothing);
    let full = Screen::Playing { has_game: true, input_len: 19 };
    assert_eq!(click_action(&a, 6, 4, full, 'a', &shown), Action::Nothing);
    assert_eq!(click_action(&a, 31, 1, full, 'a', &shown), Action::Erase);
    let lang = Screen::LanguageSelection;
    assert_eq!(click_action(&a, 1, 1, lang, 'a', &shown), Action::PreviousLanguage);
    assert_eq!(click_action(&a, 11, 1, lang, 'a', &shown), Action::NextLanguage);
    assert_eq!(click_action(&a, 21, 1, lang, 'a', &shown), Action::Nothing);
}

#[test]
fn area_containment_saturates() {
    let edge = Area { x: u16::MAX - 1, y: 0, width: 10, height: 1 };
    assert!(edge.contains(u16::MAX - 1, 0));
    assert!(!edge.contains(u16::MAX, 0));
    assert!(!Area::zero().contains(0, 0));
}

#[test]
fn layout_of_the_word_list() {
    assert_eq!(COLUMN_STRIDE, 23);
    assert_eq!(scroll_offset(0, 3), 0);
    assert_eq!(scroll_offset(2, 3), 0);
    assert_eq!(scroll_offset(3, 3), 22);
    assert_eq!(scroll_offset(7, 2), 68);
    assert_eq!(guess_rows(0), 1);
    assert_eq!(guess_rows(2), 1);
    assert_eq!(guess_rows(8), 2);
    assert_eq!(guess_rows(11), 3);
    assert_eq!(guess_rows(u16::MAX), 21844);
    assert_eq!(guess_columns(0, 3), 0);
    assert_eq!(guess_columns(6, 3), 2);
    assert_eq!(guess_columns(7, 3), 3);
    assert_eq!(guess_columns(usize::MAX, 1), usize::MAX);
    assert_eq!(guess_columns(usize::MAX, 2), usize::MAX / 2 + 1);
}

#[test]
fn choosing_a_language() {
    let mut s = Session::new(Language::Portuguese, None);
    assert_eq!(s.screen(), Screen::LanguageSelection);
    let e = s.handle_key(press(Key::Right));
    assert_eq!(s.selected_language, Language::English);
    assert_eq!(e.load_language, None);
    s.handle_key(press(Key::Left));
    assert_eq!(s.selected_language, Language::Portuguese);
    s.handle_key(press(Key::Char('l')));
    let e = s.handle_key(press(Key::Enter));
    assert_eq!(e.load_language, Some(Language::English));
    assert_eq!(s.prepare_frame().unwrap().page, Page::LanguageSelection);
    s.language_loaded(AppData::new(Language::English));
    assert_eq!(s.screen(), Screen::Playing { has_game: false, input_len: 0 });
    assert!(s.begin_loading_games());
    assert!(!s.begin_loading_games());
    let plan = s.prepare_frame().unwrap();
    assert_eq!(plan.page, Page::Loading);
    assert!(!plan.load_games);
}

#[test]
fn ctrl_c_quits_everywhere() {
    let mut s = Session::new(Language::Portuguese, None);
    s.handle_key(ctrl('c'));
    assert!(s.should_quit);
    let mut s = playing();
    s.handle_key(ctrl('c'));
    assert!(s.should_quit);
}

#[test]
fn typing_and_submitting() {
    let mut s = playing();
    type_word(&mut s, "bea");
    assert_eq!(s.input, vec!['b', 'e', 'a']);
    s.handle_key(press(Key::Backspace));
    assert_eq!(s.input, vec!['b', 'e']);
    type_word(&mut s, "ad");
    let e = s.handle_key(press(Key::Enter));
    assert_eq!(s.result, Some(GuessResult::Success { index: 0, points: 1, is_pangram: false, is_game_over: false }));
    assert!(s.input.is_empty());
    assert!(e.save);
    assert!(e.show_result);
    assert!(!e.game_over_soon);
    assert_eq!(e.scroll, Scroll::To(0));
    let data = s.data.as_ref().unwrap();
    assert_eq!(data.active_games[0].points, 1);
    // a refused guess is answered and not saved
    type_word(&mut s, "bead");
    let e = s.handle_key(press(Key::Enter));
    assert!(!e.save);
    assert!(e.show_result);
    assert_eq!(e.scroll, Scroll::Keep);
    assert!(matches!(s.result, Some(GuessResult::Failure(_))));
    type_word(&mut s, "faced");
    s.handle_key(press(Key::Enter));
    type_word(&mut s, "abcdefg");
    let e = s.handle_key(press(Key::Enter));
    assert!(e.game_over_soon);
    assert_eq!(s.result, Some(GuessResult::Success { index: 2, points: 14, is_pangram: true, is_game_over: true }));
}

#[test]
fn the_guess_stops_growing() {
    let mut s = playing();
    type_word(&mut s, "abcdefgabcdefgabcdefgabc");
    assert_eq!(s.input.len(), 19);
    s.handle_click(&areas(), 6, 4);
    assert_eq!(s.input.len(), 19);
    s.handle_click(&areas(), 31, 1);
    assert_eq!(s.input.len(), 18);
}

#[test]
fn scrolling_keys() {
    assert_eq!(SCROLL_STEP, 5);
    let mut s = playing();
    assert_eq!(s.handle_key(press(Key::Right)).scroll, Scroll::By(5));
    assert_eq!(s.handle_key(press(Key::Left)).scroll, Scroll::By(-5));
}

#[test]
fn clicking_letters_and_buttons() {
    let mut s = playing();
    let a = areas();
    s.handle_click(&a, 2, 0);
    s.handle_click(&a, 9, 7);
    s.handle_click(&a, 6, 4);
    s.handle_click(&a, 0, 4);
    assert_eq!(s.input, vec!['b', 'e', 'a', 'c']);
    s.handle_click(&a, 31, 1);
    assert_eq!(s.input, vec!['b', 'e', 'a']);
    s.handle_click(&a, 21, 1);
    let mut sorted = s.data.as_ref().unwrap().active_games[0].secondary_letters;
    sorted.sort();
    assert_eq!(sorted, ['b', 'c', 'd', 'e', 'f', 'g']);
    s.handle_click(&a, 26, 1);
    assert_eq!(s.data.as_ref().unwrap().active_games[0].secondary_letters, ['b', 'c', 'd', 'e', 'f', 'g']);
    s.handle_click(&a, 8, 0);
    let e = s.handle_click(&a, 36, 1);
    assert!(e.show_result);
    assert_eq!(s.result, Some(GuessResult::Failure(soletra::game::BadGuess::WordNotInGame)));
}

#[test]
fn moving_between_puzzles() {
    let mut s = playing();
    type_word(&mut s, "bea");
    let e = s.handle_key(press(Key::Char(']')));
    assert!(s.input.is_empty());
    assert!(e.save);
    assert!(e.reset_animations);
    assert!(e.close_overlays);
    assert_eq!(e.scroll, Scroll::Home);
    assert_eq!(s.data.as_ref().unwrap().current_game, 1);
    assert!(!s.allows(Action::NextGame));
    assert!(!s.allows(Action::PreviousGame));
    let plan = s.prepare_frame().unwrap();
    assert_eq!(plan.page, Page::Game);
    assert_eq!(plan.started, Some(0));
    assert_eq!(s.data.as_ref().unwrap().active_games.len(), 2);
    assert!(s.allows(Action::PreviousGame));
    let e = s.handle_key(press(Key::Char('[')));
    assert!(e.save);
    assert_eq!(s.data.as_ref().unwrap().current_game, 0);
    let e = s.handle_key(press(Key::Char('[')));
    assert!(!e.save);
    assert!(e.close_overlays);
    assert_eq!(s.data.as_ref().unwrap().current_game, 0);
}

#[test]
fn leaving_the_game() {
    let mut s = playing();
    s.handle_key(ctrl('l'));
    assert!(s.data.is_none());
    assert!(s.games.is_none());
    assert_eq!(s.screen(), Screen::LanguageSelection);
    assert_eq!(s.prepare_frame().unwrap().page, Page::LanguageSelection);
}

#[test]
fn no_puzzles_to_draw_from() {
    let mut s = Session::new(Language::English, Some(AppData::new(Language::English)));
    s.games_loaded(Vec::new());
    assert_eq!(s.prepare_frame().unwrap_err(), EmptyGameList);
}

#[test]
fn loading_events() {
    let mut s = Session::new(Language::English, None);
    s.downloading();
    assert!(s.downloading_files);
    s.words_retrieved();
    assert!(!s.downloading_files);
}

#[test]
fn submitting_checks_for_overflow() {
    let mut d = AppData::new(Language::English);
    d.start_game(&vec![sample_puzzle()]).unwrap();
    let g = &mut d.active_games[0];
    assert!(submit_fits_check(g, "bead", 1));
    assert!(submit_fits_check(g, "kiwi", 1));
    g.points = u16::MAX;
    assert!(!submit_fits_check(g, "bead", 1));
    // a refused guess never overflows
    assert!(submit_fits_check(g, "dead", 1));
    g.points = 0;
    g.found_words = usize::MAX;
    assert!(!submit_fits_check(g, "faced", 3));
}

#[test]
fn inconsistent_progress_is_still_played() {
    let mut d = AppData::new(Language::English);
    d.start_game(&vec![sample_puzzle()]).unwrap();
    d.active_games[0].found_words = 3;
    let mut s = Session::new(Language::English, Some(d));
    for c in "bead".chars() {
        s.handle_key(press(Key::Char(c)));
    }
    assert!(s.allows(Action::Submit));
    s.handle_key(press(Key::Enter));
    assert_eq!(s.data.as_ref().unwrap().active_games[0].found_words, 4);
    assert!(!s.data.as_ref().unwrap().active_games[0].is_well_formed());
}

#[test]
fn steps_refuse_what_cannot_be_done() {
    let mut s = Session::new(Language::English, Some(AppData::new(Language::English)));
    assert!(s.step(Action::NextGame).is_none());
    assert!(s.step(Action::Shuffle).is_none());
    let mut s = playing();
    assert!(s.step(Action::NextGame).is_some());
    assert!(s.step(Action::NextGame).is_none());
    assert_eq!(s.data.as_ref().unwrap().current_game, 1);
    let e = s.step(Action::Quit).unwrap();
    assert!(!e.save);
    assert!(s.should_quit);
}
