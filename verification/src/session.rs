//! The decisions of the interactive game: what a key or a click does on
//! each screen, moving between puzzles, and starting a new puzzle.

use vstd::prelude::*;
use crate::game::{ActiveGame, Game, GameState, GuessResult, guess_fits, guess_spec, lemma_success_index, playable};
use crate::generate::MAX_CHARACTERS;
use crate::language::{Language, other_language};
use crate::progress::{AppData, AppState, EmptyGameList, previous_game_spec, next_game_spec, start_game_spec};
use crate::text::string_of;

verus! {

/// A key as the game distinguishes keys.
#[derive(Debug, Clone, Copy, PartialEq, Eq, Structural)]
pub enum Key {
    Char(char),
    Backspace,
    Enter,
    Left,
    Right,
    Other,
}

/// A key event: the key, whether Control was held, and whether it is a
/// press (rather than a release or a repeat).
#[derive(Debug, Clone, Copy, PartialEq, Eq, Structural)]
pub struct KeyInput {
    pub key: Key,
    pub control: bool,
    pub press: bool,
}

/// The screen the game shows.
#[derive(Debug, Clone, Copy, PartialEq, Eq, Structural)]
pub enum Screen {
    /// Choosing the language.
    LanguageSelection,
    /// Playing: whether the current puzzle exists yet, and how many
    /// characters the guess being typed has.
    Playing { has_game: bool, input_len: usize },
}

/// What an input asks the game to do.
#[derive(Debug, Clone, Copy, PartialEq, Eq, Structural)]
pub enum Action {
    Nothing,
    Quit,
    LeaveGame,
    PreviousGame,
    NextGame,
    Type(char),
    Erase,
    Submit,
    ScrollRight,
    ScrollLeft,
    PreviousLanguage,
    NextLanguage,
    SelectLanguage,
    Shuffle,
    ResetShuffle,
}

/// What a key does on a screen.
pub open spec fn key_action_spec(screen: Screen, input: KeyInput) -> Action {
    if !input.press {
        Action::Nothing
    } else {
        match screen {
            Screen::Playing { has_game, input_len } => match input.key {
                Key::Char(c) => if c == 'c' && input.control {
                    Action::Quit
                } else if c == 'l' && input.control {
                    Action::LeaveGame
                } else if c == '[' {
                    Action::PreviousGame
                } else if c == ']' {
                    Action::NextGame
                } else if has_game && input_len < MAX_CHARACTERS {
                    Action::Type(c)
                } else {
                    Action::Nothing
                },
                Key::Backspace => if has_game { Action::Erase } else { Action::Nothing },
                Key::Enter => if has_game { Action::Submit } else { Action::Nothing },
                Key::Right => Action::ScrollRight,
                Key::Left => Action::ScrollLeft,
                Key::Other => Action::Nothing,
            },
            Screen::LanguageSelection => match input.key {
                Key::Char(c) => if c == 'c' && input.control {
                    Action::Quit
                } else if c == 'h' {
                    Action::PreviousLanguage
                } else if c == 'l' {
                    Action::NextLanguage
                } else {
                    Action::Nothing
                },
                Key::Left => Action::PreviousLanguage,
                Key::Right => Action::NextLanguage,
                Key::Enter => Action::SelectLanguage,
                _ => Action::Nothing,
            },
        }
    }
}

/// What a key does on a screen.
pub fn key_action(screen: Screen, input: KeyInput) -> (r: Action)
    ensures
        r == key_action_spec(screen, input),
{
    if !input.press {
        return Action::Nothing;
    }
    match screen {
        Screen::Playing { has_game, input_len } => match input.key {
            Key::Char(c) => if c == 'c' && input.control {
                Action::Quit
            } else if c == 'l' && input.control {
                Action::LeaveGame
            } else if c == '[' {
                Action::PreviousGame
            } else if c == ']' {
                Action::NextGame
            } else if has_game && input_len < MAX_CHARACTERS {
                Action::Type(c)
            } else {
                Action::Nothing
            },
            Key::Backspace => if has_game { Action::Erase } else { Action::Nothing },
            Key::Enter => if has_game { Action::Submit } else { Action::Nothing },
            Key::Right => Action::ScrollRight,
            Key::Left => Action::ScrollLeft,
            Key::Other => Action::Nothing,
        },
        Screen::LanguageSelection => match input.key {
            Key::Char(c) => if c == 'c' && input.control {
                Action::Quit
            } else if c == 'h' {
                Action::PreviousLanguage
            } else if c == 'l' {
                Action::NextLanguage
            } else {
                Action::Nothing
            },
            Key::Left => Action::PreviousLanguage,
            Key::Right => Action::NextLanguage,
            Key::Enter => Action::SelectLanguage,
            _ => Action::Nothing,
        },
    }
}

/// A rectangle of the terminal.
#[derive(Debug, Clone, Copy, PartialEq, Eq, Structural)]
pub struct Area {
    pub x: u16,
    pub y: u16,
    pub width: u16,
    pub height: u16,
}

/// `a + b`, or `u16::MAX` when that does not fit.
pub open spec fn saturating_add_u16(a: u16, b: u16) -> int {
    if a + b > u16::MAX { u16::MAX as int } else { a + b }
}

impl Area {
    /// The rectangle of no size at the origin.
    pub fn zero() -> (r: Area)
        ensures
            r == (Area { x: 0, y: 0, width: 0, height: 0 }),
    {
        Area { x: 0, y: 0, width: 0, height: 0 }
    }

    /// The position lies in the rectangle (its right and bottom edges
    /// saturate at `u16::MAX`, as in ratatui).
    pub open spec fn contains_spec(self, column: u16, row: u16) -> bool {
        &&& self.x <= column
        &&& column < saturating_add_u16(self.x, self.width)
        &&& self.y <= row
        &&& row < saturating_add_u16(self.y, self.height)
    }

    /// Whether the position lies in the rectangle.
    pub fn contains(&self, column: u16, row: u16) -> (r: bool)
        ensures
            r == self.contains_spec(column, row),
    {
        let right: u16 = self.x.saturating_add(self.width);
        let bottom: u16 = self.y.saturating_add(self.height);
        self.x <= column && column < right && self.y <= row && row < bottom
    }
}

/// Where the buttons of the screens are.
#[derive(Debug, Clone, Copy, PartialEq, Eq, Structural)]
pub struct AppAreas {
    pub button_left: Area,
    pub button_right: Area,
    pub button_main: Area,
    pub button_one: Area,
    pub button_two: Area,
    pub button_three: Area,
    pub button_four: Area,
    pub button_five: Area,
    pub button_six: Area,
    pub button_shuffle: Area,
    pub button_reset_shuffle: Area,
    pub button_backspace: Area,
    pub button_submit: Area,
}

/// What a left click at a position does. On the puzzle, the letter
/// buttons type their letter (as shown) while the guess is shorter than
/// `MAX_CHARACTERS`; the other buttons shuffle, restore the order, erase
/// or submit. On the language screen the arrows change the language.
pub open spec fn click_action_spec(
    areas: AppAreas,
    column: u16,
    row: u16,
    screen: Screen,
    main_letter: char,
    shown: Seq<char>,
) -> Action {
    match screen {
        Screen::Playing { has_game, input_len } => if !has_game {
            Action::Nothing
        } else {
            let room = input_len < MAX_CHARACTERS;
            if room && areas.button_main.contains_spec(column, row) {
                Action::Type(main_letter)
            } else if room && areas.button_one.contains_spec(column, row) {
                Action::Type(shown[0])
            } else if room && areas.button_two.contains_spec(column, row) {
                Action::Type(shown[1])
            } else if room && areas.button_three.contains_spec(column, row) {
                Action::Type(shown[2])
            } else if room && areas.button_four.contains_spec(column, row) {
                Action::Type(shown[3])
            } else if room && areas.button_five.contains_spec(column, row) {
                Action::Type(shown[4])
            } else if room && areas.button_six.contains_spec(column, row) {
                Action::Type(shown[5])
            } else if areas.button_shuffle.contains_spec(column, row) {
                Action::Shuffle
            } else if areas.button_reset_shuffle.contains_spec(column, row) {
                Action::ResetShuffle
            } else if areas.button_backspace.contains_spec(column, row) {
                Action::Erase
            } else if areas.button_submit.contains_spec(column, row) {
                Action::Submit
            } else {
                Action::Nothing
            }
        },
        Screen::LanguageSelection => if areas.button_left.contains_spec(column, row) {
            Action::PreviousLanguage
        } else if areas.button_right.contains_spec(column, row) {
            Action::NextLanguage
        } else {
            Action::Nothing
        },
    }
}

/// What a left click at a position does: see `click_action_spec`.
pub fn click_action(
    areas: &AppAreas,
    column: u16,
    row: u16,
    screen: Screen,
    main_letter: char,
    shown: &[char; 6],
) -> (r: Action)
    ensures
        r == click_action_spec(*areas, column, row, screen, main_letter, shown@),
{
    match screen {
        Screen::Playing { has_game, input_len } => if !has_game {
            Action::Nothing
        } else {
            let room = input_len < MAX_CHARACTERS;
            if room && areas.button_main.contains(column, row) {
                Action::Type(main_letter)
            } else if room && areas.button_one.contains(column, row) {
                Action::Type(shown[0])
            } else if room && areas.button_two.contains(column, row) {
                Action::Type(shown[1])
            } else if room && areas.button_three.contains(column, row) {
                Action::Type(shown[2])
            } else if room && areas.button_four.contains(column, row) {
                Action::Type(shown[3])
            } else if room && areas.button_five.contains(column, row) {
                Action::Type(shown[4])
            } else if room && areas.button_six.contains(column, row) {
                Action::Type(shown[5])
            } else if areas.button_shuffle.contains(column, row) {
                Action::Shuffle
            } else if areas.button_reset_shuffle.contains(column, row) {
                Action::ResetShuffle
            } else if areas.button_backspace.contains(column, row) {
                Action::Erase
            } else if areas.button_submit.contains(column, row) {
                Action::Submit
            } else {
                Action::Nothing
            }
        },
        Screen::LanguageSelection => if areas.button_left.contains(column, row) {
            Action::PreviousLanguage
        } else if areas.button_right.contains(column, row) {
            Action::NextLanguage
        } else {
            Action::Nothing
        },
    }
}

/// Width of a column of the list of words, with the gap after it.
pub const COLUMN_STRIDE: usize = 23;

/// How far the list of words scrolls to show the word at `index` when it
/// is laid out in columns of `rows` words: to the start of its column,
/// less one (at least zero), as a `u16` (truncating).
pub open spec fn scroll_offset_spec(index: usize, rows: usize) -> u16 {
    let x = (index / rows) * COLUMN_STRIDE;
    (if x >= 1 { x - 1 } else { 0 }) as u16
}

/// How far the list of words scrolls to show the word at `index`.
pub fn scroll_offset(index: usize, rows: usize) -> (r: u16)
    requires
        rows > 0,
        (index / rows) * COLUMN_STRIDE <= usize::MAX,
    ensures
        r == scroll_offset_spec(index, rows),
{
    let x: usize = (index / rows) * COLUMN_STRIDE;
    let y: usize = x.saturating_sub(1);
    #[verifier::truncate] (y as u16)
}

/// How many words fit in a column of the list in a region of `height`
/// rows: each word takes three rows, two rows are kept free, and there is
/// always at least one word per column.
pub open spec fn guess_rows_spec(height: u16) -> usize {
    let free: int = if height >= 2 { height - 2 } else { 0 };
    if free / 3 > 1 { (free / 3) as usize } else { 1 }
}

/// How many words fit in a column of the list.
pub fn guess_rows(height: u16) -> (r: usize)
    ensures
        r == guess_rows_spec(height),
        r >= 1,
{
    let free: u16 = height.saturating_sub(2);
    let per: usize = (free / 3) as usize;
    if per > 1 { per } else { 1 }
}

/// How many columns `count` words take, `rows` to a column.
pub fn guess_columns(count: usize, rows: usize) -> (r: usize)
    requires
        rows > 0,
    ensures
        r as int == (count as int + rows as int - 1) / (rows as int),
{
    let q: usize = count / rows;
    if count % rows == 0 {
        proof {
            vstd::arithmetic::div_mod::lemma_fundamental_div_mod(count as int, rows as int);
            lemma_div_ceil(count as int, rows as int, q as int, 0);
        }
        q
    } else {
        proof {
            vstd::arithmetic::div_mod::lemma_fundamental_div_mod(count as int, rows as int);
            lemma_div_ceil(count as int, rows as int, q as int, (count % rows) as int);
            assert(q as int <= (q as int) * (rows as int)) by (nonlinear_arith)
                requires
                    rows >= 1,
                    q >= 0,
            ;
        }
        q + 1
    }
}

proof fn lemma_div_ceil(count: int, rows: int, q: int, r: int)
    requires
        rows > 0,
        0 <= r < rows,
        count == q * rows + r,
    ensures
        (count + rows - 1) / rows == if r == 0 { q } else { q + 1 },
{
    if r == 0 {
        vstd::arithmetic::div_mod::lemma_fundamental_div_mod_converse(count + rows - 1, rows, q, rows - 1);
    } else {
        assert((q + 1) * rows == q * rows + rows) by (nonlinear_arith);
        vstd::arithmetic::div_mod::lemma_fundamental_div_mod_converse(count + rows - 1, rows, q + 1, r - 1);
    }
}


/// How far the arrow keys scroll the list of words, in columns.
pub const SCROLL_STEP: i32 = 5;

/// How the list of words is to scroll.
#[derive(Debug, Clone, Copy, PartialEq, Eq, Structural)]
pub enum Scroll {
    Keep,
    /// Back to the start.
    Home,
    /// To this column.
    To(u16),
    /// By this many columns (to the left when negative).
    By(i32),
}

/// What is left to do around the session after a step: scrolling,
/// closing the message overlays (and forgetting a pending end-of-puzzle
/// message), restarting the animations, saving the progress, showing the
/// answer to a guess, showing the end of the puzzle shortly, and loading
/// the progress of a language.
#[derive(Debug, Clone, Copy)]
pub struct Effects {
    pub scroll: Scroll,
    pub close_overlays: bool,
    pub reset_animations: bool,
    pub save: bool,
    pub show_result: bool,
    pub game_over_soon: bool,
    pub load_language: Option<Language>,
}

/// Nothing to do.
pub open spec fn no_effects() -> Effects {
    Effects {
        scroll: Scroll::Keep,
        close_overlays: false,
        reset_animations: false,
        save: false,
        show_result: false,
        game_over_soon: false,
        load_language: None,
    }
}

impl Effects {
    /// Nothing to do.
    pub fn none() -> (r: Effects)
        ensures
            r == no_effects(),
    {
        Effects {
            scroll: Scroll::Keep,
            close_overlays: false,
            reset_animations: false,
            save: false,
            show_result: false,
            game_over_soon: false,
            load_language: None,
        }
    }
}

/// Submitting a guess on a puzzle can be done without overflow: scoring
/// it fits its counts (see `guess_fits`), and the scroll position of a
/// found word, laid out `rows` to a column, fits in a `usize`.
pub open spec fn submit_fits(g: GameState, guess: Seq<char>, rows: usize) -> bool {
    &&& guess_fits(g, guess)
    &&& guess_spec(g, guess).1 matches GuessResult::Success { index, .. } ==> (index / rows) * COLUMN_STRIDE
        <= usize::MAX
}

/// The state of the game around the puzzles: the progress of the chosen
/// language (none while the language is being chosen), the puzzles to
/// draw from (once loaded), the language under the cursor of the
/// selection, the guess being typed, how many words fit in a column of
/// the list, whether to quit, whether word lists are being downloaded or
/// puzzles loaded, and the answer to the last guess.
#[derive(Debug)]
pub struct Session {
    pub data: Option<AppData>,
    pub games: Option<Vec<Game>>,
    pub selected_language: Language,
    pub input: Vec<char>,
    pub rows: usize,
    pub should_quit: bool,
    pub downloading_files: bool,
    pub loading_games: bool,
    pub result: Option<GuessResult>,
}

/// What a session holds, with the progress and the guess by their views.
pub struct SessionState {
    pub data: Option<AppState>,
    pub games: Option<Seq<Game>>,
    pub selected_language: Language,
    pub input: Seq<char>,
    pub rows: usize,
    pub should_quit: bool,
    pub downloading_files: bool,
    pub loading_games: bool,
    pub result: Option<GuessResult>,
}

impl View for Session {
    type V = SessionState;

    open spec fn view(&self) -> SessionState {
        SessionState {
            data: match self.data {
                Some(d) => Some(d@),
                None => None,
            },
            games: match self.games {
                Some(gs) => Some(gs@),
                None => None,
            },
            selected_language: self.selected_language,
            input: self.input@,
            rows: self.rows,
            should_quit: self.should_quit,
            downloading_files: self.downloading_files,
            loading_games: self.loading_games,
            result: self.result,
        }
    }
}

impl SessionState {
    /// At least one word per column, and every puzzle to draw from can be
    /// played.
    pub open spec fn wf(self) -> bool {
        &&& self.rows > 0
        &&& self.games matches Some(gs) ==> forall|i: int| 0 <= i < gs.len() ==> playable(#[trigger] gs[i])
    }
}

/// The screen of a session: choosing the language while there is no
/// progress, else playing.
pub open spec fn screen_of(s: SessionState) -> Screen {
    match s.data {
        None => Screen::LanguageSelection,
        Some(d) => Screen::Playing { has_game: d.has_current(), input_len: s.input.len() as usize },
    }
}

/// The letters shown when no puzzle is.
pub open spec fn blank_letters() -> Seq<char> {
    seq![' ', ' ', ' ', ' ', ' ', ' ']
}

/// What a left click does in a session: on a shown puzzle, see
/// `click_action_spec` with its letters as displayed; nothing while the
/// puzzle to show is not started; on the language screen, the arrows.
pub open spec fn click_of(s: SessionState, areas: AppAreas, column: u16, row: u16) -> Action {
    match s.data {
        Some(d) => if d.has_current() {
            let g = d.games[d.current_game as int];
            click_action_spec(areas, column, row, screen_of(s), g.main_letter, g.secondary_letters)
        } else {
            Action::Nothing
        },
        None => click_action_spec(areas, column, row, screen_of(s), ' ', blank_letters()),
    }
}

/// The actions that can be taken in a state: moving forward needs a
/// shown puzzle, moving back from a later position too, shuffling needs a
/// shown puzzle, and submitting must not overflow (see `submit_fits`).
pub open spec fn allowed(s: SessionState, a: Action) -> bool {
    match a {
        Action::NextGame => s.data matches Some(d) ==> d.has_current(),
        Action::PreviousGame => s.data matches Some(d) ==> (d.current_game > 0 ==> d.has_current()),
        Action::Shuffle => s.data matches Some(d) && d.has_current(),
        Action::Submit => match s.data {
            Some(d) => d.has_current() ==> submit_fits(d.games[d.current_game as int], s.input, s.rows),
            None => true,
        },
        _ => true,
    }
}

/// What an action does, other than shuffling (which is random): see the
/// comments at each action.
pub open spec fn apply_spec(s: SessionState, a: Action) -> (SessionState, Effects) {
    match a {
        Action::Quit => (SessionState { should_quit: true, ..s }, no_effects()),
        // back to choosing the language, forgetting the loaded puzzles
        Action::LeaveGame => (SessionState { games: None, data: None, ..s }, no_effects()),
        // the guess and the answer are dropped; the view resets, and when
        // the position moved the animations restart and the progress is saved
        Action::PreviousGame => match s.data {
            Some(d) => (
                SessionState { data: Some(previous_game_spec(d)), input: Seq::empty(), result: None, ..s },
                Effects {
                    scroll: Scroll::Home,
                    close_overlays: true,
                    reset_animations: d.current_game > 0,
                    save: d.current_game > 0,
                    ..no_effects()
                },
            ),
            None => (s, no_effects()),
        },
        Action::NextGame => match s.data {
            Some(d) => (
                SessionState { data: Some(next_game_spec(d)), input: Seq::empty(), result: None, ..s },
                Effects { scroll: Scroll::Home, close_overlays: true, reset_animations: true, save: true, ..no_effects() },
            ),
            None => (s, no_effects()),
        },
        Action::Type(c) => (SessionState { input: s.input.push(c), ..s }, no_effects()),
        Action::Erase => (
            SessionState { input: if s.input.len() > 0 { s.input.drop_last() } else { s.input }, ..s },
            no_effects(),
        ),
        // the guess is scored on the shown puzzle and then cleared; a
        // found word is scrolled to and the progress saved
        Action::Submit => match s.data {
            Some(d) => if d.has_current() {
                let k = d.current_game as int;
                let scored = guess_spec(d.games[k], s.input);
                (
                    SessionState {
                        data: Some(AppState { games: d.games.update(k, scored.0), ..d }),
                        input: Seq::empty(),
                        result: Some(scored.1),
                        ..s
                    },
                    match scored.1 {
                        GuessResult::Success { index, is_game_over, .. } => Effects {
                            scroll: Scroll::To(scroll_offset_spec(index, s.rows)),
                            save: true,
                            show_result: true,
                            game_over_soon: is_game_over,
                            ..no_effects()
                        },
                        GuessResult::Failure(_) => Effects { show_result: true, ..no_effects() },
                    },
                )
            } else {
                (s, no_effects())
            },
            None => (s, no_effects()),
        },
        Action::ScrollRight => (s, Effects { scroll: Scroll::By(SCROLL_STEP), ..no_effects() }),
        Action::ScrollLeft => (s, Effects { scroll: Scroll::By((-SCROLL_STEP) as i32), ..no_effects() }),
        Action::PreviousLanguage => (
            SessionState { selected_language: other_language(s.selected_language), ..s },
            no_effects(),
        ),
        Action::NextLanguage => (
            SessionState { selected_language: other_language(s.selected_language), ..s },
            no_effects(),
        ),
        // the progress of the language under the cursor is to be loaded,
        // unless it is the one already loaded
        Action::SelectLanguage => if (match s.data {
            Some(d) => d.language != s.selected_language,
            None => true,
        }) {
            (s, Effects { load_language: Some(s.selected_language), ..no_effects() })
        } else {
            (s, no_effects())
        },
        Action::ResetShuffle => match s.data {
            Some(d) => if d.has_current() {
                let k = d.current_game as int;
                (
                    SessionState {
                        data: Some(AppState {
                            games: d.games.update(
                                k,
                                GameState { secondary_letters: d.games[k].original_secondary_letters, ..d.games[k] },
                            ),
                            ..d
                        }),
                        ..s
                    },
                    no_effects(),
                )
            } else {
                (s, no_effects())
            },
            None => (s, no_effects()),
        },
        Action::Nothing => (s, no_effects()),
        Action::Shuffle => (s, no_effects()),
    }
}

/// `t` is `s` with the letters of the shown puzzle put in another order.
pub open spec fn shuffled(s: SessionState, t: SessionState) -> bool {
    &&& s.data matches Some(d)
    &&& t.data matches Some(e)
    &&& d.has_current()
    &&& e == AppState {
        games: d.games.update(
            d.current_game as int,
            GameState {
                secondary_letters: e.games[d.current_game as int].secondary_letters,
                ..d.games[d.current_game as int]
            },
        ),
        ..d
    }
    &&& e.games[d.current_game as int].secondary_letters.to_multiset()
        == d.games[d.current_game as int].secondary_letters.to_multiset()
    &&& t == SessionState { data: t.data, ..s }
}

/// What a frame shows.
#[derive(Debug, Clone, Copy, PartialEq, Eq, Structural)]
pub enum Page {
    LanguageSelection,
    Loading,
    Game,
}

/// What to draw, the position of the puzzle started for it (the progress
/// is then to be saved), and whether puzzles are to be loaded.
#[derive(Debug, Clone, Copy)]
pub struct FramePlan {
    pub page: Page,
    pub started: Option<usize>,
    pub load_games: bool,
}

/// A frame starts a puzzle: the shown position is past the started
/// puzzles and puzzles are loaded to draw from.
pub open spec fn starts_game(s: SessionState) -> bool {
    &&& s.data matches Some(d)
    &&& !d.has_current()
    &&& s.games is Some
}

/// What preparing a frame does, given the position drawn when a puzzle is
/// started: without progress, the language screen; with a shown puzzle,
/// that puzzle; past the started puzzles, the drawn puzzle is started and
/// shown, or, while no puzzles are loaded, loading is shown and begins
/// unless it already has.
pub open spec fn frame_spec(s: SessionState, started: Option<usize>) -> (SessionState, FramePlan) {
    match s.data {
        None => (s, FramePlan { page: Page::LanguageSelection, started: None, load_games: false }),
        Some(d) => if d.has_current() {
            (s, FramePlan { page: Page::Game, started: None, load_games: false })
        } else {
            match s.games {
                Some(gs) => match started {
                    Some(i) => (
                        SessionState { data: Some(start_game_spec(d, gs[i as int])), ..s },
                        FramePlan { page: Page::Game, started: Some(i), load_games: false },
                    ),
                    None => (s, FramePlan { page: Page::Game, started: None, load_games: false }),
                },
                None => (
                    SessionState { loading_games: true, ..s },
                    FramePlan { page: Page::Loading, started: None, load_games: !s.loading_games },
                ),
            }
        },
    }
}

/// Whether submitting `guess` on `g` can be done without overflow: see
/// `submit_fits`.
pub fn submit_fits_check(g: &ActiveGame, guess: &str, rows: usize) -> (r: bool)
    requires
        rows > 0,
    ensures
        r == submit_fits(g@, guess@, rows),
{
    let _word_count: usize = g.words.len();
    match g.score(guess) {
        GuessResult::Success { index, points, .. } => {
            proof {
                lemma_success_index(g@, guess@);
                assert(g@.words[index as int] == g.words@[index as int]@);
            }
            let fits_points = (g.points as u32) + (points as u32) <= 65535;
            let fits_count = g.found_words < usize::MAX;
            let column: usize = index / rows;
            let fits_scroll = column <= usize::MAX / COLUMN_STRIDE;
            proof {
                lemma_mul_fits(column as int);
            }
            fits_points && fits_count && fits_scroll
        },
        GuessResult::Failure(_) => true,
    }
}

proof fn lemma_mul_fits(x: int)
    requires
        x >= 0,
    ensures
        x * COLUMN_STRIDE <= usize::MAX <==> x <= usize::MAX / COLUMN_STRIDE,
{
    assert(x * 23 <= usize::MAX <==> x <= usize::MAX / 23) by (nonlinear_arith)
        requires
            x >= 0,
    ;
}

impl Session {
    /// A session as the program starts it: with the saved language and
    /// its progress when there are, else choosing the language.
    pub fn new(selected_language: Language, data: Option<AppData>) -> (r: Session)
        ensures
            r@ == (SessionState {
                data: match data {
                    Some(d) => Some(d@),
                    None => None,
                },
                games: None,
                selected_language,
                input: Seq::empty(),
                rows: 1,
                should_quit: false,
                downloading_files: false,
                loading_games: false,
                result: None,
            }),
            r@.wf(),
    {
        let r = Session {
            data,
            games: None,
            selected_language,
            input: Vec::new(),
            rows: 1,
            should_quit: false,
            downloading_files: false,
            loading_games: false,
            result: None,
        };
        assert(r@.input =~= Seq::<char>::empty());
        r
    }

    /// The screen shown: see `screen_of`.
    pub fn screen(&self) -> (r: Screen)
        ensures
            r == screen_of(self@),
    {
        match &self.data {
            None => Screen::LanguageSelection,
            Some(d) => Screen::Playing { has_game: d.has_current_game(), input_len: self.input.len() },
        }
    }

    /// Whether an action can be taken: see `allowed`.
    pub fn allows(&self, action: Action) -> (r: bool)
        requires
            self@.wf(),
        ensures
            r == allowed(self@, action),
    {
        match action {
            Action::Submit => match &self.data {
                Some(d) => if d.has_current_game() {
                    let g = &d.active_games[d.current_game];
                    assert(self@.data->0.games[d.current_game as int] == g@);
                    let guess = string_of(&self.input);
                    submit_fits_check(g, guess.as_str(), self.rows)
                } else {
                    true
                },
                None => true,
            },
            Action::NextGame => match &self.data {
                Some(d) => d.has_current_game(),
                None => true,
            },
            Action::PreviousGame => match &self.data {
                Some(d) => d.current_game == 0 || d.has_current_game(),
                None => true,
            },
            Action::Shuffle => match &self.data {
                Some(d) => d.has_current_game(),
                None => false,
            },
            _ => true,
        }
    }

    /// Takes an action: see `apply_spec`; shuffling puts the letters of
    /// the shown puzzle in a random order.
    pub fn apply(&mut self, action: Action) -> (r: Effects)
        requires
            old(self)@.wf(),
            allowed(old(self)@, action),
        ensures
            action != Action::Shuffle ==> (final(self)@, r) == apply_spec(old(self)@, action),
            action == Action::Shuffle ==> shuffled(old(self)@, final(self)@) && r == no_effects(),
            final(self)@.wf(),
    {
        let none = Effects::none();
        match action {
            Action::Quit => {
                self.should_quit = true;
                none
            },
            Action::LeaveGame => {
                self.games = None;
                self.data = None;
                none
            },
            Action::PreviousGame => self.go_back(),
            Action::NextGame => self.go_forward(),
            Action::Type(c) => {
                self.input.push(c);
                none
            },
            Action::Erase => {
                if self.input.len() > 0 {
                    let _erased = self.input.pop();
                }
                none
            },
            Action::Submit => self.submit(),
            Action::ScrollRight => Effects { scroll: Scroll::By(SCROLL_STEP), ..none },
            Action::ScrollLeft => Effects { scroll: Scroll::By(-SCROLL_STEP), ..none },
            Action::PreviousLanguage => {
                self.selected_language = self.selected_language.previous();
                none
            },
            Action::NextLanguage => {
                self.selected_language = self.selected_language.next();
                none
            },
            Action::SelectLanguage => {
                let language = self.selected_language;
                let load = match &self.data {
                    Some(d) => d.language != language,
                    None => true,
                };
                if load {
                    Effects { load_language: Some(language), ..none }
                } else {
                    none
                }
            },
            Action::Shuffle => {
                self.shuffle_letters();
                none
            },
            Action::ResetShuffle => {
                self.reset_letters();
                none
            },
            Action::Nothing => none,
        }
    }

    fn go_back(&mut self) -> (r: Effects)
        requires
            old(self)@.wf(),
            allowed(old(self)@, Action::PreviousGame),
        ensures
            (final(self)@, r) == apply_spec(old(self)@, Action::PreviousGame),
            final(self)@.wf(),
    {
        let none = Effects::none();
        let mut data = match self.data.take() {
            Some(d) => d,
            None => {
                return none;
            },
        };
        let moved = data.current_game > 0;
        data.previous_game();
        self.data = Some(data);
        self.input = Vec::new();
        self.result = None;
        assert(self@.input =~= Seq::<char>::empty());
        Effects { scroll: Scroll::Home, close_overlays: true, reset_animations: moved, save: moved, ..none }
    }

    fn go_forward(&mut self) -> (r: Effects)
        requires
            old(self)@.wf(),
            allowed(old(self)@, Action::NextGame),
        ensures
            (final(self)@, r) == apply_spec(old(self)@, Action::NextGame),
            final(self)@.wf(),
    {
        let none = Effects::none();
        let mut data = match self.data.take() {
            Some(d) => d,
            None => {
                return none;
            },
        };
        data.next_game();
        self.data = Some(data);
        self.input = Vec::new();
        self.result = None;
        assert(self@.input =~= Seq::<char>::empty());
        Effects { scroll: Scroll::Home, close_overlays: true, reset_animations: true, save: true, ..none }
    }

    fn submit(&mut self) -> (r: Effects)
        requires
            old(self)@.wf(),
            allowed(old(self)@, Action::Submit),
        ensures
            (final(self)@, r) == apply_spec(old(self)@, Action::Submit),
            final(self)@.wf(),
    {
        let none = Effects::none();
        let rows: usize = self.rows;
        let guess = string_of(&self.input);
        let mut data = match self.data.take() {
            Some(d) => d,
            None => {
                return none;
            },
        };
        if !data.has_current_game() {
            self.data = Some(data);
            return none;
        }
        let ghost d = data@;
        let ghost k = d.current_game as int;
        let result = data.guess_current(guess.as_str());
        self.data = Some(data);
        self.input = Vec::new();
        self.result = Some(result);
        assert(self@.input =~= Seq::<char>::empty());
        match result {
            GuessResult::Success { index, is_game_over, .. } => {
                Effects {
                    scroll: Scroll::To(scroll_offset(index, rows)),
                    save: true,
                    show_result: true,
                    game_over_soon: is_game_over,
                    ..none
                }
            },
            GuessResult::Failure(_) => Effects { show_result: true, ..none },
        }
    }

    fn shuffle_letters(&mut self)
        requires
            old(self)@.wf(),
            allowed(old(self)@, Action::Shuffle),
        ensures
            shuffled(old(self)@, final(self)@),
            final(self)@.wf(),
    {
        let mut data = match self.data.take() {
            Some(d) => d,
            None => {
                return;
            },
        };
        let ghost d = data@;
        data.shuffle_current();
        self.data = Some(data);
    }

    fn reset_letters(&mut self)
        requires
            old(self)@.wf(),
        ensures
            final(self)@ == apply_spec(old(self)@, Action::ResetShuffle).0,
            final(self)@.wf(),
    {
        let mut data = match self.data.take() {
            Some(d) => d,
            None => {
                return;
            },
        };
        if !data.has_current_game() {
            self.data = Some(data);
            return;
        }
        data.reset_shuffle_current();
        self.data = Some(data);
    }

    /// Takes an action when it can be taken (see `allowed`), and answers
    /// `None`, changing nothing, when it cannot.
    pub fn step(&mut self, action: Action) -> (r: Option<Effects>)
        requires
            old(self)@.wf(),
        ensures
            !allowed(old(self)@, action) ==> r is None && final(self)@ == old(self)@,
            allowed(old(self)@, action) && action != Action::Shuffle ==> r == Some(
                apply_spec(old(self)@, action).1,
            ) && final(self)@ == apply_spec(old(self)@, action).0,
            allowed(old(self)@, action) && action == Action::Shuffle ==> r == Some(no_effects())
                && shuffled(old(self)@, final(self)@),
            final(self)@.wf(),
    {
        if self.allows(action) {
            Some(self.apply(action))
        } else {
            None
        }
    }

    /// Handles a key: the action of `key_action_spec` on the screen shown.
    pub fn handle_key(&mut self, input: KeyInput) -> (r: Effects)
        requires
            old(self)@.wf(),
            allowed(old(self)@, key_action_spec(screen_of(old(self)@), input)),
        ensures
            (final(self)@, r) == apply_spec(old(self)@, key_action_spec(screen_of(old(self)@), input)),
            final(self)@.wf(),
    {
        let action = key_action(self.screen(), input);
        self.apply(action)
    }

    /// Handles a click of the left button: the action of `click_of`.
    pub fn handle_click(&mut self, areas: &AppAreas, column: u16, row: u16) -> (r: Effects)
        requires
            old(self)@.wf(),
            allowed(old(self)@, click_of(old(self)@, *areas, column, row)),
        ensures
            click_of(old(self)@, *areas, column, row) != Action::Shuffle
                ==> (final(self)@, r) == apply_spec(old(self)@, click_of(old(self)@, *areas, column, row)),
            click_of(old(self)@, *areas, column, row) == Action::Shuffle
                ==> shuffled(old(self)@, final(self)@) && r == no_effects(),
            final(self)@.wf(),
    {
        let action = self.click(areas, column, row);
        self.apply(action)
    }

    /// What a left click does: see `click_of`.
    pub fn click(&self, areas: &AppAreas, column: u16, row: u16) -> (r: Action)
        ensures
            r == click_of(self@, *areas, column, row),
    {
        let screen = self.screen();
        match &self.data {
            Some(d) => if d.has_current_game() {
                let g = &d.active_games[d.current_game];
                assert(self@.data->0.games[d.current_game as int] == g@);
                click_action(areas, column, row, screen, g.main_letter, &g.secondary_letters)
            } else {
                Action::Nothing
            },
            None => {
                let blank: [char; 6] = [' ', ' ', ' ', ' ', ' ', ' '];
                assert(blank@ =~= blank_letters());
                click_action(areas, column, row, screen, ' ', &blank)
            },
        }
    }

    /// Prepares a frame: see `frame_spec`; the puzzle started is drawn by
    /// `pick_game_index`. Fails, changing nothing, when a puzzle is to be
    /// started and there is none to draw from.
    pub fn prepare_frame(&mut self) -> (r: Result<FramePlan, EmptyGameList>)
        requires
            old(self)@.wf(),
        ensures
            r is Err <==> starts_game(old(self)@) && old(self)@.games->0.len() == 0,
            r is Err ==> final(self)@ == old(self)@,
            r matches Ok(plan) ==> (final(self)@, plan) == frame_spec(old(self)@, plan.started),
            r matches Ok(plan) ==> (plan.started is Some <==> starts_game(old(self)@)),
            r matches Ok(plan) ==> (plan.started matches Some(i) ==> i < old(self)@.games->0.len()),
            final(self)@.wf(),
    {
        let mut data = match self.data.take() {
            Some(d) => d,
            None => {
                return Ok(FramePlan { page: Page::LanguageSelection, started: None, load_games: false });
            },
        };
        if data.has_current_game() {
            self.data = Some(data);
            return Ok(FramePlan { page: Page::Game, started: None, load_games: false });
        }
        match &self.games {
            Some(games) => {
                let ghost gs = old(self)@.games->0;
                proof {
                    assert(old(self)@.games == Some(games@));
                    assert(gs == games@);
                    assert forall|i: int| 0 <= i < games@.len() implies playable(#[trigger] games@[i]) by {
                        assert(playable(gs[i]));
                    }
                }
                let ghost d = data@;
                match data.start_game(games) {
                    Ok(i) => {
                        proof {
                        }
                        self.data = Some(data);
                        Ok(FramePlan { page: Page::Game, started: Some(i), load_games: false })
                    },
                    Err(e) => {
                        self.data = Some(data);
                        Err(e)
                    },
                }
            },
            None => {
                self.data = Some(data);
                let load = !self.loading_games;
                self.loading_games = true;
                Ok(FramePlan { page: Page::Loading, started: None, load_games: load })
            },
        }
    }

    /// Word lists are being downloaded.
    pub fn downloading(&mut self)
        ensures
            final(self)@ == (SessionState { downloading_files: true, ..old(self)@ }),
    {
        self.downloading_files = true;
    }

    /// The word lists were downloaded; puzzles are being made of them.
    pub fn words_retrieved(&mut self)
        ensures
            final(self)@ == (SessionState { downloading_files: false, ..old(self)@ }),
    {
        self.downloading_files = false;
    }

    /// Puzzles were loaded to draw from.
    pub fn games_loaded(&mut self, games: Vec<Game>)
        requires
            old(self)@.wf(),
            forall|i: int| 0 <= i < games@.len() ==> playable(#[trigger] games@[i]),
        ensures
            final(self)@ == (SessionState { games: Some(games@), loading_games: false, ..old(self)@ }),
            final(self)@.wf(),
    {
        self.games = Some(games);
        self.loading_games = false;
    }

    /// The progress of the chosen language was loaded.
    pub fn language_loaded(&mut self, data: AppData)
        requires
            old(self)@.wf(),
        ensures
            final(self)@ == (SessionState { data: Some(data@), ..old(self)@ }),
            final(self)@.wf(),
    {
        self.data = Some(data);
    }

    /// Marks puzzles as being loaded; true when loading was not under way
    /// already and is to begin.
    pub fn begin_loading_games(&mut self) -> (r: bool)
        ensures
            r == !old(self)@.loading_games,
            final(self)@ == (SessionState { loading_games: true, ..old(self)@ }),
    {
        let begin = !self.loading_games;
        self.loading_games = true;
        begin
    }
}

/// A press of a key, with or without Control.
pub open spec fn press(key: Key, control: bool) -> KeyInput {
    KeyInput { key, control, press: true }
}

/// Ctrl+C quits, on every screen.
pub proof fn law_ctrl_c_quits(s: SessionState)
    ensures
        apply_spec(s, key_action_spec(screen_of(s), press(Key::Char('c'), true))).0.should_quit,
{
}

/// Only key presses act: releasing or repeating a key changes nothing.
pub proof fn law_only_presses_act(s: SessionState, input: KeyInput)
    requires
        !input.press,
    ensures
        apply_spec(s, key_action_spec(screen_of(s), input)) == (s, no_effects()),
{
}

/// Ctrl+L on a puzzle goes back to choosing the language.
pub proof fn law_ctrl_l_leaves(s: SessionState)
    requires
        s.data is Some,
    ensures
        screen_of(apply_spec(s, key_action_spec(screen_of(s), press(Key::Char('l'), true))).0)
            == Screen::LanguageSelection,
{
}

/// On the language screen, the arrows move the cursor between the two
/// languages: one step left undoes one step right, and Enter asks for the
/// progress of the language under the cursor.
pub proof fn law_language_cursor(s: SessionState)
    requires
        s.data is None,
    ensures
        ({
            let right = apply_spec(s, key_action_spec(screen_of(s), press(Key::Right, false))).0;
            apply_spec(right, key_action_spec(screen_of(right), press(Key::Left, false))).0 == s
        }),
        apply_spec(s, key_action_spec(screen_of(s), press(Key::Enter, false))).1.load_language
            == Some(s.selected_language),
{
    crate::language::law_previous_undoes_next(s.selected_language);
}

/// Backspace erases the character typed last: typing a letter on a shown
/// puzzle and then erasing it gives back the guess as it was.
pub proof fn law_backspace_undoes_typing(s: SessionState, c: char)
    requires
        s.data matches Some(d) && d.has_current(),
        s.input.len() < MAX_CHARACTERS,
        c != '[' && c != ']',
    ensures
        ({
            let typed = apply_spec(s, key_action_spec(screen_of(s), press(Key::Char(c), false))).0;
            &&& typed.input == s.input.push(c)
            &&& apply_spec(typed, key_action_spec(screen_of(typed), press(Key::Backspace, false))).0 == s
        }),
{
    let typed = apply_spec(s, key_action_spec(screen_of(s), press(Key::Char(c), false))).0;
    assert(typed.input.drop_last() =~= s.input);
}

/// The guess being typed never grows past `MAX_CHARACTERS` characters,
/// whatever key is pressed or button clicked.
pub proof fn law_guess_length_bounded(s: SessionState, input: KeyInput, areas: AppAreas, column: u16, row: u16)
    requires
        s.input.len() <= MAX_CHARACTERS,
    ensures
        apply_spec(s, key_action_spec(screen_of(s), input)).0.input.len() <= MAX_CHARACTERS,
        apply_spec(s, click_of(s, areas, column, row)).0.input.len() <= MAX_CHARACTERS,
{
}

/// Submitting on a shown puzzle clears the guess and keeps the answer,
/// which is that of `guess_spec` on the shown puzzle.
pub proof fn law_submit_answers(s: SessionState)
    requires
        s.data matches Some(d) && d.has_current(),
    ensures
        ({
            let d = s.data->0;
            let t = apply_spec(s, key_action_spec(screen_of(s), press(Key::Enter, false)));
            &&& t.0.input.len() == 0
            &&& t.0.result == Some(guess_spec(d.games[d.current_game as int], s.input).1)
            &&& t.1.show_result
        }),
{
}

/// Once puzzles are loaded to draw from, every frame of a game shows a
/// started puzzle.
pub proof fn law_frame_shows_a_puzzle(s: SessionState, i: usize)
    requires
        s.data is Some,
        s.games matches Some(gs) && i < gs.len(),
        s.data->0.games.len() < usize::MAX,
    ensures
        frame_spec(s, if starts_game(s) { Some(i) } else { None }).0.data matches Some(d) && d.has_current(),
        frame_spec(s, if starts_game(s) { Some(i) } else { None }).1.page == Page::Game,
{
}

/// The button of the `k`-th secondary letter, as the honeycomb shows them.
pub open spec fn letter_button(areas: AppAreas, k: int) -> Area {
    if k == 0 {
        areas.button_one
    } else if k == 1 {
        areas.button_two
    } else if k == 2 {
        areas.button_three
    } else if k == 3 {
        areas.button_four
    } else if k == 4 {
        areas.button_five
    } else {
        areas.button_six
    }
}

/// On a shown puzzle with room in the guess, a click on the button of the
/// `k`-th secondary letter (and on no other letter button) types the
/// letter shown at that place.
pub proof fn law_letter_buttons_type_their_letters(
    areas: AppAreas,
    column: u16,
    row: u16,
    input_len: usize,
    main_letter: char,
    shown: Seq<char>,
    k: int,
)
    requires
        0 <= k < 6,
        input_len < MAX_CHARACTERS,
        letter_button(areas, k).contains_spec(column, row),
        !areas.button_main.contains_spec(column, row),
        forall|m: int| 0 <= m < 6 && m != k ==> !(#[trigger] letter_button(areas, m)).contains_spec(column, row),
    ensures
        click_action_spec(areas, column, row, Screen::Playing { has_game: true, input_len }, main_letter, shown)
            == Action::Type(shown[k]),
{
    assert(!letter_button(areas, 0).contains_spec(column, row) || k == 0);
    assert(!letter_button(areas, 1).contains_spec(column, row) || k == 1);
    assert(!letter_button(areas, 2).contains_spec(column, row) || k == 2);
    assert(!letter_button(areas, 3).contains_spec(column, row) || k == 3);
    assert(!letter_button(areas, 4).contains_spec(column, row) || k == 4);
    assert(!letter_button(areas, 5).contains_spec(column, row) || k == 5);
}

/// On a shown puzzle with room in the guess, a click on the main button
/// types the main letter.
pub proof fn law_main_button_types_main_letter(
    areas: AppAreas,
    column: u16,
    row: u16,
    input_len: usize,
    main_letter: char,
    shown: Seq<char>,
)
    requires
        input_len < MAX_CHARACTERS,
        areas.button_main.contains_spec(column, row),
    ensures
        click_action_spec(areas, column, row, Screen::Playing { has_game: true, input_len }, main_letter, shown)
            == Action::Type(main_letter),
{
}

} // verus!
