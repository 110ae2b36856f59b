//! The progress kept for a language: the puzzles started so far, which of
//! them is shown, and how the next puzzle is chosen.

use vstd::prelude::*;
use rand::distr::Distribution;
use rand::distr::Uniform;
use rand::rngs::SmallRng;
use rand::SeedableRng;
use crate::game::{ActiveGame, Game, GameState, GuessResult, Word, guess_fits, guess_spec, new_word_state, playable, sum_word_points, without_effects, lemma_without_effects_wf};
use crate::language::Language;

verus! {

/// The seed of the sequence from which puzzles are drawn, so that the
/// puzzles of a language come in the same order on every run.
pub const GAME_SEED: u64 = 42;

/// A small, fast generator of rand, carried through as an opaque value.
#[verifier::external_type_specification]
#[verifier::external_body]
pub struct ExSmallRng(SmallRng);

/// Calls `SmallRng::seed_from_u64`. Nothing is claimed of the generator:
/// rand documents that its output differs between platforms.
#[verifier::external_body]
fn seeded_rng(seed: u64) -> SmallRng {
    SmallRng::seed_from_u64(seed)
}

/// Calls `Uniform::new(0, bound)` and draws one value from it with
/// `Distribution::sample`. rand's source shows that `new` fails only on an
/// empty range and that a sample of `Uniform::new(low, high)` lies in
/// `low..high`: claimed is `r < bound`. Which value comes out depends on
/// the generator and is left open.
#[verifier::external_body]
fn draw_below(rng: &mut SmallRng, bound: usize) -> (r: usize)
    requires
        bound > 0,
    ensures
        r < bound,
{
    Uniform::new(0, bound).expect("the range is not empty").sample(rng)
}

/// The position of the puzzle to start after `played` puzzles were
/// started: the draw that follows `played` earlier draws, each below
/// `count`, from a generator seeded with `GAME_SEED`. `None` when there is
/// no puzzle to choose from.
pub fn pick_game_index(count: usize, played: usize) -> (r: Option<usize>)
    ensures
        r is Some <==> count > 0,
        r matches Some(i) ==> i < count,
{
    if count == 0 {
        return None;
    }
    let mut rng = seeded_rng(GAME_SEED);
    let mut k: usize = 0;
    while k < played
        invariant
            k <= played,
            count > 0,
        decreases played - k,
    {
        let _skipped = draw_below(&mut rng, count);
        k = k + 1;
    }
    Some(draw_below(&mut rng, count))
}

/// The state of a puzzle that was just started from a puzzle: nothing
/// discovered, no points, the letters in their original order.
pub open spec fn new_game_state(g: Game) -> GameState {
    GameState {
        main_letter: g.main_letter,
        original_secondary_letters: g.secondary_letters@,
        secondary_letters: g.secondary_letters@,
        points: 0,
        total_points: sum_word_points(g.words@) as u16,
        words: g.words@.map_values(|w: Word| new_word_state(w)),
        found_words: 0,
    }
}

/// The progress kept for a language.
#[derive(Debug)]
pub struct AppData {
    pub active_games: Vec<ActiveGame>,
    pub current_game: usize,
    pub language: Language,
}

/// What the progress of a language holds: the started puzzles, the
/// position of the one shown, and the language.
pub struct AppState {
    pub games: Seq<GameState>,
    pub current_game: usize,
    pub language: Language,
}

impl View for AppData {
    type V = AppState;

    open spec fn view(&self) -> AppState {
        AppState {
            games: self.active_games@.map_values(|g: ActiveGame| g@),
            current_game: self.current_game,
            language: self.language,
        }
    }
}

impl AppState {
    /// Every started puzzle keeps its totals in agreement with its words.
    pub open spec fn wf(self) -> bool {
        forall|i: int| 0 <= i < self.games.len() ==> (#[trigger] self.games[i]).wf()
    }

    /// The position of the shown puzzle is that of a started puzzle.
    pub open spec fn has_current(self) -> bool {
        self.current_game < self.games.len()
    }
}

/// Going back one puzzle: the animations of the shown puzzle are
/// cleared and the one before it is shown; nothing changes on the first.
pub open spec fn previous_game_spec(s: AppState) -> AppState {
    if s.current_game > 0 {
        AppState {
            games: s.games.update(s.current_game as int, without_effects(s.games[s.current_game as int])),
            current_game: (s.current_game - 1) as usize,
            ..s
        }
    } else {
        s
    }
}

/// Going forward one puzzle: the animations of the shown puzzle are
/// cleared and the position moves past it (to a puzzle still to be
/// started, when it was the last).
pub open spec fn next_game_spec(s: AppState) -> AppState {
    AppState {
        games: s.games.update(s.current_game as int, without_effects(s.games[s.current_game as int])),
        current_game: (s.current_game + 1) as usize,
        ..s
    }
}

/// Starting a puzzle: it is added after the others and shown.
pub open spec fn start_game_spec(s: AppState, g: Game) -> AppState {
    AppState {
        games: s.games.push(new_game_state(g)),
        current_game: s.games.len() as usize,
        ..s
    }
}

/// There was no puzzle to start.
#[derive(Debug, Clone, Copy, PartialEq, Eq, Structural)]
pub struct EmptyGameList;

impl AppData {
    /// No puzzle started yet.
    pub fn new(language: Language) -> (r: AppData)
        ensures
            r@ == (AppState { games: Seq::empty(), current_game: 0, language }),
    {
        let r = AppData { active_games: Vec::new(), current_game: 0, language };
        assert(r@.games =~= Seq::<GameState>::empty());
        r
    }

    /// Whether the shown position is that of a started puzzle.
    pub fn has_current_game(&self) -> (r: bool)
        ensures
            r == self@.has_current(),
    {
        self.current_game < self.active_games.len()
    }

    /// Whether every started puzzle keeps its totals in agreement with
    /// its words.
    pub fn is_well_formed(&self) -> (r: bool)
        ensures
            r == self@.wf(),
    {
        let n: usize = self.active_games.len();
        let mut i: usize = 0;
        while i < n
            invariant
                n == self@.games.len(),
                i <= n,
                forall|k: int| 0 <= k < i ==> (#[trigger] self@.games[k]).wf(),
            decreases n - i,
        {
            if !self.active_games[i].is_well_formed() {
                assert(!self@.games[i as int].wf());
                return false;
            }
            i = i + 1;
        }
        true
    }

    /// Shows the puzzle before the shown one: see `previous_game_spec`.
    pub fn previous_game(&mut self)
        requires
            old(self)@.current_game > 0 ==> old(self)@.has_current(),
        ensures
            final(self)@ == previous_game_spec(old(self)@),
            old(self)@.wf() ==> final(self)@.wf(),
    {
        if self.current_game > 0 {
            let k: usize = self.current_game;
            self.clear_effects_at(k);
            let ghost cleared = self@;
            self.current_game = k - 1;
            assert(self@.games == cleared.games);
        }
    }

    /// Shows the puzzle after the shown one: see `next_game_spec`.
    pub fn next_game(&mut self)
        requires
            old(self)@.has_current(),
        ensures
            final(self)@ == next_game_spec(old(self)@),
            old(self)@.wf() ==> final(self)@.wf(),
    {
        let k: usize = self.current_game;
        let n: usize = self.active_games.len();
        self.clear_effects_at(k);
        let ghost cleared = self@;
        self.current_game = k + 1;
        assert(n == old(self)@.games.len());
        assert(self@.games == cleared.games);
    }

    fn clear_effects_at(&mut self, k: usize)
        requires
            k < old(self)@.games.len(),
        ensures
            final(self)@ == (AppState {
                games: old(self)@.games.update(k as int, without_effects(old(self)@.games[k as int])),
                ..old(self)@
            }),
            old(self)@.wf() ==> final(self)@.wf(),
    {
        let ghost before = self.active_games@;
        let mut game = self.active_games.remove(k);
        game.clear_effects();
        self.active_games.insert(k, game);
        proof {
            lemma_without_effects_wf(before[k as int]@);
            assert(self.active_games@ =~= before.update(k as int, game));
            assert(self@.games =~= old(self)@.games.update(k as int, without_effects(old(self)@.games[k as int])));
        }
    }

    /// Scores a guess on the shown puzzle: see `guess_spec`.
    pub fn guess_current(&mut self, guess: &str) -> (r: GuessResult)
        requires
            old(self)@.has_current(),
            guess_fits(old(self)@.games[old(self)@.current_game as int], guess@),
        ensures
            final(self)@ == (AppState {
                games: old(self)@.games.update(
                    old(self)@.current_game as int,
                    guess_spec(old(self)@.games[old(self)@.current_game as int], guess@).0,
                ),
                ..old(self)@
            }),
            r == guess_spec(old(self)@.games[old(self)@.current_game as int], guess@).1,
            old(self)@.wf() ==> final(self)@.wf(),
    {
        let k: usize = self.current_game;
        let ghost before = self.active_games@;
        assert(old(self)@.games[k as int] == before[k as int]@);
        let mut game = self.active_games.remove(k);
        let r = game.guess(guess);
        self.active_games.insert(k, game);
        proof {
            assert(self.active_games@ =~= before.update(k as int, game));
            assert(self@.games =~= old(self)@.games.update(k as int, game@));
            if old(self)@.wf() {
                assert forall|i: int| 0 <= i < self@.games.len() implies (#[trigger] self@.games[i]).wf() by {
                    if i != k {
                        assert(self@.games[i] == old(self)@.games[i]);
                    }
                }
            }
        }
        r
    }

    /// Puts the letters of the shown puzzle in a random order.
    pub fn shuffle_current(&mut self)
        requires
            old(self)@.has_current(),
        ensures
            final(self)@ == (AppState {
                games: old(self)@.games.update(
                    old(self)@.current_game as int,
                    GameState {
                        secondary_letters: final(self)@.games[old(self)@.current_game as int].secondary_letters,
                        ..old(self)@.games[old(self)@.current_game as int]
                    },
                ),
                ..old(self)@
            }),
            final(self)@.games[old(self)@.current_game as int].secondary_letters.to_multiset()
                == old(self)@.games[old(self)@.current_game as int].secondary_letters.to_multiset(),
            old(self)@.wf() ==> final(self)@.wf(),
    {
        let k: usize = self.current_game;
        let ghost before = self.active_games@;
        assert(old(self)@.games[k as int] == before[k as int]@);
        let mut game = self.active_games.remove(k);
        game.shuffle();
        self.active_games.insert(k, game);
        proof {
            assert(self.active_games@ =~= before.update(k as int, game));
            assert(self@.games =~= old(self)@.games.update(k as int, game@));
            if old(self)@.wf() {
                assert forall|i: int| 0 <= i < self@.games.len() implies (#[trigger] self@.games[i]).wf() by {
                    if i != k {
                        assert(self@.games[i] == old(self)@.games[i]);
                    }
                }
            }
        }
    }

    /// Puts the letters of the shown puzzle back in their original order.
    pub fn reset_shuffle_current(&mut self)
        requires
            old(self)@.has_current(),
        ensures
            final(self)@ == (AppState {
                games: old(self)@.games.update(
                    old(self)@.current_game as int,
                    GameState {
                        secondary_letters: old(self)@.games[old(self)@.current_game as int].original_secondary_letters,
                        ..old(self)@.games[old(self)@.current_game as int]
                    },
                ),
                ..old(self)@
            }),
            old(self)@.wf() ==> final(self)@.wf(),
    {
        let k: usize = self.current_game;
        let ghost before = self.active_games@;
        assert(old(self)@.games[k as int] == before[k as int]@);
        let mut game = self.active_games.remove(k);
        game.reset_shuffle();
        self.active_games.insert(k, game);
        proof {
            assert(self.active_games@ =~= before.update(k as int, game));
            assert(self@.games =~= old(self)@.games.update(k as int, game@));
            if old(self)@.wf() {
                assert forall|i: int| 0 <= i < self@.games.len() implies (#[trigger] self@.games[i]).wf() by {
                    if i != k {
                        assert(self@.games[i] == old(self)@.games[i]);
                    }
                }
            }
        }
    }

    /// Starts a puzzle drawn from `games` (see `pick_game_index`) and shows
    /// it. Fails, changing nothing, when there is no puzzle.
    pub fn start_game(&mut self, games: &Vec<Game>) -> (r: Result<usize, EmptyGameList>)
        requires
            forall|i: int| 0 <= i < games@.len() ==> playable(#[trigger] games@[i]),
        ensures
            r is Ok <==> games@.len() > 0,
            r is Err ==> *final(self) == *old(self),
            r matches Ok(i) ==> i < games@.len() && final(self)@ == start_game_spec(old(self)@, games@[i as int]),
            old(self)@.wf() ==> final(self)@.wf(),
    {
        let index: usize = match pick_game_index(games.len(), self.active_games.len()) {
            Some(i) => i,
            None => {
                return Err(EmptyGameList);
            },
        };
        let game = games[index].duplicate();
        assert(playable(games@[index as int]));
        let active = ActiveGame::from(game);
        let ghost before = self@;
        self.active_games.push(active);
        self.current_game = self.active_games.len() - 1;
        proof {
            assert(active@ == new_game_state(games@[index as int]));
            assert(self@.games =~= before.games.push(active@));
            if before.wf() {
                assert forall|i: int| 0 <= i < self@.games.len() implies (#[trigger] self@.games[i]).wf() by {
                    if i < before.games.len() {
                        assert(self@.games[i] == before.games[i]);
                    }
                }
            }
        }
        Ok(index)
    }
}

/// Going forward one puzzle and back again shows the same puzzle, and
/// moving between puzzles never changes what was found or earned in any
/// of them (only their animations are cleared).
pub proof fn law_moving_keeps_progress(s: AppState)
    requires
        s.has_current(),
        s.games.len() <= usize::MAX,
    ensures
        previous_game_spec(next_game_spec(s)).current_game == s.current_game,
        next_game_spec(s).games.len() == s.games.len(),
        previous_game_spec(s).games.len() == s.games.len(),
        forall|i: int| 0 <= i < s.games.len() ==> without_effects(#[trigger] next_game_spec(s).games[i])
            == without_effects(s.games[i]),
        forall|i: int| 0 <= i < s.games.len() ==> without_effects(#[trigger] previous_game_spec(s).games[i])
            == without_effects(s.games[i]),
{
    let k = s.current_game as int;
    lemma_without_effects_twice(s.games[k]);
}

proof fn lemma_without_effects_twice(g: GameState)
    ensures
        without_effects(without_effects(g)) == without_effects(g),
{
    assert(without_effects(without_effects(g)).words =~= without_effects(g).words);
}

/// Starting a puzzle keeps every puzzle started before, as it was, and
/// shows the new one with nothing found yet.
pub proof fn law_start_keeps_earlier_games(s: AppState, g: Game)
    requires
        s.games.len() < usize::MAX,
    ensures
        start_game_spec(s, g).games.len() == s.games.len() + 1,
        start_game_spec(s, g).games.take(s.games.len() as int) == s.games,
        start_game_spec(s, g).has_current(),
        start_game_spec(s, g).games[s.games.len() as int].points == 0,
        start_game_spec(s, g).games[s.games.len() as int].found_words == 0,
{
    assert(start_game_spec(s, g).games.take(s.games.len() as int) =~= s.games);
}

} // verus!
