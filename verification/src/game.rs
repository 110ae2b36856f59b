//! Puzzles and the state of a puzzle being played: scoring of words,
//! guesses, and the order in which the letters are shown.

use vstd::prelude::*;
use vstd::utf8::encode_utf8;
use rand::rngs::ThreadRng;
use rand::seq::SliceRandom;
use crate::normalize::{NormalizedString, normalize_text_spec};
use crate::text::chars_of;

verus! {

/// A word of a puzzle: the spellings it was found under (joined with
/// `'/'`), its normalized form, and whether it uses all seven letters.
#[derive(Debug)]
pub struct Word {
    pub original: String,
    pub normalized: NormalizedString,
    pub is_pangram: bool,
}

/// A puzzle: a main letter, six secondary letters, and the words that can
/// be made of them.
#[derive(Debug)]
pub struct Game {
    pub main_letter: char,
    pub secondary_letters: [char; 6],
    pub words: Vec<Word>,
}

/// A word of a puzzle being played.
#[derive(Debug)]
pub struct ActiveGameWord {
    pub original: String,
    pub normalized: NormalizedString,
    pub is_pangram: bool,
    pub discovered: bool,
    pub points: u16,
    pub has_effect: bool,
}

/// A puzzle being played: its letters (in their original and in their
/// displayed order), the points earned and available, and its words.
#[derive(Debug)]
pub struct ActiveGame {
    pub main_letter: char,
    pub original_secondary_letters: [char; 6],
    pub secondary_letters: [char; 6],
    pub points: u16,
    pub total_points: u16,
    pub words: Vec<ActiveGameWord>,
    pub found_words: usize,
}

/// Why a guess was refused.
#[derive(Debug, Clone, Copy, PartialEq, Eq, Structural)]
pub enum BadGuess {
    InvalidCharacters,
    TooShort,
    WordNotInGame,
    AlreadyDiscovered,
}

/// The answer to a guess.
#[derive(Debug, Clone, Copy, PartialEq, Eq, Structural)]
pub enum GuessResult {
    Success { index: usize, points: u16, is_pangram: bool, is_game_over: bool },
    Failure(BadGuess),
}

impl BadGuess {
    /// The key of the message that explains the refusal.
    pub fn message_key(&self) -> (r: &'static str)
        ensures
            r@ == bad_guess_key_spec(*self),
    {
        proof {
            reveal_strlit("bad_guess.invalid_characters");
            reveal_strlit("bad_guess.too_short");
            reveal_strlit("bad_guess.word_not_in_game");
            reveal_strlit("bad_guess.already_discovered");
        }
        match self {
            BadGuess::InvalidCharacters => "bad_guess.invalid_characters",
            BadGuess::TooShort => "bad_guess.too_short",
            BadGuess::WordNotInGame => "bad_guess.word_not_in_game",
            BadGuess::AlreadyDiscovered => "bad_guess.already_discovered",
        }
    }
}

/// The message key of each refusal.
pub open spec fn bad_guess_key_spec(b: BadGuess) -> Seq<char> {
    match b {
        BadGuess::InvalidCharacters => "bad_guess.invalid_characters"@,
        BadGuess::TooShort => "bad_guess.too_short"@,
        BadGuess::WordNotInGame => "bad_guess.word_not_in_game"@,
        BadGuess::AlreadyDiscovered => "bad_guess.already_discovered"@,
    }
}

/// The message key of each answer to a guess.
pub open spec fn result_key_spec(r: GuessResult) -> Seq<char> {
    match r {
        GuessResult::Success { is_pangram, .. } => if is_pangram {
            "good_guess_pangram"@
        } else {
            "good_guess"@
        },
        GuessResult::Failure(b) => bad_guess_key_spec(b),
    }
}

impl GuessResult {
    /// The key of the message that shows the answer: a found word (a
    /// pangram has a message of its own) or the reason of a refusal.
    pub fn message_key(&self) -> (r: &'static str)
        ensures
            r@ == result_key_spec(*self),
    {
        proof {
            reveal_strlit("good_guess_pangram");
            reveal_strlit("good_guess");
        }
        match self {
            GuessResult::Success { is_pangram, .. } => if *is_pangram {
                "good_guess_pangram"
            } else {
                "good_guess"
            },
            GuessResult::Failure(b) => b.message_key(),
        }
    }
}

/// The state of a word of a puzzle being played.
pub struct WordState {
    pub original: Seq<char>,
    pub normalized: Seq<char>,
    pub is_pangram: bool,
    pub discovered: bool,
    pub points: u16,
    pub has_effect: bool,
}

/// The state of a puzzle being played.
pub struct GameState {
    pub main_letter: char,
    pub original_secondary_letters: Seq<char>,
    pub secondary_letters: Seq<char>,
    pub points: u16,
    pub total_points: u16,
    pub words: Seq<WordState>,
    pub found_words: usize,
}

impl View for ActiveGameWord {
    type V = WordState;

    open spec fn view(&self) -> WordState {
        WordState {
            original: self.original@,
            normalized: self.normalized.text(),
            is_pangram: self.is_pangram,
            discovered: self.discovered,
            points: self.points,
            has_effect: self.has_effect,
        }
    }
}

impl View for ActiveGame {
    type V = GameState;

    open spec fn view(&self) -> GameState {
        GameState {
            main_letter: self.main_letter,
            original_secondary_letters: self.original_secondary_letters@,
            secondary_letters: self.secondary_letters@,
            points: self.points,
            total_points: self.total_points,
            words: self.words@.map_values(|w: ActiveGameWord| w@),
            found_words: self.found_words,
        }
    }
}

/// Length in bytes of the UTF-8 encoding of a text, as `str::len`
/// reports it.
pub open spec fn utf8_len(s: Seq<char>) -> usize {
    encode_utf8(s).len() as usize
}

/// The points a word is worth before the pangram bonus: one for a word of
/// at most four bytes, else its length in bytes (as a `u16`).
pub open spec fn base_points(original: Seq<char>) -> u16 {
    if utf8_len(original) > 4 {
        utf8_len(original) as u16
    } else {
        1
    }
}

/// Doubling the points of a pangram does not overflow.
pub open spec fn word_points_fit(w: Word) -> bool {
    w.is_pangram ==> base_points(w.original@) <= 32767
}

/// The points a word is worth: doubled for a pangram.
pub open spec fn word_points(w: Word) -> u16 {
    if w.is_pangram {
        (base_points(w.original@) * 2) as u16
    } else {
        base_points(w.original@)
    }
}

/// The state of a new, undiscovered word made from a word of a puzzle.
pub open spec fn new_word_state(w: Word) -> WordState {
    WordState {
        original: w.original@,
        normalized: w.normalized.text(),
        is_pangram: w.is_pangram,
        discovered: false,
        points: word_points(w),
        has_effect: false,
    }
}

/// Sum of the points of all words.
pub open spec fn all_points(ws: Seq<WordState>) -> int
    decreases ws.len(),
{
    if ws.len() == 0 {
        0
    } else {
        all_points(ws.drop_last()) + ws.last().points
    }
}

/// Sum of the points of the discovered words.
pub open spec fn discovered_points(ws: Seq<WordState>) -> int
    decreases ws.len(),
{
    if ws.len() == 0 {
        0
    } else {
        discovered_points(ws.drop_last()) + if ws.last().discovered {
            ws.last().points as int
        } else {
            0
        }
    }
}

/// Number of discovered words.
pub open spec fn discovered_count(ws: Seq<WordState>) -> int
    decreases ws.len(),
{
    if ws.len() == 0 {
        0
    } else {
        discovered_count(ws.drop_last()) + if ws.last().discovered {
            1int
        } else {
            0
        }
    }
}

/// Sum of the points of the words of a puzzle, as they will be scored.
pub open spec fn sum_word_points(ws: Seq<Word>) -> int
    decreases ws.len(),
{
    if ws.len() == 0 {
        0
    } else {
        sum_word_points(ws.drop_last()) + word_points(ws.last())
    }
}

impl GameState {
    /// The totals of a puzzle being played agree with its words: the
    /// total is the sum of all points, the points earned those of the
    /// discovered words, and the count of found words their number.
    pub open spec fn wf(self) -> bool {
        &&& self.total_points == all_points(self.words)
        &&& self.points == discovered_points(self.words)
        &&& self.found_words == discovered_count(self.words)
        &&& self.words.len() <= usize::MAX
    }

    /// The puzzle with the word at `k` discovered and its points earned.
    pub open spec fn discover(self, k: int) -> GameState {
        let w = self.words[k];
        GameState {
            words: self.words.update(
                k,
                WordState {
                    original: w.original,
                    normalized: w.normalized,
                    is_pangram: w.is_pangram,
                    discovered: true,
                    points: w.points,
                    has_effect: w.has_effect,
                },
            ),
            points: (self.points + w.points) as u16,
            found_words: (self.found_words + 1) as usize,
            ..self
        }
    }
}

/// Every letter of `n` is the main letter or one of the secondary letters.
pub open spec fn letters_allowed(g: GameState, n: Seq<char>) -> bool {
    forall|i: int|
        0 <= i < n.len() ==> (#[trigger] n[i]) == g.main_letter || g.original_secondary_letters.contains(
            n[i],
        )
}

/// Position of the first word whose normalized form is `n`.
pub open spec fn find_word(ws: Seq<WordState>, n: Seq<char>) -> Option<int>
    decreases ws.len(),
{
    if ws.len() == 0 {
        None
    } else if ws[0].normalized == n {
        Some(0)
    } else {
        match find_word(ws.drop_first(), n) {
            Some(i) => Some(i + 1),
            None => None,
        }
    }
}

/// Scoring a guess keeps its counts within their types: when the guess
/// finds a word, the points earned plus the word's points fit in a `u16`
/// and one more found word fits in a `usize`.
pub open spec fn guess_fits(g: GameState, guess: Seq<char>) -> bool {
    guess_spec(g, guess).1 matches GuessResult::Success { index, .. } ==> {
        &&& g.points + g.words[index as int].points <= u16::MAX
        &&& g.found_words < usize::MAX
    }
}

/// What a guess does to a puzzle being played, and what it answers.
/// The guess is normalized first; it is refused when that fails or a
/// letter is not one of the puzzle's, when it is shorter than four
/// letters, when no word of the puzzle has that normalized form, or when
/// that word was already discovered. Otherwise the word is discovered and
/// its points earned.
pub open spec fn guess_spec(g: GameState, guess: Seq<char>) -> (GameState, GuessResult) {
    match normalize_text_spec(guess) {
        None => (g, GuessResult::Failure(BadGuess::InvalidCharacters)),
        Some(n) => if !letters_allowed(g, n) {
            (g, GuessResult::Failure(BadGuess::InvalidCharacters))
        } else if n.len() < 4 {
            (g, GuessResult::Failure(BadGuess::TooShort))
        } else {
            match find_word(g.words, n) {
                None => (g, GuessResult::Failure(BadGuess::WordNotInGame)),
                Some(k) => if g.words[k].discovered {
                    (g, GuessResult::Failure(BadGuess::AlreadyDiscovered))
                } else {
                    (
                        g.discover(k),
                        GuessResult::Success {
                            index: k as usize,
                            points: g.words[k].points,
                            is_pangram: g.words[k].is_pangram,
                            is_game_over: g.found_words + 1 >= g.words.len(),
                        },
                    )
                },
            }
        },
    }
}

proof fn lemma_find_word(ws: Seq<WordState>, n: Seq<char>, i: int)
    requires
        0 <= i <= ws.len(),
        forall|k: int| 0 <= k < i ==> (#[trigger] ws[k]).normalized != n,
    ensures
        i < ws.len() && ws[i].normalized == n ==> find_word(ws, n) == Some(i),
        i == ws.len() ==> find_word(ws, n) is None,
    decreases i,
{
    if i > 0 {
        assert forall|k: int| 0 <= k < i - 1 implies (#[trigger] ws.drop_first()[k]).normalized
            != n by {
            assert(ws.drop_first()[k] == ws[k + 1]);
        }
        lemma_find_word(ws.drop_first(), n, i - 1);
        if i < ws.len() {
            assert(ws.drop_first()[i - 1] == ws[i]);
        }
    }
}

/// `find_word` gives a position of a word with that normalized form.
pub proof fn lemma_find_word_found(ws: Seq<WordState>, n: Seq<char>)
    ensures
        find_word(ws, n) matches Some(k) ==> 0 <= k < ws.len() && ws[k].normalized == n,
    decreases ws.len(),
{
    if ws.len() > 0 {
        lemma_find_word_found(ws.drop_first(), n);
    }
}

/// Discovering an undiscovered word adds its points to the points earned
/// and one to the count, and leaves the total unchanged.
proof fn lemma_discover_sums(ws: Seq<WordState>, k: int, w: WordState)
    requires
        0 <= k < ws.len(),
        !ws[k].discovered,
        w.discovered,
        w.points == ws[k].points,
    ensures
        all_points(ws.update(k, w)) == all_points(ws),
        discovered_points(ws.update(k, w)) == discovered_points(ws) + w.points,
        discovered_count(ws.update(k, w)) == discovered_count(ws) + 1,
    decreases ws.len(),
{
    let u = ws.update(k, w);
    if k == ws.len() - 1 {
        assert(u.drop_last() =~= ws.drop_last());
    } else {
        assert(u.drop_last() =~= ws.drop_last().update(k, w));
        lemma_discover_sums(ws.drop_last(), k, w);
    }
}

/// The points of the undiscovered words, together with those earned, are
/// at most the total.
proof fn lemma_discovered_bound(ws: Seq<WordState>, k: int)
    requires
        0 <= k < ws.len(),
        !ws[k].discovered,
    ensures
        discovered_points(ws) + ws[k].points <= all_points(ws),
        discovered_count(ws) < ws.len(),
    decreases ws.len(),
{
    lemma_sums_bounds(ws.drop_last());
    if k < ws.len() - 1 {
        lemma_discovered_bound(ws.drop_last(), k);
    }
}

proof fn lemma_sums_bounds(ws: Seq<WordState>)
    ensures
        0 <= discovered_points(ws) <= all_points(ws),
        0 <= discovered_count(ws) <= ws.len(),
    decreases ws.len(),
{
    if ws.len() > 0 {
        lemma_sums_bounds(ws.drop_last());
    }
}

/// The thread-local random generator of rand, carried through as an opaque value.
#[verifier::external_type_specification]
#[verifier::external_body]
pub struct ExThreadRng(ThreadRng);

/// Calls `rand::rng`, the thread-local generator; nothing is claimed of it.
#[verifier::external_body]
fn thread_rng() -> ThreadRng {
    rand::rng()
}

/// Calls `SliceRandom::shuffle` on six letters. The contract claims that
/// the letters are permuted (rand swaps elements in place); which
/// permutation comes out is left open, it depends on chance.
#[verifier::external_body]
fn shuffle_letters(letters: &mut [char; 6], rng: &mut ThreadRng)
    ensures
        final(letters)@.to_multiset() == old(letters)@.to_multiset(),
{
    letters.shuffle(rng)
}

impl ActiveGameWord {
    /// A word of a puzzle, undiscovered, with its points: one for a word
    /// of at most four bytes, else its length in bytes, doubled for a
    /// pangram.
    pub fn from(value: Word) -> (r: ActiveGameWord)
        requires
            word_points_fit(value),
        ensures
            r@ == new_word_state(value),
    {
        let text: &str = value.original.as_str();
        let len: usize = text.len();
        assert(text@ == value.original@);
        assert(len == utf8_len(value.original@));
        let mut points: u16 = 1;
        if len > 4 {
            points = #[verifier::truncate] (len as u16);
        }
        assert(points == base_points(value.original@));
        if value.is_pangram {
            points = points * 2;
        }
        assert(points == word_points(value));
        ActiveGameWord {
            original: value.original,
            normalized: value.normalized,
            is_pangram: value.is_pangram,
            discovered: false,
            points,
            has_effect: false,
        }
    }
}

/// The words of a new puzzle are worth, together, the sum of their points,
/// and none is discovered yet.
pub proof fn lemma_all_points_new(ws: Seq<Word>)
    ensures
        all_points(ws.map_values(|w: Word| new_word_state(w))) == sum_word_points(ws),
        discovered_points(ws.map_values(|w: Word| new_word_state(w))) == 0,
        discovered_count(ws.map_values(|w: Word| new_word_state(w))) == 0,
    decreases ws.len(),
{
    if ws.len() > 0 {
        assert(ws.map_values(|w: Word| new_word_state(w)).drop_last() =~= ws.drop_last().map_values(
            |w: Word| new_word_state(w),
        ));
        lemma_all_points_new(ws.drop_last());
    }
}

/// The points of the first words of a puzzle are at least zero and at
/// most those of all its words.
pub proof fn lemma_sum_word_points_prefix(ws: Seq<Word>, i: int)
    requires
        0 <= i <= ws.len(),
    ensures
        0 <= sum_word_points(ws.take(i)) <= sum_word_points(ws),
    decreases ws.len(),
{
    if ws.len() > 0 {
        if i == ws.len() {
            assert(ws.take(i) =~= ws);
            lemma_sum_word_points_prefix(ws.drop_last(), 0);
            assert(ws.drop_last().take(0) =~= ws.take(0));
        } else {
            assert(ws.drop_last().take(i) =~= ws.take(i));
            lemma_sum_word_points_prefix(ws.drop_last(), i);
        }
    }
}

impl ActiveGame {
    /// A puzzle ready to be played: nothing discovered, no points earned,
    /// the letters in their original order, and the total the sum of the
    /// points of its words.
    pub fn from(value: Game) -> (r: ActiveGame)
        requires
            forall|i: int| 0 <= i < value.words@.len() ==> word_points_fit(#[trigger] value.words@[i]),
            sum_word_points(value.words@) <= u16::MAX,
        ensures
            r@.main_letter == value.main_letter,
            r@.original_secondary_letters == value.secondary_letters@,
            r@.secondary_letters == value.secondary_letters@,
            r@.words == value.words@.map_values(|w: Word| new_word_state(w)),
            r@.points == 0,
            r@.found_words == 0,
            r@.total_points == sum_word_points(value.words@),
            r@.wf(),
    {
        let Game { main_letter, secondary_letters, words: game_words } = value;
        let mut words: Vec<ActiveGameWord> = Vec::new();
        let mut total_points: u16 = 0;
        let n: usize = game_words.len();
        let mut rest = game_words;
        let ghost all = rest@;
        let mut taken: Vec<Word> = Vec::new();
        // take the words out from the back, so that each can be moved
        while rest.len() > 0
            invariant
                rest@ + taken@.reverse() == all,
            decreases rest.len(),
        {
            let w = rest.pop().unwrap();
            proof {
                assert(rest@ + taken@.push(w).reverse() =~= all);
            }
            taken.push(w);
        }
        assert(taken@.reverse() =~= all);
        let mut i: usize = 0;
        while i < n
            invariant
                n == all.len(),
                i <= n,
                taken@.len() == n - i,
                taken@.reverse() == all.skip(i as int),
                words@.map_values(|w: ActiveGameWord| w@) == all.take(i as int).map_values(
                    |w: Word| new_word_state(w),
                ),
                total_points == sum_word_points(all.take(i as int)),
                forall|k: int| 0 <= k < all.len() ==> word_points_fit(#[trigger] all[k]),
                sum_word_points(all) <= u16::MAX,
            decreases n - i,
        {
            let ghost before = taken@;
            let w = taken.pop().unwrap();
            proof {
                assert(taken@ =~= before.drop_last());
                assert(w == before.last());
                assert(before.reverse()[0] == before.last());
                assert(all.skip(i as int)[0] == all[i as int]);
                assert(w == all[i as int]);
                assert(before.reverse().drop_first() =~= before.drop_last().reverse());
                assert(all.skip(i as int).drop_first() =~= all.skip(i + 1));
                assert(taken@.reverse() =~= all.skip(i + 1));
                assert(all.take(i + 1).drop_last() =~= all.take(i as int));
                lemma_sum_word_points_prefix(all, i + 1);
            }
            let aw = ActiveGameWord::from(w);
            assert(aw@ == new_word_state(all[i as int]));
            let ghost prev = words@.map_values(|w: ActiveGameWord| w@);
            total_points = total_points + aw.points;
            words.push(aw);
            assert(words@.map_values(|w: ActiveGameWord| w@) =~= prev.push(aw@));
            assert(all.take(i + 1).map_values(|w: Word| new_word_state(w)) =~= all.take(i as int).map_values(
                |w: Word| new_word_state(w)).push(new_word_state(all[i as int])));
            assert(words@.map_values(|w: ActiveGameWord| w@) =~= all.take(i + 1).map_values(
                |w: Word| new_word_state(w),
            ));
            i = i + 1;
        }
        assert(all.take(n as int) =~= all);
        proof {
            lemma_all_points_new(all);
        }
        ActiveGame {
            main_letter,
            original_secondary_letters: secondary_letters,
            secondary_letters,
            words,
            found_words: 0,
            points: 0,
            total_points,
        }
    }

    /// Puts the secondary letters in a random order.
    pub fn shuffle(&mut self)
        ensures
            final(self)@.secondary_letters.to_multiset() == old(self)@.secondary_letters.to_multiset(),
            final(self)@ == (GameState { secondary_letters: final(self)@.secondary_letters, ..old(self)@ }),
    {
        let mut rng = thread_rng();
        shuffle_letters(&mut self.secondary_letters, &mut rng);
    }

    /// Puts the secondary letters back in their original order.
    pub fn reset_shuffle(&mut self)
        ensures
            final(self)@ == reset_spec(old(self)@),
    {
        self.secondary_letters = self.original_secondary_letters;
    }

    /// Whether the totals of the puzzle agree with its words.
    pub fn is_well_formed(&self) -> (r: bool)
        ensures
            r == self@.wf(),
    {
        let n: usize = self.words.len();
        let ghost ws = self@.words;
        let mut total: u128 = 0;
        let mut earned: u128 = 0;
        let mut count: usize = 0;
        let mut i: usize = 0;
        while i < n
            invariant
                n == ws.len(),
                ws == self@.words,
                i <= n,
                total == all_points(ws.take(i as int)),
                earned == discovered_points(ws.take(i as int)),
                count == discovered_count(ws.take(i as int)),
                total <= i * 65535,
                earned <= total,
                count <= i,
            decreases n - i,
        {
            let w = &self.words[i];
            assert(ws[i as int] == w@);
            assert(ws.take(i + 1).drop_last() =~= ws.take(i as int));
            total = total + w.points as u128;
            if w.discovered {
                earned = earned + w.points as u128;
                count = count + 1;
            }
            i = i + 1;
        }
        assert(ws.take(n as int) =~= ws);
        total == self.total_points as u128 && earned == self.points as u128 && count == self.found_words
    }

    /// The answer to a guess, without scoring it: see `guess_spec`.
    pub fn score(&self, guess: &str) -> (r: GuessResult)
        ensures
            r == guess_spec(self@, guess@).1,
    {
        let normalized_guess = match NormalizedString::from_str(guess) {
            Ok(n) => n,
            Err(_) => {
                return GuessResult::Failure(BadGuess::InvalidCharacters);
            },
        };
        let ghost n = normalized_guess.text();
        let letters = chars_of(normalized_guess.as_ref());
        let mut count: usize = 0;
        let len: usize = letters.len();
        while count < len
            invariant
                letters@ == n,
                len == n.len(),
                count <= len,
                normalize_text_spec(guess@) == Some(n),
                forall|k: int| 0 <= k < count ==> #[trigger] n[k] == self@.main_letter
                    || self@.original_secondary_letters.contains(n[k]),
            decreases len - count,
        {
            let c = letters[count];
            let mut allowed = c == self.main_letter;
            let mut j: usize = 0;
            while j < 6
                invariant
                    j <= 6,
                    allowed <==> (c == self@.main_letter || self@.original_secondary_letters.take(j as int).contains(c)),
                decreases 6 - j,
            {
                if self.original_secondary_letters[j] == c {
                    allowed = true;
                    assert(self@.original_secondary_letters.take(j + 1)[j as int] == c);
                }
                assert(self@.original_secondary_letters.take(j + 1) =~= self@.original_secondary_letters.take(j as int).push(self@.original_secondary_letters[j as int]));
                j = j + 1;
            }
            assert(self@.original_secondary_letters.take(6) =~= self@.original_secondary_letters);
            if !allowed {
                assert(!(n[count as int] == self@.main_letter || self@.original_secondary_letters.contains(n[count as int])));
                return GuessResult::Failure(BadGuess::InvalidCharacters);
            }
            count = count + 1;
        }
        if count < 4 {
            return GuessResult::Failure(BadGuess::TooShort);
        }
        let nw: usize = self.words.len();
        let ghost ws = self@.words;
        let mut k: usize = 0;
        while k < nw && !(self.words[k].normalized.0 == normalized_guess.0)
            invariant
                n == normalized_guess.text(),
                k <= nw,
                nw == ws.len(),
                ws == self@.words,
                forall|m: int| 0 <= m < k ==> (#[trigger] ws[m]).normalized != n,
            decreases nw - k,
        {
            assert(ws[k as int] == self.words[k as int]@);
            k = k + 1;
        }
        proof {
            if k < nw {
                assert(ws[k as int] == self.words[k as int]@);
            }
            lemma_find_word(ws, n, k as int);
        }
        if k == nw {
            return GuessResult::Failure(BadGuess::WordNotInGame);
        }
        assert(ws[k as int] == self.words[k as int]@);
        if self.words[k].discovered {
            return GuessResult::Failure(BadGuess::AlreadyDiscovered);
        }
        let points: u16 = self.words[k].points;
        let is_pangram: bool = self.words[k].is_pangram;
        GuessResult::Success {
            index: k,
            points,
            is_pangram,
            is_game_over: self.found_words >= nw - 1,
        }
    }

    /// Scores a guess: see `guess_spec`.
    pub fn guess(&mut self, guess: &str) -> (r: GuessResult)
        requires
            guess_fits(old(self)@, guess@),
        ensures
            (final(self)@, r) == guess_spec(old(self)@, guess@),
            old(self)@.wf() ==> final(self)@.wf(),
    {
        let r = self.score(guess);
        let _word_count: usize = self.words.len();
        proof {
            lemma_success_index(self@, guess@);
        }
        match r {
            GuessResult::Success { index, points, .. } => {
                let ghost old_game = self@;
                let ghost ws = self@.words;
                assert(ws[index as int] == self.words[index as int]@);
                self.words[index].discovered = true;
                self.points = self.points + points;
                self.found_words = self.found_words + 1;
                proof {
                    let nws = self@.words;
                    assert(nws =~= old_game.discover(index as int).words);
                    lemma_discover_sums(ws, index as int, nws[index as int]);
                }
            },
            GuessResult::Failure(_) => {},
        }
        r
    }
}


/// A puzzle can be played: no pangram's doubled points overflow, and the
/// points of all its words add up to at most `u16::MAX`.
pub open spec fn playable(g: Game) -> bool {
    &&& forall|i: int| 0 <= i < g.words@.len() ==> word_points_fit(#[trigger] g.words@[i])
    &&& sum_word_points(g.words@) <= u16::MAX
}

/// The state of a puzzle with no word marked as animated.
pub open spec fn without_effects(g: GameState) -> GameState {
    GameState {
        words: g.words.map_values(|w: WordState| WordState { has_effect: false, ..w }),
        ..g
    }
}

impl Game {
    /// Whether the puzzle can be played: see `playable`.
    pub fn is_playable(&self) -> (r: bool)
        ensures
            r == playable(*self),
    {
        let n: usize = self.words.len();
        let ghost ws = self.words@;
        let mut total: u32 = 0;
        let mut i: usize = 0;
        while i < n
            invariant
                n == ws.len(),
                ws == self.words@,
                i <= n,
                total == sum_word_points(ws.take(i as int)),
                total <= u16::MAX,
                forall|k: int| 0 <= k < i ==> word_points_fit(#[trigger] ws[k]),
            decreases n - i,
        {
            let w = &self.words[i];
            let len: usize = w.original.as_str().len();
            assert(len == utf8_len(w.original@));
            let mut points: u32 = 1;
            if len > 4 {
                points = #[verifier::truncate] (len as u16) as u32;
            }
            assert(points == base_points(w.original@));
            if w.is_pangram {
                if points > 32767 {
                    assert(!word_points_fit(ws[i as int]));
                    return false;
                }
                points = points * 2;
            }
            assert(points == word_points(ws[i as int]));
            assert(ws.take(i + 1).drop_last() =~= ws.take(i as int));
            if total + points > 65535 {
                proof {
                    lemma_sum_word_points_prefix(ws, i + 1);
                }
                return false;
            }
            total = total + points;
            i = i + 1;
        }
        assert(ws.take(n as int) =~= ws);
        true
    }

    /// A copy of the puzzle.
    pub fn duplicate(&self) -> (r: Game)
        ensures
            r.main_letter == self.main_letter,
            r.secondary_letters@ == self.secondary_letters@,
            r.words@ == self.words@,
    {
        let n: usize = self.words.len();
        let mut words: Vec<Word> = Vec::new();
        let mut i: usize = 0;
        while i < n
            invariant
                n == self.words@.len(),
                i <= n,
                words@ == self.words@.take(i as int),
            decreases n - i,
        {
            let w = &self.words[i];
            let copy = Word {
                original: w.original.clone(),
                normalized: NormalizedString(w.normalized.0.clone()),
                is_pangram: w.is_pangram,
            };
            assert(copy == self.words@[i as int]);
            words.push(copy);
            assert(words@ =~= self.words@.take(i + 1));
            i = i + 1;
        }
        assert(self.words@.take(n as int) =~= self.words@);
        Game { main_letter: self.main_letter, secondary_letters: self.secondary_letters, words }
    }
}

impl ActiveGame {
    /// Marks every word as no longer animated.
    pub fn clear_effects(&mut self)
        ensures
            final(self)@ == without_effects(old(self)@),
    {
        let n: usize = self.words.len();
        let mut i: usize = 0;
        while i < n
            invariant
                n == self.words@.len(),
                i <= n,
                self@ == (GameState { words: self@.words, ..old(self)@ }),
                self@.words.len() == old(self)@.words.len(),
                forall|k: int| 0 <= k < i ==> #[trigger] self@.words[k] == (WordState { has_effect: false, ..old(self)@.words[k] }),
                forall|k: int| i <= k < n ==> #[trigger] self@.words[k] == old(self)@.words[k],
            decreases n - i,
        {
            let ghost before = self.words@;
            assert(self@.words[i as int] == old(self)@.words[i as int]);
            assert(before[i as int]@ == old(self)@.words[i as int]);
            self.words[i].has_effect = false;
            proof {
                assert(self.words@ == before.update(i as int, ActiveGameWord { has_effect: false, ..before[i as int] }));
                assert forall|k: int| 0 <= k < n implies #[trigger] self@.words[k] == if k == i {
                    WordState { has_effect: false, ..old(self)@.words[k] }
                } else {
                    before.map_values(|w: ActiveGameWord| w@)[k]
                } by {
                    assert(self@.words[k] == self.words@[k]@);
                }
            }
            i = i + 1;
        }
        assert(self@.words =~= without_effects(old(self)@).words);
    }
}

/// Clearing the animations changes nothing that scoring reads.
pub proof fn lemma_without_effects_wf(g: GameState)
    ensures
        without_effects(g).wf() == g.wf(),
    decreases g.words.len(),
{
    lemma_effects_sums(g.words);
}

proof fn lemma_effects_sums(ws: Seq<WordState>)
    ensures
        all_points(ws.map_values(|w: WordState| WordState { has_effect: false, ..w })) == all_points(ws),
        discovered_points(ws.map_values(|w: WordState| WordState { has_effect: false, ..w })) == discovered_points(ws),
        discovered_count(ws.map_values(|w: WordState| WordState { has_effect: false, ..w })) == discovered_count(ws),
    decreases ws.len(),
{
    if ws.len() > 0 {
        assert(ws.map_values(|w: WordState| WordState { has_effect: false, ..w }).drop_last() =~= ws.drop_last().map_values(
            |w: WordState| WordState { has_effect: false, ..w },
        ));
        lemma_effects_sums(ws.drop_last());
    }
}

/// A successful guess answers the position of an undiscovered word, with
/// that word's points, and discovers it.
pub proof fn lemma_success_index(g: GameState, guess: Seq<char>)
    requires
        g.words.len() <= usize::MAX,
    ensures
        guess_spec(g, guess).1 matches GuessResult::Success { index, points, .. } ==> {
            &&& 0 <= index < g.words.len()
            &&& !g.words[index as int].discovered
            &&& points == g.words[index as int].points
            &&& guess_spec(g, guess).0 == g.discover(index as int)
        },
        guess_spec(g, guess).1 is Failure ==> guess_spec(g, guess).0 == g,
{
    if let Some(n) = normalize_text_spec(guess) {
        lemma_find_word_found(g.words, n);
    }
}

proof fn lemma_find_word_update(ws: Seq<WordState>, n: Seq<char>, k: int, w: WordState)
    requires
        0 <= k < ws.len(),
        w.normalized == ws[k].normalized,
    ensures
        find_word(ws.update(k, w), n) == find_word(ws, n),
    decreases ws.len(),
{
    let u = ws.update(k, w);
    if k > 0 {
        assert(u.drop_first() =~= ws.drop_first().update(k - 1, w));
        lemma_find_word_update(ws.drop_first(), n, k - 1, w);
    } else {
        assert(u.drop_first() =~= ws.drop_first());
    }
}

proof fn lemma_all_discovered(ws: Seq<WordState>)
    ensures
        discovered_count(ws) == ws.len() <==> forall|i: int| 0 <= i < ws.len() ==> (#[trigger] ws[i]).discovered,
    decreases ws.len(),
{
    if ws.len() > 0 {
        lemma_all_discovered(ws.drop_last());
        lemma_sums_bounds(ws.drop_last());
        if forall|i: int| 0 <= i < ws.len() ==> (#[trigger] ws[i]).discovered {
            assert forall|i: int| 0 <= i < ws.drop_last().len() implies (#[trigger] ws.drop_last()[i]).discovered by {
                assert(ws.drop_last()[i] == ws[i]);
            }
        }
        if discovered_count(ws) == ws.len() {
            assert forall|i: int| 0 <= i < ws.len() implies (#[trigger] ws[i]).discovered by {
                if i < ws.len() - 1 {
                    assert(ws.drop_last()[i] == ws[i]);
                }
            }
        }
    }
}

/// A guess keeps the totals of a puzzle in agreement with its words, and
/// neither adds nor removes words.
pub proof fn law_guess_keeps_puzzle_consistent(g: GameState, guess: Seq<char>)
    requires
        g.wf(),
    ensures
        guess_spec(g, guess).0.wf(),
        guess_spec(g, guess).0.words.len() == g.words.len(),
{
    if let Some(n) = normalize_text_spec(guess) {
        if letters_allowed(g, n) && n.len() >= 4 {
            lemma_find_word_found(g.words, n);
            if let Some(k) = find_word(g.words, n) {
                if !g.words[k].discovered {
                    lemma_discovered_bound(g.words, k);
                    lemma_sums_bounds(g.words);
                    let g2 = g.discover(k);
                    lemma_discover_sums(g.words, k, g2.words[k]);
                }
            }
        }
    }
}

/// On a puzzle whose totals agree with its words, every guess can be
/// scored without overflow.
pub proof fn law_consistent_puzzle_takes_any_guess(g: GameState, guess: Seq<char>)
    requires
        g.wf(),
    ensures
        guess_fits(g, guess),
{
    if let Some(n) = normalize_text_spec(guess) {
        lemma_find_word_found(g.words, n);
        if guess_spec(g, guess).1 is Success {
            let k = find_word(g.words, n)->0;
            lemma_discovered_bound(g.words, k);
            lemma_sums_bounds(g.words);
        }
    }
}

/// A refused guess leaves the puzzle as it was.
pub proof fn law_refused_guess_changes_nothing(g: GameState, guess: Seq<char>)
    ensures
        guess_spec(g, guess).1 is Failure ==> guess_spec(g, guess).0 == g,
{
}

/// The points earned never exceed the total.
pub proof fn law_points_within_total(g: GameState)
    requires
        g.wf(),
    ensures
        g.points <= g.total_points,
        g.found_words <= g.words.len(),
{
    lemma_sums_bounds(g.words);
}

/// A guess that succeeded once is answered "already discovered" the next
/// time, and changes nothing then.
pub proof fn law_word_scores_once(g: GameState, guess: Seq<char>)
    requires
        g.wf(),
        guess_spec(g, guess).1 is Success,
    ensures
        guess_spec(guess_spec(g, guess).0, guess).1 == GuessResult::Failure(BadGuess::AlreadyDiscovered),
        guess_spec(guess_spec(g, guess).0, guess).0 == guess_spec(g, guess).0,
{
    let n = normalize_text_spec(guess)->0;
    let k = find_word(g.words, n)->0;
    lemma_find_word_found(g.words, n);
    let g2 = g.discover(k);
    lemma_find_word_update(g.words, n, k, g2.words[k]);
}

/// A successful guess discovers the word at the index it answers, with
/// that word's normalized form equal to the normalized guess, and earns
/// exactly the points it answers.
pub proof fn law_success_earns_word_points(g: GameState, guess: Seq<char>)
    requires
        g.wf(),
    ensures
        guess_spec(g, guess).1 matches GuessResult::Success { index, points, is_pangram, .. } ==> {
            let g2 = guess_spec(g, guess).0;
            &&& 0 <= index < g.words.len()
            &&& !g.words[index as int].discovered
            &&& g2.words[index as int].discovered
            &&& Some(g.words[index as int].normalized) == normalize_text_spec(guess)
            &&& points == g.words[index as int].points
            &&& is_pangram == g.words[index as int].is_pangram
            &&& g2.points == g.points + points
        },
{
    if let Some(n) = normalize_text_spec(guess) {
        lemma_find_word_found(g.words, n);
        if guess_spec(g, guess).1 is Success {
            let k = find_word(g.words, n)->0;
            lemma_discovered_bound(g.words, k);
            lemma_sums_bounds(g.words);
        }
    }
}

/// A successful guess ends the puzzle exactly when every word of the
/// puzzle is then discovered.
pub proof fn law_game_over_when_all_found(g: GameState, guess: Seq<char>)
    requires
        g.wf(),
    ensures
        guess_spec(g, guess).1 matches GuessResult::Success { is_game_over, .. } ==> (is_game_over
            <==> forall|i: int|
            0 <= i < guess_spec(g, guess).0.words.len() ==> (#[trigger] guess_spec(g, guess).0.words[i]).discovered),
{
    law_guess_keeps_puzzle_consistent(g, guess);
    if let Some(n) = normalize_text_spec(guess) {
        lemma_find_word_found(g.words, n);
        if guess_spec(g, guess).1 is Success {
            let k = find_word(g.words, n)->0;
            lemma_discovered_bound(g.words, k);
            let g2 = guess_spec(g, guess).0;
            lemma_all_discovered(g2.words);
            lemma_sums_bounds(g2.words);
        }
    }
}

/// Guesses that normalize to the same word get the same answer: case,
/// accents and surrounding white space do not matter.
pub proof fn law_guess_sees_only_normalized_text(g: GameState, a: Seq<char>, b: Seq<char>)
    requires
        normalize_text_spec(a) == normalize_text_spec(b),
    ensures
        guess_spec(g, a) == guess_spec(g, b),
{
}

/// The order in which the secondary letters are shown does not change
/// how a guess is scored.
pub proof fn law_display_order_is_irrelevant(g: GameState, guess: Seq<char>, shown: Seq<char>)
    ensures
        guess_fits(GameState { secondary_letters: shown, ..g }, guess) == guess_fits(g, guess),
        guess_spec(GameState { secondary_letters: shown, ..g }, guess).1 == guess_spec(g, guess).1,
        guess_spec(GameState { secondary_letters: shown, ..g }, guess).0 == (GameState {
            secondary_letters: shown,
            ..guess_spec(g, guess).0
        }),
{
}

/// A puzzle after its letters were shown in each of the given orders, one
/// after another (as `shuffle` shows them).
pub open spec fn after_shuffles(g: GameState, orders: Seq<Seq<char>>) -> GameState
    decreases orders.len(),
{
    if orders.len() == 0 {
        g
    } else {
        GameState { secondary_letters: orders.last(), ..after_shuffles(g, orders.drop_last()) }
    }
}

/// A puzzle with its letters back in their original order (as
/// `reset_shuffle` puts them).
pub open spec fn reset_spec(g: GameState) -> GameState {
    GameState { secondary_letters: g.original_secondary_letters, ..g }
}

proof fn lemma_after_shuffles(g: GameState, orders: Seq<Seq<char>>)
    ensures
        after_shuffles(g, orders) == (GameState { secondary_letters: after_shuffles(g, orders).secondary_letters, ..g }),
    decreases orders.len(),
{
    if orders.len() > 0 {
        lemma_after_shuffles(g, orders.drop_last());
    }
}

/// However many times the letters are shuffled, putting them back gives
/// the puzzle with its letters in their original order and everything else
/// as before; a puzzle that showed its letters in their original order (as
/// every new puzzle does) is then exactly as it was.
pub proof fn law_reset_undoes_shuffles(g: GameState, orders: Seq<Seq<char>>)
    ensures
        reset_spec(after_shuffles(g, orders)) == reset_spec(g),
        g.secondary_letters == g.original_secondary_letters ==> reset_spec(after_shuffles(g, orders)) == g,
{
    lemma_after_shuffles(g, orders);
}

} // verus!
