//! Selecting the words of a language from the downloaded word lists.

use vstd::prelude::*;
use std::collections::HashSet;
use crate::text::{
    chars_of, string_of, trim_chars, trim_spec, lines_of, lines_spec, lowercase_text, lowercase_spec,
    split_once_chars, split_once_spec, parse_usize, parse_usize_spec, replace_char, replace_char_spec,
};
use crate::normalize::{NormalizedString, normalize_text_spec, all_in_alphabet, in_alphabet};
use crate::letters::{word_code, code_of, lemma_word_code_injective};
use crate::generate::{texts, char_views};

verus! {

/// The entries of a word list: its lines (after trimming the whole text),
/// each trimmed and lowercased.
pub open spec fn word_list_spec(text: Seq<char>) -> Seq<Seq<char>> {
    lines_spec(trim_spec(text)).map_values(|l: Seq<char>| lowercase_spec(trim_spec(l)))
}

/// The least frequency an English word needs to be used.
pub const EN_MIN_FREQUENCY: usize = 70_000;

/// The English words selected from the frequency list (lines of
/// `word<TAB>count`, most frequent first): reading stops at the first
/// count below `EN_MIN_FREQUENCY`; lines without a tab or a count are
/// skipped; a word is kept when it normalizes to an entry of the
/// dictionary.
pub open spec fn english_select(lines: Seq<Seq<char>>, dictionary: Set<Seq<char>>) -> Seq<Seq<char>>
    decreases lines.len(),
{
    if lines.len() == 0 {
        Seq::empty()
    } else {
        let rest = english_select(lines.drop_first(), dictionary);
        match split_once_spec(lines[0], '\t') {
            None => rest,
            Some((word, freq)) => match parse_usize_spec(freq) {
                None => rest,
                Some(f) => if f < EN_MIN_FREQUENCY {
                    Seq::empty()
                } else {
                    match normalize_text_spec(word) {
                        None => rest,
                        Some(n) => if dictionary.contains(n) {
                            seq![word] + rest
                        } else {
                            rest
                        },
                    }
                },
            },
        }
    }
}

/// How the score of an entry of the Portuguese frequency list reads.
#[derive(Debug, Clone, Copy, PartialEq, Eq, Structural)]
pub enum ScoreClass {
    /// The score is not a number.
    Unparsable,
    /// The score is below the cutoff: the word is common enough.
    BelowCutoff,
    /// The score reaches the cutoff: this word and all after it are too rare.
    AtOrAboveCutoff,
}

/// The Portuguese words selected from the scored frequency list: reading
/// stops at the first score that reaches the cutoff; unreadable scores
/// are skipped; a word is kept when it normalizes to a verb of the verb
/// list, or (with `ç` read as `c`) to an entry of the word list.
pub open spec fn portuguese_select(
    entries: Seq<(Seq<char>, ScoreClass)>,
    word_list: Set<Seq<char>>,
    verbs: Set<Seq<char>>,
) -> Seq<Seq<char>>
    decreases entries.len(),
{
    if entries.len() == 0 {
        Seq::empty()
    } else {
        let rest = portuguese_select(entries.drop_first(), word_list, verbs);
        let (word, score) = entries[0];
        match score {
            ScoreClass::Unparsable => rest,
            ScoreClass::AtOrAboveCutoff => Seq::empty(),
            ScoreClass::BelowCutoff => match normalize_text_spec(word) {
                None => rest,
                Some(n) => if verbs.contains(n) || word_list.contains(replace_char_spec(n, 'ç', 'c')) {
                    seq![word] + rest
                } else {
                    rest
                },
            },
        }
    }
}

/// The entries of a frequency list with a separator: word and score, as
/// split at the first `sep` of each line (after trimming the whole text);
/// lines without `sep` are left out.
pub open spec fn scored_lines(lines: Seq<Seq<char>>, sep: char) -> Seq<(Seq<char>, Seq<char>)>
    decreases lines.len(),
{
    if lines.len() == 0 {
        Seq::empty()
    } else {
        let rest = scored_lines(lines.drop_first(), sep);
        match split_once_spec(lines[0], sep) {
            None => rest,
            Some(pair) => seq![pair] + rest,
        }
    }
}

/// The entries of a word list that are made of letters of the alphabet,
/// kept for lookups of normalized words.
struct WordSet {
    short: HashSet<u128>,
    long: Vec<Vec<char>>,
    items: Ghost<Seq<Seq<char>>>,
}

impl WordSet {
    spec fn wf(&self) -> bool {
        &&& forall|s: Seq<char>| all_in_alphabet(s) && s.len() <= 27 ==> (self.items@.contains(s)
            <==> #[trigger] self.short@.contains(word_code(s) as u128))
        &&& forall|s: Seq<char>| all_in_alphabet(s) && s.len() > 27 ==> (self.items@.contains(s)
            <==> #[trigger] char_views(self.long@).contains(s))
    }

    /// Whether a text over the alphabet is an entry.
    fn contains(&self, s: &[char]) -> (r: bool)
        requires
            self.wf(),
            all_in_alphabet(s@),
        ensures
            r == self.items@.contains(s@),
    {
        broadcast use vstd::std_specs::hash::group_hash_axioms;
        if s.len() <= 27 {
            proof {
                crate::letters::lemma_word_code(s@);
                crate::letters::lemma_pow25_bound(s@.len());
            }
            let c = code_of(s);
            assert(c == word_code(s@) as u128);
            let r = self.short.contains(&c);
            assert(r == self.short@.contains(word_code(s@) as u128));
            r
        } else {
            let n: usize = self.long.len();
            let mut i: usize = 0;
            while i < n
                invariant
                    i <= n,
                    n == self.long@.len(),
                    self.wf(),
                    all_in_alphabet(s@),
                    s@.len() > 27,
                    forall|k: int| 0 <= k < i ==> (#[trigger] self.long@[k])@ != s@,
                decreases n - i,
            {
                if vec_chars_equal(&self.long[i], s) {
                    assert(char_views(self.long@)[i as int] == s@);
                    assert(char_views(self.long@).contains(s@));
                    return true;
                }
                i = i + 1;
            }
            assert(!char_views(self.long@).contains(s@)) by {
                if char_views(self.long@).contains(s@) {
                    let k = choose|k: int| 0 <= k < n && char_views(self.long@)[k] == s@;
                    assert(self.long@[k]@ == s@);
                }
            }
            false
        }
    }
}

/// Whether two character sequences are equal.
fn vec_chars_equal(a: &Vec<char>, b: &[char]) -> (r: bool)
    ensures
        r == (a@ == b@),
{
    if a.len() != b.len() {
        return false;
    }
    let n: usize = a.len();
    let mut i: usize = 0;
    while i < n
        invariant
            i <= n,
            n == a@.len(),
            n == b@.len(),
            forall|k: int| 0 <= k < i ==> a@[k] == b@[k],
        decreases n - i,
    {
        if a[i] != b[i] {
            return false;
        }
        i = i + 1;
    }
    assert(a@ =~= b@);
    true
}

/// Whether every character of `s` is a letter of the alphabet.
fn is_alphabet_text(s: &Vec<char>) -> (r: bool)
    ensures
        r == all_in_alphabet(s@),
{
    let n: usize = s.len();
    let mut i: usize = 0;
    while i < n
        invariant
            i <= n,
            n == s@.len(),
            forall|k: int| 0 <= k < i ==> in_alphabet(#[trigger] s@[k]),
        decreases n - i,
    {
        let c = s[i];
        if !(c == 'a' || c == 'b' || c == 'c' || c == 'ç' || c == 'd' || c == 'e' || c == 'f' || c == 'g'
            || c == 'h' || c == 'i' || c == 'j' || c == 'l' || c == 'm' || c == 'n' || c == 'o' || c
            == 'p' || c == 'q' || c == 'r' || c == 's' || c == 't' || c == 'u' || c == 'v' || c == 'x'
            || c == 'z') {
            return false;
        }
        i = i + 1;
    }
    true
}

/// Gathers the entries of a list into a `WordSet`.
fn build_word_set(items: &Vec<Vec<char>>) -> (r: WordSet)
    ensures
        r.wf(),
        r.items@ == char_views(items@),
{
    broadcast use vstd::std_specs::hash::group_hash_axioms;
    let ghost iv = char_views(items@);
    let mut short: HashSet<u128> = HashSet::new();
    let mut long: Vec<Vec<char>> = Vec::new();
    let n: usize = items.len();
    let mut i: usize = 0;
    while i < n
        invariant
            i <= n,
            n == items@.len(),
            iv == char_views(items@),
            forall|s: Seq<char>| all_in_alphabet(s) && s.len() <= 27 ==> (iv.take(i as int).contains(s)
                <==> #[trigger] short@.contains(word_code(s) as u128)),
            forall|s: Seq<char>| all_in_alphabet(s) && s.len() > 27 ==> (iv.take(i as int).contains(s)
                <==> #[trigger] char_views(long@).contains(s)),
            forall|c: u128| #[trigger] short@.contains(c) ==> exists|s: Seq<char>| all_in_alphabet(s) && s.len() <= 27 && word_code(s) as u128 == c,
        decreases n - i,
    {
        let item = &items[i];
        let ghost x = iv[i as int];
        assert(item@ == x);
        let ghost short0 = short@;
        let ghost long0 = char_views(long@);
        assert(iv.take(i + 1) =~= iv.take(i as int).push(x));
        if is_alphabet_text(item) {
            if item.len() <= 27 {
                proof {
                    crate::letters::lemma_word_code(x);
                    crate::letters::lemma_pow25_bound(x.len());
                }
                let c = code_of(item.as_slice());
                short.insert(c);
                proof {
                    assert forall|s: Seq<char>| all_in_alphabet(s) && s.len() <= 27 implies (iv.take(i + 1).contains(s)
                        <==> #[trigger] short@.contains(word_code(s) as u128)) by {
                        vstd::seq_lib::lemma_seq_contains_after_push(iv.take(i as int), x, s);
                        crate::letters::lemma_word_code(s);
                        crate::letters::lemma_pow25_bound(s.len());
                        if word_code(s) as u128 == c {
                            lemma_word_code_injective(s, x);
                        }
                    }
                }
            } else {
                let copy = item.clone();
                long.push(copy);
                proof {
                    assert(char_views(long@) =~= long0.push(x));
                    assert forall|s: Seq<char>| all_in_alphabet(s) && s.len() > 27 implies (iv.take(i + 1).contains(s)
                        <==> #[trigger] char_views(long@).contains(s)) by {
                        vstd::seq_lib::lemma_seq_contains_after_push(iv.take(i as int), x, s);
                        vstd::seq_lib::lemma_seq_contains_after_push(long0, x, s);
                    }
                    assert forall|s: Seq<char>| all_in_alphabet(s) && s.len() <= 27 implies (iv.take(i + 1).contains(s)
                        <==> #[trigger] short@.contains(word_code(s) as u128)) by {
                        vstd::seq_lib::lemma_seq_contains_after_push(iv.take(i as int), x, s);
                    }
                }
            }
        } else {
            proof {
                assert forall|s: Seq<char>| all_in_alphabet(s) && s.len() <= 27 implies (iv.take(i + 1).contains(s)
                    <==> #[trigger] short@.contains(word_code(s) as u128)) by {
                    vstd::seq_lib::lemma_seq_contains_after_push(iv.take(i as int), x, s);
                }
                assert forall|s: Seq<char>| all_in_alphabet(s) && s.len() > 27 implies (iv.take(i + 1).contains(s)
                    <==> #[trigger] char_views(long@).contains(s)) by {
                    vstd::seq_lib::lemma_seq_contains_after_push(iv.take(i as int), x, s);
                }
            }
        }
        i = i + 1;
    }
    assert(iv.take(n as int) =~= iv);
    WordSet { short, long, items: Ghost(iv) }
}


/// The entries of a word list, as characters.
fn word_list_chars(text: &str) -> (r: Vec<Vec<char>>)
    ensures
        char_views(r@) == word_list_spec(text@),
{
    let all = chars_of(text);
    let trimmed = trim_chars(&all);
    let ls = lines_of(&trimmed);
    let ghost lv = ls@.map_values(|l: Vec<char>| l@);
    let n: usize = ls.len();
    let mut r: Vec<Vec<char>> = Vec::new();
    let mut i: usize = 0;
    while i < n
        invariant
            i <= n,
            n == ls@.len(),
            lv == ls@.map_values(|l: Vec<char>| l@),
            lv == lines_spec(trim_spec(text@)),
            char_views(r@) == lv.take(i as int).map_values(|l: Seq<char>| lowercase_spec(trim_spec(l))),
        decreases n - i,
    {
        let line = trim_chars(&ls[i]);
        let s = string_of(line.as_slice());
        let low = lowercase_text(s.as_str());
        let lc = chars_of(low.as_str());
        assert(lv[i as int] == ls@[i as int]@);
        let ghost r0 = char_views(r@);
        r.push(lc);
        assert(char_views(r@) =~= r0.push(lc@));
        assert(lv.take(i + 1).map_values(|l: Seq<char>| lowercase_spec(trim_spec(l))) =~= lv.take(i as int).map_values(|l: Seq<char>| lowercase_spec(trim_spec(l))).push(lowercase_spec(trim_spec(lv[i as int]))));
        i = i + 1;
    }
    assert(lv.take(n as int) =~= lv);
    r
}

/// The entries of a word list: its lines, trimmed and lowercased.
pub fn word_list(text: &str) -> (r: Vec<String>)
    ensures
        texts(r@) == word_list_spec(text@),
{
    let cs = word_list_chars(text);
    let n: usize = cs.len();
    let mut r: Vec<String> = Vec::new();
    let mut i: usize = 0;
    while i < n
        invariant
            i <= n,
            n == cs@.len(),
            texts(r@) == char_views(cs@).take(i as int),
        decreases n - i,
    {
        let ghost r0 = texts(r@);
        let st = string_of(cs[i].as_slice());
        r.push(st);
        assert(texts(r@) =~= r0.push(st@));
        assert(char_views(cs@).take(i + 1) =~= char_views(cs@).take(i as int).push(cs@[i as int]@));
        i = i + 1;
    }
    assert(char_views(cs@).take(n as int) =~= char_views(cs@));
    r
}

proof fn lemma_skip_step<A>(s: Seq<A>, i: int)
    requires
        0 <= i < s.len(),
    ensures
        s.skip(i).len() > 0,
        s.skip(i)[0] == s[i],
        s.skip(i).drop_first() == s.skip(i + 1),
{
    assert(s.skip(i).drop_first() =~= s.skip(i + 1));
}

/// Selects the English words: see `english_select`.
pub fn select_english_words(count_1w: &str, enable_1: &str) -> (r: Vec<String>)
    ensures
        texts(r@) == english_select(lines_spec(trim_spec(count_1w@)), word_list_spec(enable_1@).to_set()),
{
    let dict_chars = word_list_chars(enable_1);
    let dict = build_word_set(&dict_chars);
    let ghost dset = word_list_spec(enable_1@).to_set();
    let all = chars_of(count_1w);
    let trimmed = trim_chars(&all);
    let ls = lines_of(&trimmed);
    let ghost lv = ls@.map_values(|l: Vec<char>| l@);
    let n: usize = ls.len();
    let mut out: Vec<String> = Vec::new();
    let mut i: usize = 0;
    assert(lv.skip(0) =~= lv);
    assert(texts(out@) + english_select(lv, dset) =~= english_select(lv, dset));
    while i < n
        invariant_except_break
            english_select(lv, dset) == texts(out@) + english_select(lv.skip(i as int), dset),
        invariant
            i <= n,
            n == ls@.len(),
            lv == ls@.map_values(|l: Vec<char>| l@),
            dict.wf(),
            dict.items@ == word_list_spec(enable_1@),
            dset == word_list_spec(enable_1@).to_set(),
        ensures
            english_select(lv, dset) == texts(out@),
        decreases n - i,
    {
        let line = &ls[i];
        proof {
            lemma_skip_step(lv, i as int);
            assert(lv[i as int] == line@);
        }
        let ghost tail = english_select(lv.skip(i + 1), dset);
        match split_once_chars(line.as_slice(), '\t') {
            None => {},
            Some((word, freq)) => {
                match parse_usize(freq.as_slice()) {
                    None => {},
                    Some(f) => {
                        if f < EN_MIN_FREQUENCY {
                            assert(english_select(lv.skip(i as int), dset) == Seq::<Seq<char>>::empty());
                            assert(texts(out@) + Seq::<Seq<char>>::empty() =~= texts(out@));
                            break;
                        }
                        let ws = string_of(word.as_slice());
                        match NormalizedString::from_str(ws.as_str()) {
                            Err(_) => {},
                            Ok(normalized) => {
                                let key = chars_of(normalized.as_ref());
                                if dict.contains(key.as_slice()) {
                                    assert(dset.contains(key@));
                                    let ghost before = texts(out@);
                                    out.push(ws);
                                    assert(texts(out@) =~= before.push(word@));
                                    assert(before + (seq![word@] + tail) =~= texts(out@) + tail);
                                } else {
                                    assert(!dset.contains(key@)) by {
                                        if dset.contains(key@) {
                                            assert(word_list_spec(enable_1@).contains(key@));
                                        }
                                    }
                                }
                            },
                        }
                    },
                }
            },
        }
        i = i + 1;
    }
    proof {
        if i == n {
            assert(lv.skip(n as int) =~= Seq::<Seq<char>>::empty());
            assert(texts(out@) + Seq::<Seq<char>>::empty() =~= texts(out@));
        }
    }
    out
}


/// The lines of a frequency list that hold `sep`, split at its first
/// occurrence into word and score: see `scored_lines`.
pub fn split_scored_lines(text: &str, sep: char) -> (r: Vec<(String, String)>)
    ensures
        r@.map_values(|p: (String, String)| (p.0@, p.1@)) == scored_lines(lines_spec(trim_spec(text@)), sep),
{
    let all = chars_of(text);
    let trimmed = trim_chars(&all);
    let ls = lines_of(&trimmed);
    let ghost lv = ls@.map_values(|l: Vec<char>| l@);
    let n: usize = ls.len();
    let mut out: Vec<(String, String)> = Vec::new();
    let mut i: usize = 0;
    assert(lv.skip(0) =~= lv);
    assert(out@.map_values(|p: (String, String)| (p.0@, p.1@)) + scored_lines(lv, sep) =~= scored_lines(lv, sep));
    while i < n
        invariant
            i <= n,
            n == ls@.len(),
            lv == ls@.map_values(|l: Vec<char>| l@),
            scored_lines(lv, sep) == out@.map_values(|p: (String, String)| (p.0@, p.1@)) + scored_lines(lv.skip(i as int), sep),
        decreases n - i,
    {
        proof {
            lemma_skip_step(lv, i as int);
            assert(lv[i as int] == ls@[i as int]@);
        }
        let ghost tail = scored_lines(lv.skip(i + 1), sep);
        let ghost before = out@.map_values(|p: (String, String)| (p.0@, p.1@));
        match split_once_chars(ls[i].as_slice(), sep) {
            None => {},
            Some((a, b)) => {
                let pair = (string_of(a.as_slice()), string_of(b.as_slice()));
                out.push(pair);
                assert(out@.map_values(|p: (String, String)| (p.0@, p.1@)) =~= before.push((a@, b@)));
                assert(before + (seq![(a@, b@)] + tail) =~= before.push((a@, b@)) + tail);
            },
        }
        i = i + 1;
    }
    assert(lv.skip(n as int) =~= Seq::<Seq<char>>::empty());
    assert(out@.map_values(|p: (String, String)| (p.0@, p.1@)) + Seq::<(Seq<char>, Seq<char>)>::empty() =~= out@.map_values(|p: (String, String)| (p.0@, p.1@)));
    out
}

/// The views of scored entries.
pub open spec fn scored_views(v: Seq<(String, ScoreClass)>) -> Seq<(Seq<char>, ScoreClass)> {
    v.map_values(|p: (String, ScoreClass)| (p.0@, p.1))
}

/// Selects the Portuguese words: see `portuguese_select`.
pub fn select_portuguese_words(word_list_text: &str, verbs_text: &str, scored: &Vec<(String, ScoreClass)>) -> (r: Vec<String>)
    ensures
        texts(r@) == portuguese_select(scored_views(scored@), word_list_spec(word_list_text@).to_set(), word_list_spec(verbs_text@).to_set()),
{
    let list_chars = word_list_chars(word_list_text);
    let list = build_word_set(&list_chars);
    let verb_chars = word_list_chars(verbs_text);
    let verbs = build_word_set(&verb_chars);
    let ghost lset = word_list_spec(word_list_text@).to_set();
    let ghost vset = word_list_spec(verbs_text@).to_set();
    let ghost sv = scored_views(scored@);
    let n: usize = scored.len();
    let mut out: Vec<String> = Vec::new();
    let mut i: usize = 0;
    assert(sv.skip(0) =~= sv);
    assert(texts(out@) + portuguese_select(sv, lset, vset) =~= portuguese_select(sv, lset, vset));
    while i < n
        invariant_except_break
            portuguese_select(sv, lset, vset) == texts(out@) + portuguese_select(sv.skip(i as int), lset, vset),
        invariant
            i <= n,
            n == scored@.len(),
            sv == scored_views(scored@),
            list.wf(),
            list.items@ == word_list_spec(word_list_text@),
            verbs.wf(),
            verbs.items@ == word_list_spec(verbs_text@),
            lset == word_list_spec(word_list_text@).to_set(),
            vset == word_list_spec(verbs_text@).to_set(),
        ensures
            portuguese_select(sv, lset, vset) == texts(out@),
        decreases n - i,
    {
        proof {
            lemma_skip_step(sv, i as int);
        }
        let ghost tail = portuguese_select(sv.skip(i + 1), lset, vset);
        let (word, score) = &scored[i];
        assert(sv[i as int] == (word@, *score));
        match score {
            ScoreClass::Unparsable => {},
            ScoreClass::AtOrAboveCutoff => {
                assert(texts(out@) + Seq::<Seq<char>>::empty() =~= texts(out@));
                break;
            },
            ScoreClass::BelowCutoff => {
                match NormalizedString::from_str(word.as_str()) {
                    Err(_) => {},
                    Ok(normalized) => {
                        let key = chars_of(normalized.as_ref());
                        let is_verb = verbs.contains(key.as_slice());
                        let plain = replace_char(key.as_slice(), 'ç', 'c');
                        proof {
                            assert forall|k: int| 0 <= k < plain@.len() implies in_alphabet(#[trigger] plain@[k]) by {
                                assert(in_alphabet(key@[k]));
                            }
                        }
                        let in_list = list.contains(plain.as_slice());
                        proof {
                            if vset.contains(key@) {
                                assert(word_list_spec(verbs_text@).contains(key@));
                            }
                            if lset.contains(plain@) {
                                assert(word_list_spec(word_list_text@).contains(plain@));
                            }
                        }
                        if is_verb || in_list {
                            let ghost before = texts(out@);
                            out.push(word.clone());
                            assert(texts(out@) =~= before.push(word@));
                            assert(before + (seq![word@] + tail) =~= texts(out@) + tail);
                        }
                    },
                }
            },
        }
        i = i + 1;
    }
    proof {
        if i == n {
            assert(sv.skip(n as int) =~= Seq::<(Seq<char>, ScoreClass)>::empty());
            assert(texts(out@) + Seq::<Seq<char>>::empty() =~= texts(out@));
        }
    }
    out
}

/// A Portuguese word below the cutoff is selected when its normalized
/// form is a verb of the verb list, as it is (a verb with `ç`, such as
/// "começar", is looked up with its `ç`), whatever the word list holds;
/// it is also selected when that form, with `ç` read as `c`, is an entry
/// of the word list; otherwise it is passed over. The words after it are
/// selected as they would be alone.
pub proof fn law_portuguese_words_kept(
    w: Seq<char>,
    n: Seq<char>,
    rest: Seq<(Seq<char>, ScoreClass)>,
    word_list: Set<Seq<char>>,
    verbs: Set<Seq<char>>,
)
    requires
        normalize_text_spec(w) == Some(n),
    ensures
        verbs.contains(n) ==> portuguese_select(seq![(w, ScoreClass::BelowCutoff)] + rest, word_list, verbs)
            == seq![w] + portuguese_select(rest, word_list, verbs),
        word_list.contains(replace_char_spec(n, 'ç', 'c')) ==> portuguese_select(
            seq![(w, ScoreClass::BelowCutoff)] + rest,
            word_list,
            verbs,
        ) == seq![w] + portuguese_select(rest, word_list, verbs),
        !verbs.contains(n) && !word_list.contains(replace_char_spec(n, 'ç', 'c')) ==> portuguese_select(
            seq![(w, ScoreClass::BelowCutoff)] + rest,
            word_list,
            verbs,
        ) == portuguese_select(rest, word_list, verbs),
{
    let all = seq![(w, ScoreClass::BelowCutoff)] + rest;
    assert(all[0] == (w, ScoreClass::BelowCutoff));
    assert(all.drop_first() =~= rest);
}

} // verus!
