//! Building the puzzles from a word list: every set of seven letters used
//! by some word gives seven puzzles, one per choice of the main letter,
//! each with the words that can be spelled with its letters.

use vstd::prelude::*;
use itertools::Itertools;
use crate::collation::{DefaultCollator, collation, collates_before, collatable, collation_is_total_order, lemma_text_order, letter_before, lemma_letter_order, word_before, lemma_word_order, lemma_alphabet_collatable};
use crate::order::{sorted_by, all_in, lemma_insert_sorted, arranged, lemma_arranged, lemma_insert_to_set, lemma_push_to_set};
use crate::normalize::{all_normalizable, normalize_chars_spec, all_in_alphabet, in_alphabet, normalize_chars};
use crate::letters::{letters_spec, word_code, letters_of, code_of, lemma_word_code_injective, lemma_letters_in, alphabet, lemma_alphabet_index};
use crate::text::{chars_of, string_of};
use crate::game::{Word, Game, utf8_len};
use crate::normalize::NormalizedString;
use crate::letters::letter_index;
use std::collections::{HashMap, HashSet};

verus! {

/// The texts of a sequence of strings.
pub open spec fn texts(v: Seq<String>) -> Seq<Seq<char>> {
    v.map_values(|s: String| s@)
}

/// `parts` joined with `sep` between consecutive parts.
pub open spec fn join_spec(parts: Seq<Seq<char>>, sep: Seq<char>) -> Seq<char>
    decreases parts.len(),
{
    if parts.len() == 0 {
        Seq::empty()
    } else if parts.len() == 1 {
        parts[0]
    } else {
        join_spec(parts.drop_last(), sep) + sep + parts.last()
    }
}

/// Calls itertools' `join` on the strings; the contract claims the
/// concatenation with `sep` between consecutive strings (itertools writes
/// the first element, then the separator and the next element for each
/// further one).
#[verifier::external_body]
fn join_strings(parts: &Vec<String>, sep: &str) -> (r: String)
    ensures
        r@ == join_spec(texts(parts@), sep@),
{
    parts.iter().join(sep)
}

/// Inserts `w` into a list of spellings kept in collation order, unless
/// the collator finds it equal to one already there.
fn insert_spelling(list: &mut Vec<String>, w: &String, collator: &mut DefaultCollator)
    ensures
        texts(final(list)@) == texts(old(list)@) || exists|j: int|
            0 <= j <= old(list)@.len() && texts(final(list)@) == texts(old(list)@).insert(j, w@),
        collation_is_total_order() && sorted_by(texts(old(list)@), |a: Seq<char>, b: Seq<char>| collates_before(a, b))
            && all_in(texts(old(list)@), |s: Seq<char>| collatable(s)) && collatable(w@) ==> {
            &&& sorted_by(texts(final(list)@), |a: Seq<char>, b: Seq<char>| collates_before(a, b))
            &&& all_in(texts(final(list)@), |s: Seq<char>| collatable(s))
            &&& texts(final(list)@).to_set() == texts(old(list)@).to_set().insert(w@)
        },
{
    let n: usize = list.len();
    let mut j: usize = 0;
    while j < n
        invariant
            j <= n,
            n == list@.len(),
            *list == *old(list),
            forall|k: int| 0 <= k < j ==> collation(#[trigger] list@[k]@, w@) < 0,
        ensures
            j <= n,
            n == list@.len(),
            *list == *old(list),
            forall|k: int| 0 <= k < j ==> collation(#[trigger] list@[k]@, w@) < 0,
            j < n ==> collation(list@[j as int]@, w@) > 0,
        decreases n - j,
    {
        let c = collator.collate(list[j].as_str(), w.as_str());
        if c == 0 {
            proof {
                if collation_is_total_order() && all_in(texts(old(list)@), |s: Seq<char>| collatable(s)) && collatable(w@) {
                    assert(collatable(texts(list@)[j as int]));
                    assert(list@[j as int]@ == w@);
                    assert(texts(list@)[j as int] == w@);
                    assert(texts(list@).to_set().insert(w@) =~= texts(list@).to_set());
                }
            }
            return;
        }
        if c > 0 {
            break;
        }
        j = j + 1;
    }
    let ghost before = texts(list@);
    list.insert(j, w.clone());
    assert(texts(list@) =~= before.insert(j as int, w@));
    proof {
        if collation_is_total_order() && sorted_by(before, |a: Seq<char>, b: Seq<char>| collates_before(a, b))
            && all_in(before, |s: Seq<char>| collatable(s)) && collatable(w@) {
            lemma_text_order();
            if j < n {
                assert(collatable(before[j as int]));
                assert(collation(before[j as int], w@) > 0);
            }
            assert forall|k: int| 0 <= k < j implies collates_before(#[trigger] before[k], w@) by {
                assert(collation(old(list)@[k]@, w@) < 0);
            }
            lemma_insert_sorted(before, j as int, w@, |a: Seq<char>, b: Seq<char>| collates_before(a, b), |s: Seq<char>| collatable(s));
        }
    }
}


/// The longest word (in characters) that a puzzle can hold.
pub const MAX_CHARACTERS: usize = 19;

/// A word of the list is usable: every character has a normalized form,
/// it has four to `MAX_CHARACTERS` characters, and at most seven
/// distinct letters.
pub open spec fn accepted(w: Seq<char>) -> bool {
    &&& all_normalizable(w)
    &&& 4 <= w.len() <= MAX_CHARACTERS
    &&& letters_spec(normalize_chars_spec(w)).len() <= 7
}

/// The normalized forms of the usable words of a list.
pub open spec fn normalized_words(ws: Seq<Seq<char>>) -> Set<Seq<char>> {
    Set::new(|n: Seq<char>| exists|w: Seq<char>| #[trigger] ws.contains(w) && accepted(w) && normalize_chars_spec(w) == n)
}

/// The usable words of a list with normalized form `n`.
pub open spec fn spellings(ws: Seq<Seq<char>>, n: Seq<char>) -> Set<Seq<char>> {
    Set::new(|w: Seq<char>| ws.contains(w) && accepted(w) && normalize_chars_spec(w) == n)
}

/// The letter sets (in alphabet order) of the normalized words of a list
/// that use seven distinct letters.
pub open spec fn pangram_letter_sets(ws: Seq<Seq<char>>) -> Set<Seq<char>> {
    Set::new(|l: Seq<char>| exists|n: Seq<char>| #[trigger] normalized_words(ws).contains(n) && letters_spec(n) == l && l.len() == 7)
}

/// A normalized word met while reading the list, with its letters and its
/// spellings.
struct Entry {
    normalized: Vec<char>,
    letters: Vec<char>,
    spellings: Vec<String>,
}

spec fn entry_ok(pre: Seq<Seq<char>>, e: Entry) -> bool {
    let n = e.normalized@;
    &&& normalized_words(pre).contains(n)
    &&& all_in_alphabet(n)
    &&& 4 <= n.len() <= MAX_CHARACTERS
    &&& e.letters@ == letters_spec(n)
    &&& e.letters@.len() <= 7
    &&& forall|s: Seq<char>| texts(e.spellings@).contains(s) ==> #[trigger] spellings(pre, n).contains(s)
    &&& all_in(texts(e.spellings@), |s: Seq<char>| collatable(s))
    &&& collation_is_total_order() ==> {
        &&& sorted_by(texts(e.spellings@), |a: Seq<char>, b: Seq<char>| collates_before(a, b))
        &&& texts(e.spellings@).to_set() == spellings(pre, n)
    }
}

spec fn entries_ok(pre: Seq<Seq<char>>, es: Seq<Entry>, index: Map<u128, usize>) -> bool {
    &&& forall|k: int| 0 <= k < es.len() ==> entry_ok(pre, #[trigger] es[k])
    &&& forall|k1: int, k2: int|
        0 <= k1 < es.len() && 0 <= k2 < es.len() && k1 != k2 ==> (#[trigger] es[k1]).normalized@ != (#[trigger] es[k2]).normalized@
    &&& forall|n: Seq<char>| #[trigger] normalized_words(pre).contains(n) ==> exists|k: int|
        0 <= k < es.len() && (#[trigger] es[k]).normalized@ == n
    &&& forall|k: int| 0 <= k < es.len() ==> index.contains_key(word_code((#[trigger] es[k]).normalized@) as u128)
        && index[word_code(es[k].normalized@) as u128] == k
    &&& forall|c: u128| #[trigger] index.contains_key(c) ==> index[c] < es.len() && word_code(es[index[c] as int].normalized@) as u128 == c
}

spec fn pangrams_ok(pre: Seq<Seq<char>>, codes: Set<u128>, ps: Seq<Vec<char>>) -> bool {
    &&& forall|q: int| 0 <= q < ps.len() ==> pangram_letter_sets(pre).contains(#[trigger] ps[q]@)
    &&& forall|l: Seq<char>| #[trigger] pangram_letter_sets(pre).contains(l) ==> exists|q: int| 0 <= q < ps.len() && (#[trigger] ps[q])@ == l
    &&& forall|q: int| 0 <= q < ps.len() ==> codes.contains(word_code((#[trigger] ps[q])@) as u128)
    &&& forall|c: u128| #[trigger] codes.contains(c) ==> exists|q: int| 0 <= q < ps.len() && word_code((#[trigger] ps[q])@) as u128 == c
    &&& forall|q1: int, q2: int|
        0 <= q1 < ps.len() && 0 <= q2 < ps.len() && q1 != q2 ==> (#[trigger] ps[q1])@ != (#[trigger] ps[q2])@
}

proof fn lemma_take_contains(ws: Seq<Seq<char>>, i: int, w: Seq<char>)
    requires
        0 <= i < ws.len(),
    ensures
        ws.take(i + 1).contains(w) <==> (ws.take(i).contains(w) || w == ws[i]),
{
    if ws.take(i + 1).contains(w) {
        let k = choose|k: int| 0 <= k < i + 1 && #[trigger] ws.take(i + 1)[k] == w;
        if k < i {
            assert(ws.take(i)[k] == w);
        }
    }
    if ws.take(i).contains(w) {
        let k = choose|k: int| 0 <= k < i && #[trigger] ws.take(i)[k] == w;
        assert(ws.take(i + 1)[k] == w);
    }
    if w == ws[i] {
        assert(ws.take(i + 1)[i] == w);
    }
}

/// How the sets grow when one more word of the list is read.
proof fn lemma_sets_step(ws: Seq<Seq<char>>, i: int)
    requires
        0 <= i < ws.len(),
    ensures
        normalized_words(ws.take(i + 1)) == if accepted(ws[i]) {
            normalized_words(ws.take(i)).insert(normalize_chars_spec(ws[i]))
        } else {
            normalized_words(ws.take(i))
        },
        forall|n: Seq<char>| #[trigger] spellings(ws.take(i + 1), n) == if accepted(ws[i]) && normalize_chars_spec(ws[i]) == n {
            spellings(ws.take(i), n).insert(ws[i])
        } else {
            spellings(ws.take(i), n)
        },
        pangram_letter_sets(ws.take(i + 1)) == if accepted(ws[i]) && letters_spec(normalize_chars_spec(ws[i])).len() == 7 {
            pangram_letter_sets(ws.take(i)).insert(letters_spec(normalize_chars_spec(ws[i])))
        } else {
            pangram_letter_sets(ws.take(i))
        },
{
    let a = ws.take(i);
    let b = ws.take(i + 1);
    assert forall|w: Seq<char>| b.contains(w) <==> (a.contains(w) || w == ws[i]) by {
        lemma_take_contains(ws, i, w);
    }
    let nb = if accepted(ws[i]) {
        normalized_words(a).insert(normalize_chars_spec(ws[i]))
    } else {
        normalized_words(a)
    };
    assert(normalized_words(b) =~= nb) by {
        assert forall|n: Seq<char>| normalized_words(b).contains(n) implies nb.contains(n) by {
            let w = choose|w: Seq<char>| #[trigger] b.contains(w) && accepted(w) && normalize_chars_spec(w) == n;
            if a.contains(w) {
                assert(normalized_words(a).contains(n));
            }
        }
        assert forall|n: Seq<char>| nb.contains(n) implies normalized_words(b).contains(n) by {
            if normalized_words(a).contains(n) {
                let w = choose|w: Seq<char>| #[trigger] a.contains(w) && accepted(w) && normalize_chars_spec(w) == n;
                assert(b.contains(w));
            } else {
                assert(b.contains(ws[i]));
            }
        }
    }
    assert forall|n: Seq<char>| #[trigger] spellings(b, n) == if accepted(ws[i]) && normalize_chars_spec(ws[i]) == n {
        spellings(a, n).insert(ws[i])
    } else {
        spellings(a, n)
    } by {
        let sb = if accepted(ws[i]) && normalize_chars_spec(ws[i]) == n {
            spellings(a, n).insert(ws[i])
        } else {
            spellings(a, n)
        };
        assert(spellings(b, n) =~= sb);
    }
    let pb = if accepted(ws[i]) && letters_spec(normalize_chars_spec(ws[i])).len() == 7 {
        pangram_letter_sets(a).insert(letters_spec(normalize_chars_spec(ws[i])))
    } else {
        pangram_letter_sets(a)
    };
    assert(pangram_letter_sets(b) =~= pb) by {
        assert forall|l: Seq<char>| pangram_letter_sets(b).contains(l) implies pb.contains(l) by {
            let n = choose|n: Seq<char>| #[trigger] normalized_words(b).contains(n) && letters_spec(n) == l && l.len() == 7;
            if normalized_words(a).contains(n) {
                assert(pangram_letter_sets(a).contains(l));
            }
        }
        assert forall|l: Seq<char>| pb.contains(l) implies pangram_letter_sets(b).contains(l) by {
            if pangram_letter_sets(a).contains(l) {
                let n = choose|n: Seq<char>| #[trigger] normalized_words(a).contains(n) && letters_spec(n) == l && l.len() == 7;
                assert(normalized_words(b).contains(n));
            } else {
                assert(normalized_words(b).contains(normalize_chars_spec(ws[i])));
            }
        }
    }
}


proof fn lemma_code_fits(s: Seq<char>)
    requires
        all_in_alphabet(s),
        s.len() <= 27,
    ensures
        0 <= word_code(s) < 0x1_0000_0000_0000_0000_0000_0000_0000_0000,
        word_code(s) as u128 == word_code(s),
{
    crate::letters::lemma_word_code(s);
    crate::letters::lemma_pow25_bound(s.len());
}

proof fn lemma_letters_alphabet(n: Seq<char>)
    ensures
        all_in_alphabet(letters_spec(n)),
        letters_spec(n).len() <= 24,
        letters_spec(n).no_duplicates(),
        forall|c: char| #[trigger] letters_spec(n).contains(c) <==> (in_alphabet(c) && n.contains(c)),
{
    lemma_letters_in(alphabet(), n);
    crate::letters::lemma_alphabet_distinct();
    assert forall|c: char| #[trigger] letters_spec(n).contains(c) <==> (in_alphabet(c) && n.contains(c)) by {
        lemma_alphabet_index(c);
    }
    assert forall|i: int| 0 <= i < letters_spec(n).len() implies in_alphabet(#[trigger] letters_spec(n)[i]) by {
        assert(letters_spec(n).contains(letters_spec(n)[i]));
    }
}

/// The entries, without the index: every normalized word of the list
/// exactly once, each with its letters and spellings.
spec fn entries_listing(pre: Seq<Seq<char>>, es: Seq<Entry>) -> bool {
    &&& forall|k: int| 0 <= k < es.len() ==> entry_ok(pre, #[trigger] es[k])
    &&& forall|k1: int, k2: int|
        0 <= k1 < es.len() && 0 <= k2 < es.len() && k1 != k2 ==> (#[trigger] es[k1]).normalized@ != (#[trigger] es[k2]).normalized@
    &&& forall|n: Seq<char>| #[trigger] normalized_words(pre).contains(n) ==> exists|k: int|
        0 <= k < es.len() && (#[trigger] es[k]).normalized@ == n
}

/// The pangram letter sets, without the codes: every letter set of seven
/// letters exactly once.
spec fn pangram_listing(pre: Seq<Seq<char>>, ps: Seq<Vec<char>>) -> bool {
    &&& forall|q: int| 0 <= q < ps.len() ==> pangram_letter_sets(pre).contains(#[trigger] ps[q]@)
    &&& forall|l: Seq<char>| #[trigger] pangram_letter_sets(pre).contains(l) ==> exists|q: int| 0 <= q < ps.len() && (#[trigger] ps[q])@ == l
    &&& forall|q1: int, q2: int|
        0 <= q1 < ps.len() && 0 <= q2 < ps.len() && q1 != q2 ==> (#[trigger] ps[q1])@ != (#[trigger] ps[q2])@
}

/// Reads the word list: lists each normalized word once with its letters
/// and its spellings, and each set of seven letters once.
fn collect_entries(words: &Vec<String>, collator: &mut DefaultCollator) -> (r: (Vec<Entry>, Vec<Vec<char>>))
    ensures
        entries_listing(texts(words@), r.0@),
        pangram_listing(texts(words@), r.1@),
{
    broadcast use vstd::std_specs::hash::group_hash_axioms;
    let ghost ws = texts(words@);
    let n: usize = words.len();
    let mut entries: Vec<Entry> = Vec::new();
    let mut index: HashMap<u128, usize> = HashMap::new();
    let mut pangram_codes: HashSet<u128> = HashSet::new();
    let mut pangrams: Vec<Vec<char>> = Vec::new();
    let mut i: usize = 0;
    assert(ws.take(0) =~= Seq::<Seq<char>>::empty());
    assert(normalized_words(ws.take(0)) =~= Set::empty());
    assert(pangram_letter_sets(ws.take(0)) =~= Set::empty());
    while i < n
        invariant
            i <= n,
            n == words@.len(),
            ws == texts(words@),
            entries_ok(ws.take(i as int), entries@, index@),
            pangrams_ok(ws.take(i as int), pangram_codes@, pangrams@),
        decreases n - i,
    {
        let w = &words[i];
        let chars = chars_of(w.as_str());
        let ghost wv = ws[i as int];
        assert(wv == chars@);
        proof {
            lemma_sets_step(ws, i as int);
        }
        let ghost pre = ws.take(i as int);
        let ghost post = ws.take(i + 1);
        let mut handled = false;
        if 4 <= chars.len() && chars.len() <= MAX_CHARACTERS {
            match normalize_chars(&chars) {
                Some(nv) => {
                    let letters = letters_of(&nv);
                    proof {
                        lemma_letters_alphabet(nv@);
                    }
                    if letters.len() <= 7 {
                        handled = true;
                        assert(accepted(wv));
                        assert(normalize_chars_spec(wv) == nv@);
                        proof {
                            lemma_code_fits(nv@);
                        }
                        let code = code_of(&nv);
                        let found = match index.get(&code) {
                            Some(k) => Some(*k),
                            None => None,
                        };
                        match found {
                            Some(k) => {
                                let ghost es = entries@;
                                proof {
                                    assert(index@.contains_key(code));
                                    let e = es[k as int];
                                    assert(entry_ok(pre, e));
                                    lemma_code_fits(e.normalized@);
                                    lemma_word_code_injective(e.normalized@, nv@);
                                }
                                insert_spelling(&mut entries[k].spellings, w, collator);
                                proof {
                                    let es2 = entries@;
                                    assert(es2.len() == es.len());
                                    assert forall|m: int| 0 <= m < es2.len() implies entry_ok(post, #[trigger] es2[m]) by {
                                        if m == k {
                                            let e2 = es2[m];
                                            let nn = e2.normalized@;
                                            assert(nn == nv@);
                                            assert(spellings(post, nn) == spellings(pre, nn).insert(wv));
                                            assert forall|s: Seq<char>| texts(e2.spellings@).contains(s) implies #[trigger] spellings(post, nn).contains(s) by {
                                                if s != wv {
                                                    if texts(es[k as int].spellings@) == texts(e2.spellings@) {
                                                    } else {
                                                        let j = choose|j: int| 0 <= j <= es[k as int].spellings@.len() && texts(e2.spellings@) == texts(es[k as int].spellings@).insert(j, wv);
                                                        let t = choose|t: int| 0 <= t < texts(e2.spellings@).len() && texts(e2.spellings@)[t] == s;
                                                        if t < j {
                                                            assert(texts(es[k as int].spellings@)[t] == s);
                                                        } else {
                                                            assert(texts(es[k as int].spellings@)[t - 1] == s);
                                                        }
                                                        assert(texts(es[k as int].spellings@).contains(s));
                                                    }
                                                } else {
                                                    assert(post.contains(wv)) by {
                                                        assert(post[i as int] == wv);
                                                    }
                                                }
                                            }
                                            assert(all_in(texts(e2.spellings@), |s: Seq<char>| collatable(s))) by {
                                                assert forall|t: int| 0 <= t < texts(e2.spellings@).len() implies collatable(#[trigger] texts(e2.spellings@)[t]) by {
                                                    let s = texts(e2.spellings@)[t];
                                                    if s == wv {
                                                    } else if texts(es[k as int].spellings@) == texts(e2.spellings@) {
                                                        assert(collatable(texts(es[k as int].spellings@)[t]));
                                                    } else {
                                                        let j = choose|j: int| 0 <= j <= es[k as int].spellings@.len() && texts(e2.spellings@) == texts(es[k as int].spellings@).insert(j, wv);
                                                        if t < j {
                                                            assert(collatable(texts(es[k as int].spellings@)[t]));
                                                        } else if t > j {
                                                            assert(collatable(texts(es[k as int].spellings@)[t - 1]));
                                                        }
                                                    }
                                                }
                                            }
                                        } else {
                                            assert(es2[m] == es[m]);
                                            assert(es[m].normalized@ != nv@);
                                            let nn = es[m].normalized@;
                                            assert(spellings(post, nn) == spellings(pre, nn));
                                        }
                                    }
                                    assert forall|nn: Seq<char>| #[trigger] normalized_words(post).contains(nn) implies exists|m: int|
                                        0 <= m < es2.len() && (#[trigger] es2[m]).normalized@ == nn by {
                                        assert(normalized_words(pre).contains(nn));
                                        let m = choose|m: int| 0 <= m < es.len() && (#[trigger] es[m]).normalized@ == nn;
                                        assert(es2[m].normalized@ == nn);
                                    }
                                    assert forall|m: int| 0 <= m < es2.len() implies (#[trigger] es2[m]).normalized@ == es[m].normalized@ by {
                                    }
                                }
                            },
                            None => {
                                let ghost es = entries@;
                                let ghost idx0 = index@;
                                proof {
                                    assert(!index@.contains_key(code));
                                    assert forall|m: int| 0 <= m < es.len() implies (#[trigger] es[m]).normalized@ != nv@ by {
                                        assert(entry_ok(pre, es[m]));
                                        lemma_code_fits(es[m].normalized@);
                                    }
                                    assert(!normalized_words(pre).contains(nv@));
                                    assert(spellings(pre, nv@) =~= Set::empty()) by {
                                        assert forall|s: Seq<char>| !spellings(pre, nv@).contains(s) by {
                                            if spellings(pre, nv@).contains(s) {
                                                assert(normalized_words(pre).contains(nv@));
                                            }
                                        }
                                    }
                                }
                                index.insert(code, entries.len());
                                let mut sp: Vec<String> = Vec::new();
                                sp.push(w.clone());
                                let entry = Entry { normalized: nv, letters: letters.clone(), spellings: sp };
                                entries.push(entry);
                                proof {
                                    let es2 = entries@;
                                    let k = es.len() as int;
                                    assert(texts(es2[k].spellings@) =~= seq![wv]);
                                    assert(post.contains(wv)) by {
                                        assert(post[i as int] == wv);
                                    }
                                    assert(spellings(post, nv@) == spellings(pre, nv@).insert(wv));
                                    assert(texts(es2[k].spellings@).to_set() =~= spellings(post, nv@)) by {
                                        assert(seq![wv].contains(wv)) by {
                                            assert(seq![wv][0] == wv);
                                        }
                                    }
                                    assert forall|s: Seq<char>| texts(es2[k].spellings@).contains(s) implies #[trigger] spellings(post, nv@).contains(s) by {
                                        let t = choose|t: int| 0 <= t < 1 && texts(es2[k].spellings@)[t] == s;
                                    }
                                    assert(entry_ok(post, es2[k]));
                                    assert forall|m: int| 0 <= m < es2.len() implies entry_ok(post, #[trigger] es2[m]) by {
                                        if m < k {
                                            assert(es2[m] == es[m]);
                                            let nn = es[m].normalized@;
                                            assert(spellings(post, nn) == spellings(pre, nn));
                                        }
                                    }
                                    assert forall|nn: Seq<char>| #[trigger] normalized_words(post).contains(nn) implies exists|m: int|
                                        0 <= m < es2.len() && (#[trigger] es2[m]).normalized@ == nn by {
                                        if nn == nv@ {
                                            assert(es2[k].normalized@ == nn);
                                        } else {
                                            assert(normalized_words(pre).contains(nn));
                                            let m = choose|m: int| 0 <= m < es.len() && (#[trigger] es[m]).normalized@ == nn;
                                            assert(es2[m].normalized@ == nn);
                                        }
                                    }
                                    assert forall|m: int| 0 <= m < es2.len() implies index@.contains_key(word_code((#[trigger] es2[m]).normalized@) as u128)
                                        && index@[word_code(es2[m].normalized@) as u128] == m by {
                                        if m < k {
                                            assert(es2[m] == es[m]);
                                            assert(entry_ok(pre, es[m]));
                                            lemma_code_fits(es[m].normalized@);
                                        }
                                    }
                                    assert forall|c: u128| #[trigger] index@.contains_key(c) implies index@[c] < es2.len() && word_code(es2[index@[c] as int].normalized@) as u128 == c by {
                                        if c != code {
                                            assert(idx0.contains_key(c));
                                            assert(es2[idx0[c] as int] == es[idx0[c] as int]);
                                        }
                                    }
                                }
                            },
                        }
                        if letters.len() == 7 {
                            let ghost ps = pangrams@;
                            proof {
                                lemma_code_fits(letters@);
                            }
                            let pc = code_of(&letters);
                            let ghost old_codes = pangram_codes@;
                            let fresh = pangram_codes.insert(pc);
                            let ghost l = letters@;
                            assert(pangram_letter_sets(post).contains(l)) by {
                                assert(normalized_words(post).contains(nv@));
                            }
                            let ghost codes0 = old_codes;
                            if fresh {
                                proof {
                                    assert(!codes0.contains(pc));
                                    assert forall|q: int| 0 <= q < ps.len() implies (#[trigger] ps[q])@ != l by {
                                        assert(pangram_letter_sets(pre).contains(ps[q]@));
                                        assert(codes0.contains(word_code(ps[q]@) as u128));
                                    }
                                }
                                pangrams.push(letters);
                                proof {
                                    let ps2 = pangrams@;
                                    assert(ps2[ps.len() as int]@ == l);
                                    assert forall|q: int| 0 <= q < ps2.len() implies pangram_letter_sets(post).contains(#[trigger] ps2[q]@) by {
                                        if q < ps.len() {
                                            assert(ps2[q] == ps[q]);
                                        }
                                    }
                                    assert forall|lq: Seq<char>| #[trigger] pangram_letter_sets(post).contains(lq) implies exists|q: int| 0 <= q < ps2.len() && (#[trigger] ps2[q])@ == lq by {
                                        if lq == l {
                                            assert(ps2[ps.len() as int]@ == lq);
                                        } else {
                                            assert(pangram_letter_sets(pre).contains(lq));
                                            let q = choose|q: int| 0 <= q < ps.len() && (#[trigger] ps[q])@ == lq;
                                            assert(ps2[q] == ps[q]);
                                        }
                                    }
                                    assert forall|q: int| 0 <= q < ps2.len() implies pangram_codes@.contains(word_code((#[trigger] ps2[q])@) as u128) by {
                                        if q < ps.len() {
                                            assert(ps2[q] == ps[q]);
                                        }
                                    }
                                    assert forall|c: u128| #[trigger] pangram_codes@.contains(c) implies exists|q: int| 0 <= q < ps2.len() && word_code((#[trigger] ps2[q])@) as u128 == c by {
                                        if c == pc {
                                            assert(word_code(ps2[ps.len() as int]@) as u128 == c);
                                        } else {
                                            assert(codes0.contains(c));
                                            let q = choose|q: int| 0 <= q < ps.len() && word_code((#[trigger] ps[q])@) as u128 == c;
                                            assert(ps2[q] == ps[q]);
                                        }
                                    }
                                    assert forall|q1: int, q2: int|
                                        0 <= q1 < ps2.len() && 0 <= q2 < ps2.len() && q1 != q2 implies (#[trigger] ps2[q1])@ != (#[trigger] ps2[q2])@ by {
                                        if q1 < ps.len() {
                                            assert(ps2[q1] == ps[q1]);
                                        }
                                        if q2 < ps.len() {
                                            assert(ps2[q2] == ps[q2]);
                                        }
                                    }
                                    assert(pangrams_ok(post, pangram_codes@, pangrams@));
                                }
                            } else {
                                proof {
                                    let q = choose|q: int| 0 <= q < ps.len() && word_code((#[trigger] ps[q])@) as u128 == pc;
                                    let lq = ps[q]@;
                                    assert(pangram_letter_sets(pre).contains(lq));
                                    let nq = choose|nq: Seq<char>| #[trigger] normalized_words(pre).contains(nq) && letters_spec(nq) == lq && lq.len() == 7;
                                    lemma_letters_alphabet(nq);
                                    lemma_code_fits(lq);
                                    lemma_word_code_injective(lq, l);
                                    assert(pangram_codes@ == codes0);
                                    assert forall|lx: Seq<char>| #[trigger] pangram_letter_sets(post).contains(lx) implies exists|q: int| 0 <= q < ps.len() && (#[trigger] ps[q])@ == lx by {
                                        if lx == l {
                                            assert(ps[q]@ == lx);
                                        } else {
                                            assert(pangram_letter_sets(pre).contains(lx));
                                        }
                                    }
                                    assert(pangrams_ok(post, pangram_codes@, pangrams@));
                                }
                            }
                        }
                    }
                },
                None => {},
            }
        }
        if !handled {
            assert(!accepted(wv)) by {
                if accepted(wv) {
                    lemma_letters_alphabet(normalize_chars_spec(wv));
                }
            }
            assert forall|nn: Seq<char>| #[trigger] spellings(post, nn) == spellings(pre, nn) by {}
        }
        i = i + 1;
    }
    assert(ws.take(n as int) =~= ws);
    (entries, pangrams)
}


/// Sorts distinct letters by the collation of their one-letter texts.
fn sort_letters(letters: &Vec<char>, collator: &mut DefaultCollator) -> (r: Vec<char>)
    ensures
        r@.to_set() == letters@.to_set(),
        r@.len() == letters@.len(),
        collation_is_total_order() && all_in_alphabet(letters@) && letters@.no_duplicates() ==> sorted_by(
            r@,
            |a: char, b: char| letter_before(a, b),
        ),
{
    let n: usize = letters.len();
    let mut out: Vec<char> = Vec::new();
    let mut strs: Vec<String> = Vec::new();
    let mut i: usize = 0;
    while i < n
        invariant
            i <= n,
            n == letters@.len(),
            out@.len() == i,
            strs@.len() == i,
            forall|k: int| 0 <= k < i ==> (#[trigger] strs@[k])@ == seq![out@[k]],
            out@.to_set() == letters@.take(i as int).to_set(),
            collation_is_total_order() && all_in_alphabet(letters@) && letters@.no_duplicates() ==> {
                &&& sorted_by(out@, |a: char, b: char| letter_before(a, b))
                &&& all_in(out@, |c: char| in_alphabet(c))
            },
        decreases n - i,
    {
        let c = letters[i];
        let one: Vec<char> = vec![c];
        let cs = string_of(one.as_slice());
        assert(one@ =~= seq![c]);
        let m: usize = out.len();
        let mut j: usize = 0;
        while j < m && collator.collate(strs[j].as_str(), cs.as_str()) < 0
            invariant
                j <= m,
                m == out@.len(),
                m == strs@.len(),
                cs@ == seq![c],
                forall|k: int| 0 <= k < m ==> (#[trigger] strs@[k])@ == seq![out@[k]],
                forall|k: int| 0 <= k < j ==> letter_before(#[trigger] out@[k], c),
            decreases m - j,
        {
            assert(strs@[j as int]@ == seq![out@[j as int]]);
            j = j + 1;
        }
        let ghost before = out@;
        proof {
            if j < m {
                assert(strs@[j as int]@ == seq![out@[j as int]]);
                assert(collation(seq![out@[j as int]], seq![c]) >= 0);
            }
        }
        out.insert(j, c);
        strs.insert(j, cs);
        proof {
            assert(letters@.take(i + 1) =~= letters@.take(i as int).push(c));
            assert(out@ == before.insert(j as int, c));
            crate::order::lemma_insert_to_set(before, j as int, c);
            crate::order::lemma_push_to_set(letters@.take(i as int), c);
            assert forall|k: int| 0 <= k < i + 1 implies (#[trigger] strs@[k])@ == seq![out@[k]] by {
                if k < j {
                } else if k > j {
                }
            }
            if collation_is_total_order() && all_in_alphabet(letters@) && letters@.no_duplicates() {
                lemma_letter_order();
                assert(in_alphabet(letters@[i as int]));
                if j < m {
                    let d = before[j as int];
                    assert(before.to_set().contains(d));
                    assert(letters@.take(i as int).to_set().contains(d));
                    let t = choose|t: int| 0 <= t < i && letters@.take(i as int)[t] == d;
                    assert(letters@[t] == d);
                    assert(d != c);
                    assert(in_alphabet(d));
                    assert(seq![d] != seq![c]) by {
                        assert(seq![d][0] != seq![c][0]);
                    }
                    assert(collatable(seq![d]) && collatable(seq![c]));
                    assert(letter_before(c, d));
                }
                lemma_insert_sorted(before, j as int, c, |a: char, b: char| letter_before(a, b), |x: char| in_alphabet(x));
            }
        }
        i = i + 1;
    }
    assert(letters@.take(n as int) =~= letters@);
    proof {
        if out@.len() == n {
        }
    }
    out
}


/// The views of a sequence of character vectors.
pub open spec fn char_views(v: Seq<Vec<char>>) -> Seq<Seq<char>> {
    v.map_values(|x: Vec<char>| x@)
}

/// Sorts distinct texts by collation.
fn sort_texts(items: &Vec<Vec<char>>, collator: &mut DefaultCollator) -> (r: Vec<Vec<char>>)
    ensures
        char_views(r@).to_set() == char_views(items@).to_set(),
        r@.len() == items@.len(),
        collation_is_total_order() && all_in(char_views(items@), |s: Seq<char>| collatable(s))
            && char_views(items@).no_duplicates() ==> sorted_by(
            char_views(r@),
            |a: Seq<char>, b: Seq<char>| collates_before(a, b),
        ),
{
    let ghost iv = char_views(items@);
    let n: usize = items.len();
    let mut out: Vec<Vec<char>> = Vec::new();
    let mut strs: Vec<String> = Vec::new();
    let mut i: usize = 0;
    while i < n
        invariant
            i <= n,
            n == items@.len(),
            iv == char_views(items@),
            out@.len() == i,
            strs@.len() == i,
            forall|k: int| 0 <= k < i ==> (#[trigger] strs@[k])@ == out@[k]@,
            char_views(out@).to_set() == iv.take(i as int).to_set(),
            collation_is_total_order() && all_in(iv, |s: Seq<char>| collatable(s)) && iv.no_duplicates() ==> {
                &&& sorted_by(char_views(out@), |a: Seq<char>, b: Seq<char>| collates_before(a, b))
                &&& all_in(char_views(out@), |s: Seq<char>| collatable(s))
            },
        decreases n - i,
    {
        let x = items[i].clone();
        assert(x@ == iv[i as int]);
        let xs = string_of(x.as_slice());
        let m: usize = out.len();
        let mut j: usize = 0;
        while j < m && collator.collate(strs[j].as_str(), xs.as_str()) < 0
            invariant
                j <= m,
                m == out@.len(),
                m == strs@.len(),
                xs@ == x@,
                forall|k: int| 0 <= k < m ==> (#[trigger] strs@[k])@ == out@[k]@,
                forall|k: int| 0 <= k < j ==> collates_before(#[trigger] char_views(out@)[k], x@),
            decreases m - j,
        {
            assert(strs@[j as int]@ == out@[j as int]@);
            assert(char_views(out@)[j as int] == out@[j as int]@);
            j = j + 1;
        }
        let ghost before = char_views(out@);
        proof {
            if j < m {
                assert(strs@[j as int]@ == out@[j as int]@);
                assert(collation(before[j as int], x@) >= 0);
            }
        }
        out.insert(j, x);
        strs.insert(j, xs);
        proof {
            assert(char_views(out@) =~= before.insert(j as int, iv[i as int]));
            assert(iv.take(i + 1) =~= iv.take(i as int).push(iv[i as int]));
            lemma_insert_to_set(before, j as int, iv[i as int]);
            lemma_push_to_set(iv.take(i as int), iv[i as int]);
            assert forall|k: int| 0 <= k < i + 1 implies (#[trigger] strs@[k])@ == out@[k]@ by {
                if k < j {
                } else if k > j {
                }
            }
            if collation_is_total_order() && all_in(iv, |s: Seq<char>| collatable(s)) && iv.no_duplicates() {
                lemma_text_order();
                assert(collatable(iv[i as int]));
                if j < m {
                    let d = before[j as int];
                    assert(before.to_set().contains(d));
                    assert(iv.take(i as int).to_set().contains(d));
                    let t = choose|t: int| 0 <= t < i && iv.take(i as int)[t] == d;
                    assert(iv[t] == d);
                    assert(d != iv[i as int]);
                    assert(collatable(d));
                    assert(collates_before(iv[i as int], d));
                }
                lemma_insert_sorted(before, j as int, iv[i as int], |a: Seq<char>, b: Seq<char>| collates_before(a, b), |s: Seq<char>| collatable(s));
            }
        }
        i = i + 1;
    }
    assert(iv.take(n as int) =~= iv);
    out
}

/// The letters of a set of seven in the order they are shown: sorted by
/// collation.
pub open spec fn pangram_order(l: Seq<char>) -> Seq<char> {
    arranged(l.to_set(), |a: char, b: char| letter_before(a, b))
}

/// The letter sequences of the puzzles of a list, sorted by collation.
pub open spec fn pangrams_spec(ws: Seq<Seq<char>>) -> Seq<Seq<char>> {
    arranged(
        pangram_letter_sets(ws).map(|l: Seq<char>| pangram_order(l)),
        |a: Seq<char>, b: Seq<char>| collates_before(a, b),
    )
}

/// Every element of a pangram letter set is a letter of the alphabet, and
/// it lists distinct letters.
proof fn lemma_pangram_letter_set(ws: Seq<Seq<char>>, l: Seq<char>)
    requires
        pangram_letter_sets(ws).contains(l),
    ensures
        all_in_alphabet(l),
        l.no_duplicates(),
        l.len() == 7,
        exists|n: Seq<char>| #[trigger] normalized_words(ws).contains(n) && letters_spec(n) == l,
{
    let n = choose|n: Seq<char>| #[trigger] normalized_words(ws).contains(n) && letters_spec(n) == l && l.len() == 7;
    lemma_letters_alphabet(n);
}

/// Two pangram letter sets with the same letters are equal.
proof fn lemma_pangram_sets_distinct(ws: Seq<Seq<char>>, l1: Seq<char>, l2: Seq<char>)
    requires
        pangram_letter_sets(ws).contains(l1),
        pangram_letter_sets(ws).contains(l2),
        l1.to_set() == l2.to_set(),
    ensures
        l1 == l2,
{
    let n1 = choose|n: Seq<char>| #[trigger] normalized_words(ws).contains(n) && letters_spec(n) == l1 && l1.len() == 7;
    let n2 = choose|n: Seq<char>| #[trigger] normalized_words(ws).contains(n) && letters_spec(n) == l2 && l2.len() == 7;
    lemma_letters_alphabet(n1);
    lemma_letters_alphabet(n2);
    lemma_normalized_word_alphabet(ws, n1);
    lemma_normalized_word_alphabet(ws, n2);
    assert forall|c: char| n1.contains(c) <==> n2.contains(c) by {
        if n1.contains(c) {
            let t = choose|t: int| 0 <= t < n1.len() && n1[t] == c;
            assert(in_alphabet(n1[t]));
            assert(l1.contains(c));
            assert(l1.to_set().contains(c));
            assert(l2.contains(c));
        }
        if n2.contains(c) {
            let t = choose|t: int| 0 <= t < n2.len() && n2[t] == c;
            assert(in_alphabet(n2[t]));
            assert(l2.contains(c));
            assert(l2.to_set().contains(c));
            assert(l1.contains(c));
        }
    }
    crate::letters::lemma_letters_same_set(alphabet(), n1, n2);
}

/// A normalized word of the list is made of letters of the alphabet.
proof fn lemma_normalized_word_alphabet(ws: Seq<Seq<char>>, n: Seq<char>)
    requires
        normalized_words(ws).contains(n),
    ensures
        all_in_alphabet(n),
        4 <= n.len() <= MAX_CHARACTERS,
{
    let w = choose|w: Seq<char>| #[trigger] ws.contains(w) && accepted(w) && normalize_chars_spec(w) == n;
    assert forall|i: int| 0 <= i < n.len() implies in_alphabet(#[trigger] n[i]) by {
        assert(crate::normalize::normalize_spec(w[i]) is Some);
        crate::normalize::lemma_fold_is_idempotent(crate::text::char_lowercase(w[i]));
    }
}


/// A sequence whose set of elements equals that of an alphabet-only
/// sequence is alphabet-only.
proof fn lemma_same_set_alphabet(a: Seq<char>, b: Seq<char>)
    requires
        a.to_set() == b.to_set(),
        all_in_alphabet(b),
    ensures
        all_in_alphabet(a),
{
    assert forall|i: int| 0 <= i < a.len() implies in_alphabet(#[trigger] a[i]) by {
        assert(a.to_set().contains(a[i]));
        assert(b.to_set().contains(a[i]));
        let t = choose|t: int| 0 <= t < b.len() && b[t] == a[i];
    }
}

/// Puts the letters of each pangram in collation order, then the
/// pangrams in collation order.
fn pangram_sequence(ps: &Vec<Vec<char>>, collator: &mut DefaultCollator, Ghost(ws): Ghost<Seq<Seq<char>>>) -> (r: Vec<Vec<char>>)
    requires
        pangram_listing(ws, ps@),
    ensures
        forall|q: int| 0 <= q < r@.len() ==> (#[trigger] r@[q])@.len() == 7 && all_in_alphabet(r@[q]@)
            && r@[q]@.no_duplicates() && from_pangram(ws, r@[q]@),
        collation_is_total_order() ==> char_views(r@) == pangrams_spec(ws),
{
    let n: usize = ps.len();
    let mut sorted_sets: Vec<Vec<char>> = Vec::new();
    let mut q: usize = 0;
    while q < n
        invariant
            q <= n,
            n == ps@.len(),
            pangram_listing(ws, ps@),
            sorted_sets@.len() == q,
            forall|k: int| 0 <= k < q ==> (#[trigger] sorted_sets@[k])@.to_set() == ps@[k]@.to_set()
                && sorted_sets@[k]@.len() == 7 && all_in_alphabet(sorted_sets@[k]@)
                && sorted_sets@[k]@.no_duplicates() && from_pangram(ws, sorted_sets@[k]@),
            collation_is_total_order() ==> forall|k: int| 0 <= k < q ==> (#[trigger] sorted_sets@[k])@ == pangram_order(ps@[k]@),
        decreases n - q,
    {
        proof {
            lemma_pangram_letter_set(ws, ps@[q as int]@);
        }
        let sorted = sort_letters(&ps[q], collator);
        proof {
            lemma_same_set_alphabet(sorted@, ps@[q as int]@);
            ps@[q as int]@.unique_seq_to_set();
            sorted@.lemma_no_dup_set_cardinality();
            let n = choose|n: Seq<char>| #[trigger] normalized_words(ws).contains(n) && letters_spec(n) == ps@[q as int]@;
            assert(letters_spec(n).to_set() == sorted@.to_set());
            if collation_is_total_order() {
                lemma_letter_order();
                lemma_arranged(sorted@, ps@[q as int]@.to_set(), |a: char, b: char| letter_before(a, b), |c: char| in_alphabet(c));
            }
        }
        sorted_sets.push(sorted);
        q = q + 1;
    }
    let ghost sv = char_views(sorted_sets@);
    proof {
        assert forall|k: int| 0 <= k < sv.len() implies collatable(#[trigger] sv[k]) by {
            assert(sv[k] == sorted_sets@[k]@);
            lemma_alphabet_collatable(sorted_sets@[k]@);
        }
        assert(sv.no_duplicates()) by {
            assert forall|k1: int, k2: int| 0 <= k1 < sv.len() && 0 <= k2 < sv.len() && k1 != k2 implies sv[k1] != sv[k2] by {
                assert(sv[k1] == sorted_sets@[k1]@ && sv[k2] == sorted_sets@[k2]@);
                if sv[k1] == sv[k2] {
                    assert(ps@[k1]@.to_set() == ps@[k2]@.to_set());
                    lemma_pangram_sets_distinct(ws, ps@[k1]@, ps@[k2]@);
                    assert((#[trigger] ps@[k1])@ != (#[trigger] ps@[k2])@);
                }
            }
        }
    }
    let r = sort_texts(&sorted_sets, collator);
    proof {
        assert forall|k: int| 0 <= k < r@.len() implies (#[trigger] r@[k])@.len() == 7 && all_in_alphabet(r@[k]@)
            && r@[k]@.no_duplicates() && from_pangram(ws, r@[k]@) by {
            assert(char_views(r@)[k] == r@[k]@);
            assert(char_views(r@).to_set().contains(r@[k]@));
            assert(sv.to_set().contains(r@[k]@));
            let t = choose|t: int| 0 <= t < sv.len() && sv[t] == r@[k]@;
            assert(sv[t] == sorted_sets@[t]@);
        }
        if collation_is_total_order() {
            lemma_text_order();
            let target = pangram_letter_sets(ws).map(|l: Seq<char>| pangram_order(l));
            assert(sv.to_set() =~= target) by {
                assert forall|x: Seq<char>| sv.to_set().contains(x) implies target.contains(x) by {
                    let t = choose|t: int| 0 <= t < sv.len() && sv[t] == x;
                    assert(sv[t] == sorted_sets@[t]@);
                    assert(pangram_letter_sets(ws).contains(ps@[t]@));
                }
                assert forall|x: Seq<char>| target.contains(x) implies sv.to_set().contains(x) by {
                    let l = choose|l: Seq<char>| pangram_letter_sets(ws).contains(l) && pangram_order(l) == x;
                    let t = choose|t: int| 0 <= t < ps@.len() && (#[trigger] ps@[t])@ == l;
                    assert(sv[t] == sorted_sets@[t]@);
                    assert(sv.contains(x));
                }
            }
            assert(all_in(char_views(r@), |s: Seq<char>| collatable(s))) by {
                assert forall|k: int| 0 <= k < char_views(r@).len() implies collatable(#[trigger] char_views(r@)[k]) by {
                    assert(char_views(r@)[k] == r@[k]@);
                    lemma_alphabet_collatable(r@[k]@);
                }
            }
            lemma_arranged(char_views(r@), target, |a: Seq<char>, b: Seq<char>| collates_before(a, b), |s: Seq<char>| collatable(s));
        }
    }
    r
}


/// A word of a puzzle, as values.
pub struct WordView {
    pub original: Seq<char>,
    pub normalized: Seq<char>,
    pub is_pangram: bool,
}

/// A puzzle, as values.
pub struct GameView {
    pub main_letter: char,
    pub secondary_letters: Seq<char>,
    pub words: Seq<WordView>,
}

/// The values of a word of a puzzle.
pub open spec fn word_view(w: Word) -> WordView {
    WordView { original: w.original@, normalized: w.normalized.text(), is_pangram: w.is_pangram }
}

/// The values of a puzzle.
pub open spec fn game_view(g: Game) -> GameView {
    GameView {
        main_letter: g.main_letter,
        secondary_letters: g.secondary_letters@,
        words: g.words@.map_values(|w: Word| word_view(w)),
    }
}

/// A normalized word belongs to the puzzle with letters `p` and main
/// letter `m`: its letters are among the puzzle's, the main letter is one
/// of them, and it uses at least one other.
pub open spec fn eligible(n: Seq<char>, p: Seq<char>, m: char) -> bool {
    &&& forall|c: char| #[trigger] letters_spec(n).contains(c) ==> p.contains(c)
    &&& letters_spec(n).contains(m)
    &&& letters_spec(n).len() >= 2
}

/// The word of a puzzle for a normalized word of the list: its spellings
/// in collation order joined with `'/'`, and whether it uses seven
/// letters.
pub open spec fn word_spec(ws: Seq<Seq<char>>, n: Seq<char>) -> WordView {
    WordView {
        original: join_spec(arranged(spellings(ws, n), |a: Seq<char>, b: Seq<char>| collates_before(a, b)), "/"@),
        normalized: n,
        is_pangram: letters_spec(n).len() == 7,
    }
}

/// The normalized words of the puzzle with letters `p` and main letter
/// `p[i]`, in the order of the puzzle.
pub open spec fn game_words_spec(ws: Seq<Seq<char>>, p: Seq<char>, i: int) -> Seq<Seq<char>> {
    arranged(
        normalized_words(ws).filter(|n: Seq<char>| eligible(n, p, p[i])),
        |a: Seq<char>, b: Seq<char>| word_before(a, b),
    )
}

/// The puzzle with letters `p` and main letter `p[i]`.
pub open spec fn game_spec(ws: Seq<Seq<char>>, p: Seq<char>, i: int) -> GameView {
    GameView {
        main_letter: p[i],
        secondary_letters: p.remove(i),
        words: game_words_spec(ws, p, i).map_values(|n: Seq<char>| word_spec(ws, n)),
    }
}

/// The seven puzzles of each letter sequence, in order.
pub open spec fn games_for(ws: Seq<Seq<char>>, ps: Seq<Seq<char>>) -> Seq<GameView>
    decreases ps.len(),
{
    if ps.len() == 0 {
        Seq::empty()
    } else {
        games_for(ws, ps.drop_last()) + Seq::new(7, |i: int| game_spec(ws, ps.last(), i))
    }
}

/// All puzzles of a word list.
pub open spec fn games_spec(ws: Seq<Seq<char>>) -> Seq<GameView> {
    games_for(ws, pangrams_spec(ws))
}

/// The collator found two different normalized words equal. feruca never
/// does so (see `DefaultCollator::collate`), so `generate_games` never
/// returns it; the puzzle builder still checks for it.
#[derive(Debug, Clone, Copy, PartialEq, Eq, Structural)]
pub enum GenerateError {
    CollationTie,
}

fn skip_index(k: usize, i: usize) -> (r: usize)
    requires
        k < 6,
    ensures
        r == if k < i { k } else { (k + 1) as usize },
{
    if k < i { k } else { k + 1 }
}

/// The six letters other than the one at `i`, in order.
fn secondary_of(p: &Vec<char>, i: usize) -> (r: [char; 6])
    requires
        p@.len() == 7,
        i < 7,
    ensures
        r@ == p@.remove(i as int),
{
    let r = [
        p[skip_index(0, i)],
        p[skip_index(1, i)],
        p[skip_index(2, i)],
        p[skip_index(3, i)],
        p[skip_index(4, i)],
        p[skip_index(5, i)],
    ];
    assert(r@ =~= p@.remove(i as int));
    r
}

/// Which letters of the alphabet occur in `p`, by alphabet position.
fn letter_table(p: &Vec<char>) -> (r: Vec<bool>)
    requires
        all_in_alphabet(p@),
    ensures
        r@.len() == 24,
        forall|k: int| 0 <= k < 24 ==> (#[trigger] r@[k] <==> p@.contains(alphabet()[k])),
{
    let letters = letters_of(p.as_slice());
    let mut r: Vec<bool> = Vec::new();
    let mut k: usize = 0;
    proof {
        lemma_letters_alphabet(p@);
        crate::letters::lemma_alphabet_distinct();
    }
    while k < 24
        invariant
            k <= 24,
            r@.len() == k,
            letters@ == letters_spec(p@),
            forall|j: int| 0 <= j < k ==> (#[trigger] r@[j] <==> p@.contains(alphabet()[j])),
        decreases 24 - k,
    {
        let c = crate::letters::letter_at(k);
        let mut found = false;
        let mut t: usize = 0;
        while t < letters.len()
            invariant
                t <= letters@.len(),
                found <==> letters@.take(t as int).contains(c),
            decreases letters@.len() - t,
        {
            if letters[t] == c {
                found = true;
            }
            proof {
                lemma_push_to_set(letters@.take(t as int), letters@[t as int]);
                assert(letters@.take(t + 1) =~= letters@.take(t as int).push(letters@[t as int]));
                vstd::seq_lib::lemma_seq_contains_after_push(letters@.take(t as int), letters@[t as int], c);
            }
            t = t + 1;
        }
        assert(letters@.take(letters@.len() as int) =~= letters@);
        proof {
            lemma_alphabet_index(c);
            lemma_letters_alphabet(p@);
            assert(letters_spec(p@).contains(c) <==> p@.contains(c));
        }
        r.push(found);
        k = k + 1;
    }
    r
}

/// Whether every letter of `letters` is marked in the table.
fn all_marked(letters: &Vec<char>, table: &Vec<bool>) -> (r: bool)
    requires
        all_in_alphabet(letters@),
        table@.len() == 24,
    ensures
        r <==> forall|t: int| 0 <= t < letters@.len() ==> table@[crate::letters::letter_index_spec(#[trigger] letters@[t])],
{
    let mut t: usize = 0;
    while t < letters.len()
        invariant
            t <= letters@.len(),
            all_in_alphabet(letters@),
            table@.len() == 24,
            forall|u: int| 0 <= u < t ==> table@[crate::letters::letter_index_spec(#[trigger] letters@[u])],
        decreases letters@.len() - t,
    {
        assert(in_alphabet(letters@[t as int]));
        let k = letter_index(letters[t]);
        if !table[k] {
            return false;
        }
        t = t + 1;
    }
    true
}


/// The letters of `n` are all among those of `p`.
pub open spec fn letters_within(n: Seq<char>, p: Seq<char>) -> bool {
    forall|c: char| #[trigger] letters_spec(n).contains(c) ==> p.contains(c)
}

proof fn lemma_table_subset(letters: Seq<char>, n: Seq<char>, table: Seq<bool>, p: Seq<char>)
    requires
        letters == letters_spec(n),
        table.len() == 24,
        forall|k: int| 0 <= k < 24 ==> (#[trigger] table[k] <==> p.contains(alphabet()[k])),
    ensures
        (forall|t: int| 0 <= t < letters.len() ==> table[crate::letters::letter_index_spec(#[trigger] letters[t])])
            <==> letters_within(n, p),
{
    lemma_letters_alphabet(n);
    if forall|t: int| 0 <= t < letters.len() ==> table[crate::letters::letter_index_spec(#[trigger] letters[t])] {
        assert forall|c: char| #[trigger] letters_spec(n).contains(c) implies p.contains(c) by {
            let t = choose|t: int| 0 <= t < letters.len() && letters[t] == c;
            assert(in_alphabet(letters[t]));
            lemma_alphabet_index(c);
            assert(table[crate::letters::letter_index_spec(letters[t])]);
        }
    }
    if letters_within(n, p) {
        assert forall|t: int| 0 <= t < letters.len() implies table[crate::letters::letter_index_spec(#[trigger] letters[t])] by {
            assert(letters.contains(letters[t]));
            assert(in_alphabet(letters[t]));
            lemma_alphabet_index(letters[t]);
        }
    }
}

/// The positions of the entries whose letters are all among those of `p`,
/// in increasing order.
fn candidates_for(entries: &Vec<Entry>, p: &Vec<char>, Ghost(ws): Ghost<Seq<Seq<char>>>) -> (r: Vec<usize>)
    requires
        entries_listing(ws, entries@),
        all_in_alphabet(p@),
    ensures
        forall|u: int| 0 <= u < r@.len() ==> (#[trigger] r@[u]) < entries@.len(),
        forall|u1: int, u2: int| 0 <= u1 < u2 < r@.len() ==> (#[trigger] r@[u1]) < (#[trigger] r@[u2]),
        forall|k: int| 0 <= k < entries@.len() ==> (#[trigger] letters_within(entries@[k].normalized@, p@) <==> r@.contains(k as usize)),
{
    let table = letter_table(p);
    let n: usize = entries.len();
    let mut r: Vec<usize> = Vec::new();
    let mut k: usize = 0;
    while k < n
        invariant
            k <= n,
            n == entries@.len(),
            entries_listing(ws, entries@),
            table@.len() == 24,
            forall|j: int| 0 <= j < 24 ==> (#[trigger] table@[j] <==> p@.contains(alphabet()[j])),
            forall|u: int| 0 <= u < r@.len() ==> (#[trigger] r@[u]) < k,
            forall|u1: int, u2: int| 0 <= u1 < u2 < r@.len() ==> (#[trigger] r@[u1]) < (#[trigger] r@[u2]),
            forall|j: int| 0 <= j < k ==> (#[trigger] letters_within(entries@[j].normalized@, p@) <==> r@.contains(j as usize)),
        decreases n - k,
    {
        let e = &entries[k];
        assert(entry_ok(ws, entries@[k as int]));
        proof {
            lemma_letters_alphabet(e.normalized@);
            lemma_table_subset(e.letters@, e.normalized@, table@, p@);
        }
        let ghost r0 = r@;
        if all_marked(&e.letters, &table) {
            r.push(k);
        }
        proof {
            assert forall|j: int| 0 <= j < k + 1 implies (#[trigger] letters_within(entries@[j].normalized@, p@) <==> r@.contains(j as usize)) by {
                if r@ != r0 {
                    assert(r@ == r0.push(k));
                    vstd::seq_lib::lemma_seq_contains_after_push(r0, k, j as usize);
                }
                if j < k && r0.contains(j as usize) {
                    let u = choose|u: int| 0 <= u < r0.len() && r0[u] == j as usize;
                    assert(r@[u] == j as usize);
                }
                if j == k && r0.contains(k) {
                    let u = choose|u: int| 0 <= u < r0.len() && r0[u] == k;
                }
            }
        }
        k = k + 1;
    }
    r
}

/// The normalized texts of the words of a puzzle.
pub open spec fn normalized_texts(ws: Seq<Word>) -> Seq<Seq<char>> {
    ws.map_values(|w: Word| w.normalized.text())
}

/// Builds the puzzle with letters `p` and main letter `p[i]`.
fn build_game(
    entries: &Vec<Entry>,
    cands: &Vec<usize>,
    p: &Vec<char>,
    i: usize,
    collator: &mut DefaultCollator,
    Ghost(ws): Ghost<Seq<Seq<char>>>,
) -> (r: Result<Game, GenerateError>)
    requires
        entries_listing(ws, entries@),
        p@.len() == 7,
        all_in_alphabet(p@),
        i < 7,
        forall|u: int| 0 <= u < cands@.len() ==> (#[trigger] cands@[u]) < entries@.len(),
        forall|u1: int, u2: int| 0 <= u1 < u2 < cands@.len() ==> (#[trigger] cands@[u1]) < (#[trigger] cands@[u2]),
        forall|k: int| 0 <= k < entries@.len() ==> (#[trigger] letters_within(entries@[k].normalized@, p@) <==> cands@.contains(k as usize)),
    ensures
        r is Ok,
        r matches Ok(g) ==> g.main_letter == p@[i as int] && g.secondary_letters@ == p@.remove(i as int),
        r matches Ok(g) ==> normalized_texts(g.words@).to_set() == normalized_words(ws).filter(
            |n: Seq<char>| eligible(n, p@, p@[i as int]),
        ),
        r matches Ok(g) ==> pangrams_marked(g),
        r matches Ok(g) ==> normalized_texts(g.words@).no_duplicates(),
        r matches Ok(g) ==> (collation_is_total_order() ==> game_view(g) == game_spec(ws, p@, i as int)),
{
    let m = p[i];
    let ghost target = normalized_words(ws).filter(|n: Seq<char>| eligible(n, p@, p@[i as int]));
    let mut words: Vec<Word> = Vec::new();
    let nc: usize = cands.len();
    let mut t: usize = 0;
    while t < nc
        invariant
            t <= nc,
            nc == cands@.len(),
            m == p@[i as int],
            entries_listing(ws, entries@),
            p@.len() == 7,
            i < 7,
            forall|u: int| 0 <= u < cands@.len() ==> (#[trigger] cands@[u]) < entries@.len(),
            forall|u1: int, u2: int| 0 <= u1 < u2 < cands@.len() ==> (#[trigger] cands@[u1]) < (#[trigger] cands@[u2]),
            forall|k: int| 0 <= k < entries@.len() ==> (#[trigger] letters_within(entries@[k].normalized@, p@) <==> cands@.contains(k as usize)),
            forall|x: Seq<char>| normalized_texts(words@).contains(x) <==> exists|u: int| 0 <= u < t
                && (#[trigger] entries@[cands@[u] as int]).normalized@ == x && eligible(x, p@, m),
            all_in(normalized_texts(words@), |s: Seq<char>| all_in_alphabet(s)),
            forall|v: int| 0 <= v < words@.len() ==> (#[trigger] words@[v]).is_pangram
                == (letters_spec(words@[v].normalized.text()).len() == 7),
            normalized_texts(words@).no_duplicates(),
            collation_is_total_order() ==> {
                &&& sorted_by(normalized_texts(words@), |a: Seq<char>, b: Seq<char>| word_before(a, b))
                &&& words@.map_values(|w: Word| word_view(w)) == normalized_texts(words@).map_values(|n: Seq<char>| word_spec(ws, n))
            },
        decreases nc - t,
    {
        let k = cands[t];
        let e = &entries[k];
        assert(entry_ok(ws, entries@[k as int]));
        let ghost n = e.normalized@;
        let mut has_main = false;
        let mut u: usize = 0;
        while u < e.letters.len()
            invariant
                u <= e.letters@.len(),
                has_main <==> e.letters@.take(u as int).contains(m),
            decreases e.letters@.len() - u,
        {
            if e.letters[u] == m {
                has_main = true;
            }
            proof {
                assert(e.letters@.take(u + 1) =~= e.letters@.take(u as int).push(e.letters@[u as int]));
                vstd::seq_lib::lemma_seq_contains_after_push(e.letters@.take(u as int), e.letters@[u as int], m);
            }
            u = u + 1;
        }
        assert(e.letters@.take(e.letters@.len() as int) =~= e.letters@);
        let ghost ns0 = normalized_texts(words@);
        assert(cands@.contains(k));
        assert(letters_within(n, p@));
        let ghost is_eligible = eligible(n, p@, m);
        if has_main && e.letters.len() >= 2 {
            assert(is_eligible);
            proof {
                assert(!ns0.contains(n)) by {
                    if ns0.contains(n) {
                        let u2 = choose|u2: int| 0 <= u2 < t && (#[trigger] entries@[cands@[u2] as int]).normalized@ == n && eligible(n, p@, m);
                        assert(cands@[u2] < cands@[t as int]);
                    }
                }
            }
            let nstr = string_of(e.normalized.as_slice());
            let key_len: usize = nstr.as_str().len();
            assert(key_len == utf8_len(n));
            let nw: usize = words.len();
            let mut j: usize = 0;
            let mut tie = false;
            while j < nw
                invariant_except_break
                    !tie,
                invariant
                    j <= nw,
                    nw == words@.len(),
                    ns0 == normalized_texts(words@),
                    nstr@ == n,
                    key_len == utf8_len(n),
                    forall|v: int| 0 <= v < j ==> word_before(#[trigger] ns0[v], n),
                    all_in(ns0, |s: Seq<char>| all_in_alphabet(s)),
                    all_in_alphabet(n),
                ensures
                    j <= nw,
                    tie ==> j < nw && ns0[j as int] == n,
                    !tie ==> forall|v: int| 0 <= v < j ==> word_before(#[trigger] ns0[v], n),
                    !tie && j < nw ==> (utf8_len(ns0[j as int]) > utf8_len(n) || (utf8_len(ns0[j as int]) == utf8_len(n) && collation(ns0[j as int], n) > 0)),
                decreases nw - j,
            {
                let wj: &str = words[j].normalized.0.as_str();
                assert(wj@ == ns0[j as int]);
                let lj: usize = wj.len();
                if lj < key_len {
                    j = j + 1;
                } else if lj > key_len {
                    break;
                } else {
                    let c = collator.collate(wj, nstr.as_str());
                    if c < 0 {
                        j = j + 1;
                    } else if c == 0 {
                        assert(all_in_alphabet(ns0[j as int]));
                        tie = true;
                        break;
                    } else {
                        break;
                    }
                }
            }
            if tie {
                proof {
                    assert(ns0.contains(n));
                }
                return Err(GenerateError::CollationTie);
            }
            let original = join_strings(&e.spellings, "/");
            let word = Word {
                original,
                normalized: NormalizedString(nstr),
                is_pangram: e.letters.len() == 7,
            };
            let ghost wv0 = words@.map_values(|w: Word| word_view(w));
            let ghost ws0 = words@;
            assert(word.is_pangram == (letters_spec(word.normalized.text()).len() == 7));
            words.insert(j, word);
            proof {
                assert(words@ == ws0.insert(j as int, word));
                assert(normalized_texts(words@).no_duplicates()) by {
                    let ns1 = normalized_texts(words@);
                    assert(ns1 =~= ns0.insert(j as int, n));
                    assert forall|a: int, b: int| 0 <= a < ns1.len() && 0 <= b < ns1.len() && a != b implies ns1[a] != ns1[b] by {
                        let ia = if a < j { a } else if a == j { -1 } else { a - 1 };
                        let ib = if b < j { b } else if b == j { -1 } else { b - 1 };
                        if a == j {
                            assert(ns0[ib] == ns1[b]);
                        } else if b == j {
                            assert(ns0[ia] == ns1[a]);
                        } else {
                            assert(ns0[ia] == ns1[a]);
                            assert(ns0[ib] == ns1[b]);
                        }
                    }
                }
                assert forall|v: int| 0 <= v < words@.len() implies (#[trigger] words@[v]).is_pangram
                    == (letters_spec(words@[v].normalized.text()).len() == 7) by {
                    if v < j {
                        assert(words@[v] == ws0[v]);
                    } else if v > j {
                        assert(words@[v] == ws0[v - 1]);
                    }
                }
                assert(normalized_texts(words@) =~= ns0.insert(j as int, n));
                assert(words@.map_values(|w: Word| word_view(w)) =~= wv0.insert(j as int, word_view(word)));
                lemma_insert_to_set(ns0, j as int, n);
                assert forall|x: Seq<char>| normalized_texts(words@).contains(x) <==> exists|u2: int| 0 <= u2 < t + 1
                    && (#[trigger] entries@[cands@[u2] as int]).normalized@ == x && eligible(x, p@, m) by {
                    assert(normalized_texts(words@).to_set().contains(x) <==> normalized_texts(words@).contains(x));
                    assert(ns0.to_set().contains(x) <==> ns0.contains(x));
                    if x == n {
                        assert(entries@[cands@[t as int] as int].normalized@ == x);
                    }
                }
                assert(all_in(normalized_texts(words@), |s: Seq<char>| all_in_alphabet(s))) by {
                    assert forall|v: int| 0 <= v < normalized_texts(words@).len() implies all_in_alphabet(#[trigger] normalized_texts(words@)[v]) by {
                        if v < j {
                            assert(normalized_texts(words@)[v] == ns0[v]);
                        } else if v > j {
                            assert(normalized_texts(words@)[v] == ns0[v - 1]);
                        }
                    }
                }
                if collation_is_total_order() {
                    lemma_word_order();
                    lemma_alphabet_collatable(n);
                    if j < nw {
                        assert(all_in_alphabet(ns0[j as int]));
                        lemma_alphabet_collatable(ns0[j as int]);
                        assert(word_before(n, ns0[j as int]));
                    }
                    lemma_insert_sorted(ns0, j as int, n, |a: Seq<char>, b: Seq<char>| word_before(a, b), |s: Seq<char>| all_in_alphabet(s));
                    lemma_text_order();
                    lemma_arranged(texts(e.spellings@), spellings(ws, n), |a: Seq<char>, b: Seq<char>| collates_before(a, b), |s: Seq<char>| collatable(s));
                    lemma_letters_alphabet(n);
                    assert(word_view(word) == word_spec(ws, n));
                    assert(words@.map_values(|w: Word| word_view(w)) =~= normalized_texts(words@).map_values(|n: Seq<char>| word_spec(ws, n))) by {
                        assert(ns0.insert(j as int, n).map_values(|n: Seq<char>| word_spec(ws, n)) =~= ns0.map_values(|n: Seq<char>| word_spec(ws, n)).insert(j as int, word_spec(ws, n)));
                    }
                }
            }
        } else {
            proof {
                lemma_letters_alphabet(n);
                assert(!is_eligible) by {
                    if is_eligible {
                        assert(e.letters@.contains(m));
                    }
                }
                assert forall|x: Seq<char>| normalized_texts(words@).contains(x) <==> exists|u2: int| 0 <= u2 < t + 1
                    && (#[trigger] entries@[cands@[u2] as int]).normalized@ == x && eligible(x, p@, m) by {
                    if exists|u2: int| 0 <= u2 < t + 1 && (#[trigger] entries@[cands@[u2] as int]).normalized@ == x && eligible(x, p@, m) {
                        let u2 = choose|u2: int| 0 <= u2 < t + 1 && (#[trigger] entries@[cands@[u2] as int]).normalized@ == x && eligible(x, p@, m);
                        if u2 == t {
                            assert(x == n);
                        }
                    }
                }
            }
        }
        t = t + 1;
    }
    let secondary = secondary_of(p, i);
    let game = Game { main_letter: m, secondary_letters: secondary, words };
    assert(pangrams_marked(game));
    proof {
        let ns = normalized_texts(game.words@);
        assert(ns.to_set() =~= target) by {
            assert forall|x: Seq<char>| ns.to_set().contains(x) implies target.contains(x) by {
                assert(ns.contains(x));
                let u = choose|u: int| 0 <= u < nc && (#[trigger] entries@[cands@[u] as int]).normalized@ == x && eligible(x, p@, m);
                assert(entry_ok(ws, entries@[cands@[u] as int]));
            }
            assert forall|x: Seq<char>| target.contains(x) implies ns.to_set().contains(x) by {
                assert(normalized_words(ws).contains(x));
                let k = choose|k: int| 0 <= k < entries@.len() && (#[trigger] entries@[k]).normalized@ == x;
                assert(letters_within(x, p@));
                assert(letters_within(entries@[k].normalized@, p@));
                assert(cands@.contains(k as usize));
                let u = choose|u: int| 0 <= u < nc && cands@[u] == k as usize;
                assert(0 <= k < entries.len());
                assert(cands@[u] as int == k);
                assert(entries@[cands@[u] as int].normalized@ == x);
                assert(ns.contains(x));
            }
        }
        if collation_is_total_order() {
            lemma_word_order();
            lemma_arranged(ns, target, |a: Seq<char>, b: Seq<char>| word_before(a, b), |s: Seq<char>| all_in_alphabet(s));
            assert(game_view(game).words == game_spec(ws, p@, i as int).words);
        }
    }
    Ok(game)
}


/// The views of a sequence of puzzles.
pub open spec fn game_views(gs: Seq<Game>) -> Seq<GameView> {
    gs.map_values(|g: Game| game_view(g))
}

/// A normalized word belongs to a puzzle made from a list: a usable word
/// of the list normalizes to it, it uses the main letter and at least one
/// other, and every letter it uses is the main letter or one of the
/// secondary letters.
pub open spec fn belongs_to(ws: Seq<Seq<char>>, g: Game, n: Seq<char>) -> bool {
    &&& normalized_words(ws).contains(n)
    &&& letters_spec(n).contains(g.main_letter)
    &&& letters_spec(n).len() >= 2
    &&& forall|c: char| #[trigger] letters_spec(n).contains(c) ==> c == g.main_letter || g.secondary_letters@.contains(c)
}

/// A puzzle lists every normalized word of the list that belongs to it.
pub open spec fn lists_all_members(ws: Seq<Seq<char>>, g: Game) -> bool {
    forall|n: Seq<char>| #[trigger] belongs_to(ws, g, n) ==> normalized_texts(g.words@).contains(n)
}

/// The letters of a puzzle are seven distinct letters of the alphabet:
/// the main letter is none of the secondary letters, which are distinct.
pub open spec fn seven_letters(g: Game) -> bool {
    &&& all_in_alphabet(g.secondary_letters@.push(g.main_letter))
    &&& g.secondary_letters@.push(g.main_letter).no_duplicates()
}

proof fn lemma_built_game_letters(g: Game, p: Seq<char>, i: int)
    requires
        p.len() == 7,
        0 <= i < 7,
        all_in_alphabet(p),
        p.no_duplicates(),
        g.main_letter == p[i],
        g.secondary_letters@ == p.remove(i),
    ensures
        seven_letters(g),
{
    let l = g.secondary_letters@.push(g.main_letter);
    assert forall|a: int| 0 <= a < 7 implies #[trigger] l[a] == p[if a == 6 { i } else if a < i { a } else { a + 1 }] by {
        if a < 6 {
            assert(l[a] == p.remove(i)[a]);
        }
    }
    assert forall|a: int, b: int| 0 <= a < 7 && 0 <= b < 7 && a != b implies l[a] != l[b] by {
        assert(l[a] == p[if a == 6 { i } else if a < i { a } else { a + 1 }]);
        assert(l[b] == p[if b == 6 { i } else if b < i { b } else { b + 1 }]);
    }
    assert forall|a: int| 0 <= a < l.len() implies in_alphabet(#[trigger] l[a]) by {
        assert(l[a] == p[if a == 6 { i } else if a < i { a } else { a + 1 }]);
    }
}

/// A word of a puzzle is marked as a pangram exactly when it uses seven
/// distinct letters.
pub open spec fn pangrams_marked(g: Game) -> bool {
    forall|k: int| 0 <= k < g.words@.len() ==> (#[trigger] g.words@[k]).is_pangram
        == (letters_spec(g.words@[k].normalized.text()).len() == 7)
}

/// A puzzle lists a pangram.
pub open spec fn has_pangram(g: Game) -> bool {
    exists|k: int| 0 <= k < g.words@.len() && (#[trigger] g.words@[k]).is_pangram
}

/// Some usable word of the list uses exactly the letters of `p`.
pub open spec fn from_pangram(ws: Seq<Seq<char>>, p: Seq<char>) -> bool {
    exists|n: Seq<char>| #[trigger] normalized_words(ws).contains(n) && letters_spec(n).to_set() == p.to_set()
}

proof fn lemma_game_has_pangram(ws: Seq<Seq<char>>, g: Game, p: Seq<char>, i: int)
    requires
        from_pangram(ws, p),
        p.len() == 7,
        p.no_duplicates(),
        0 <= i < 7,
        normalized_texts(g.words@).to_set() == normalized_words(ws).filter(|n: Seq<char>| eligible(n, p, p[i])),
        pangrams_marked(g),
    ensures
        has_pangram(g),
{
    let n = choose|n: Seq<char>| #[trigger] normalized_words(ws).contains(n) && letters_spec(n).to_set() == p.to_set();
    lemma_letters_alphabet(n);
    p.unique_seq_to_set();
    letters_spec(n).unique_seq_to_set();
    assert forall|c: char| #[trigger] letters_spec(n).contains(c) implies p.contains(c) by {
        assert(letters_spec(n).to_set().contains(c));
    }
    assert(p.to_set().contains(p[i]));
    assert(letters_spec(n).to_set().contains(p[i]));
    assert(eligible(n, p, p[i]));
    assert(normalized_texts(g.words@).to_set().contains(n));
    let k = choose|k: int| 0 <= k < normalized_texts(g.words@).len() && normalized_texts(g.words@)[k] == n;
    assert(g.words@[k].normalized.text() == n);
    assert(g.words@[k].is_pangram);
}

/// A normalized form of a usable word is made of letters of the alphabet
/// and has four to `MAX_CHARACTERS` letters.
pub proof fn law_usable_word_length(ws: Seq<Seq<char>>, n: Seq<char>)
    requires
        normalized_words(ws).contains(n),
    ensures
        all_in_alphabet(n),
        4 <= n.len() <= MAX_CHARACTERS,
{
    lemma_normalized_word_alphabet(ws, n);
}

proof fn lemma_built_game_words(ws: Seq<Seq<char>>, g: Game, p: Seq<char>, i: int)
    requires
        0 <= i < p.len(),
        g.main_letter == p[i],
        g.secondary_letters@ == p.remove(i),
        normalized_texts(g.words@).to_set() == normalized_words(ws).filter(|n: Seq<char>| eligible(n, p, p[i])),
    ensures
        forall|k: int| 0 <= k < g.words@.len() ==> belongs_to(ws, g, (#[trigger] g.words@[k]).normalized.text()),
        lists_all_members(ws, g),
{
    assert forall|n: Seq<char>| #[trigger] belongs_to(ws, g, n) implies normalized_texts(g.words@).contains(n) by {
        assert forall|c: char| #[trigger] letters_spec(n).contains(c) implies p.contains(c) by {
            if c == g.main_letter {
                assert(p[i] == c);
            } else {
                assert(g.secondary_letters@.contains(c));
                let t = choose|t: int| 0 <= t < p.remove(i).len() && p.remove(i)[t] == c;
                if t < i {
                    assert(p[t] == c);
                } else {
                    assert(p[t + 1] == c);
                }
            }
        }
        assert(eligible(n, p, p[i]));
        assert(normalized_words(ws).filter(|m: Seq<char>| eligible(m, p, p[i])).contains(n));
        assert(normalized_texts(g.words@).to_set().contains(n));
    }
    assert forall|k: int| 0 <= k < g.words@.len() implies belongs_to(ws, g, (#[trigger] g.words@[k]).normalized.text()) by {
        let n = g.words@[k].normalized.text();
        assert(normalized_texts(g.words@)[k] == n);
        assert(normalized_texts(g.words@).to_set().contains(n));
        assert(eligible(n, p, p[i]));
        assert forall|c: char| #[trigger] letters_spec(n).contains(c) implies c == g.main_letter || g.secondary_letters@.contains(c) by {
            assert(p.contains(c));
            let t = choose|t: int| 0 <= t < p.len() && p[t] == c;
            if t != i {
                if t < i {
                    assert(p.remove(i)[t] == c);
                } else {
                    assert(p.remove(i)[t - 1] == c);
                }
            }
        }
    }
}

/// A puzzle that lists every word belonging to it (as `generate_games`
/// builds them) lists every usable word of the list made of its main
/// letter and one of its secondary letters, such as "esse" for a puzzle
/// with main letter `e` and secondary letter `s`.
pub proof fn law_two_letter_words_are_listed(ws: Seq<Seq<char>>, g: Game, n: Seq<char>, s: char)
    requires
        lists_all_members(ws, g),
        normalized_words(ws).contains(n),
        g.secondary_letters@.contains(s),
        s != g.main_letter,
        forall|c: char| #[trigger] n.contains(c) <==> (c == g.main_letter || c == s),
    ensures
        normalized_texts(g.words@).contains(n),
{
    lemma_normalized_word_alphabet(ws, n);
    lemma_letters_alphabet(n);
    assert(n.contains(g.main_letter));
    assert(n.contains(s));
    let a = choose|t: int| 0 <= t < n.len() && n[t] == g.main_letter;
    let b = choose|t: int| 0 <= t < n.len() && n[t] == s;
    assert(in_alphabet(n[a]) && in_alphabet(n[b]));
    assert(letters_spec(n).contains(g.main_letter));
    assert(letters_spec(n).contains(s));
    let x = choose|t: int| 0 <= t < letters_spec(n).len() && letters_spec(n)[t] == g.main_letter;
    let y = choose|t: int| 0 <= t < letters_spec(n).len() && letters_spec(n)[t] == s;
    assert(x != y);
    assert(letters_spec(n).len() >= 2);
    assert(belongs_to(ws, g, n));
}

/// The puzzles of a word list depend only on which words it holds: the
/// order of the words and repeated words make no difference.
pub proof fn law_word_order_is_irrelevant(ws1: Seq<Seq<char>>, ws2: Seq<Seq<char>>)
    requires
        ws1.to_set() == ws2.to_set(),
    ensures
        games_spec(ws1) == games_spec(ws2),
{
    assert forall|w: Seq<char>| ws1.contains(w) <==> ws2.contains(w) by {
        assert(ws1.contains(w) <==> ws1.to_set().contains(w));
        assert(ws2.contains(w) <==> ws2.to_set().contains(w));
    }
    assert(normalized_words(ws1) =~= normalized_words(ws2));
    assert forall|n: Seq<char>| #[trigger] spellings(ws1, n) == spellings(ws2, n) by {
        assert(spellings(ws1, n) =~= spellings(ws2, n));
    }
    assert(pangram_letter_sets(ws1) =~= pangram_letter_sets(ws2));
    lemma_games_for_same_words(ws1, ws2, pangrams_spec(ws1));
}

proof fn lemma_games_for_same_words(ws1: Seq<Seq<char>>, ws2: Seq<Seq<char>>, ps: Seq<Seq<char>>)
    requires
        normalized_words(ws1) == normalized_words(ws2),
        forall|n: Seq<char>| #[trigger] spellings(ws1, n) == spellings(ws2, n),
    ensures
        games_for(ws1, ps) == games_for(ws2, ps),
    decreases ps.len(),
{
    if ps.len() > 0 {
        lemma_games_for_same_words(ws1, ws2, ps.drop_last());
        let p = ps.last();
        assert forall|i: int| 0 <= i < 7 implies game_spec(ws1, p, i) == game_spec(ws2, p, i) by {
            let ns = game_words_spec(ws1, p, i);
            assert(ns == game_words_spec(ws2, p, i));
            assert forall|k: int| 0 <= k < ns.len() implies word_spec(ws1, ns[k]) == word_spec(ws2, ns[k]) by {
                assert(spellings(ws1, ns[k]) == spellings(ws2, ns[k]));
            }
            assert(ns.map_values(|n: Seq<char>| word_spec(ws1, n)) =~= ns.map_values(|n: Seq<char>| word_spec(ws2, n)));
        }
        assert(Seq::new(7, |i: int| game_spec(ws1, p, i)) =~= Seq::new(7, |i: int| game_spec(ws2, p, i)));
    }
}

/// Builds all the puzzles of a word list: for every set of seven letters
/// used by a usable word (sets ordered by the collation of their letters,
/// letters ordered by collation), seven puzzles, one per main letter in
/// that order, each listing the usable words it can spell (see
/// `games_spec`).
///
/// It always succeeds. The exact result is stated under
/// `collation_is_total_order()`: sorting and merging spellings rest on the
/// collator behaving as an order. Whatever the collator answers, every
/// puzzle returned has seven distinct
/// letters, lists at least one pangram, marks as pangrams exactly its
/// words of seven letters, lists no normalized word twice, and lists only
/// words that belong to it.
pub fn generate_games(words: Vec<String>) -> (r: Result<Vec<Game>, GenerateError>)
    ensures
        r is Ok,
        r matches Ok(games) ==> (collation_is_total_order() ==> game_views(games@) == games_spec(texts(words@))),
        r matches Ok(games) ==> forall|j: int| 0 <= j < games@.len() ==> seven_letters(#[trigger] games@[j]),
        r matches Ok(games) ==> forall|j: int| 0 <= j < games@.len() ==> lists_all_members(texts(words@), #[trigger] games@[j]),
        r matches Ok(games) ==> forall|j: int| 0 <= j < games@.len() ==> has_pangram(#[trigger] games@[j])
            && pangrams_marked(games@[j]) && normalized_texts(games@[j].words@).no_duplicates(),
        r matches Ok(games) ==> forall|j: int, k: int|
            0 <= j < games@.len() && 0 <= k < games@[j].words@.len() ==> belongs_to(
                texts(words@),
                games@[j],
                (#[trigger] games@[j].words@[k]).normalized.text(),
            ),
{
    let mut collator = DefaultCollator::new();
    let ghost ws = texts(words@);
    let (entries, pangram_sets) = collect_entries(&words, &mut collator);
    let ps = pangram_sequence(&pangram_sets, &mut collator, Ghost(ws));
    let ghost pv = char_views(ps@);
    let mut games: Vec<Game> = Vec::new();
    let np: usize = ps.len();
    let mut q: usize = 0;
    while q < np
        invariant
            q <= np,
            np == ps@.len(),
            pv == char_views(ps@),
            entries_listing(ws, entries@),
            forall|k: int| 0 <= k < ps@.len() ==> (#[trigger] ps@[k])@.len() == 7 && all_in_alphabet(ps@[k]@)
                && ps@[k]@.no_duplicates() && from_pangram(ws, ps@[k]@),
            collation_is_total_order() ==> pv == pangrams_spec(ws),
            forall|j: int| 0 <= j < games@.len() ==> seven_letters(#[trigger] games@[j]),
            forall|j: int| 0 <= j < games@.len() ==> lists_all_members(ws, #[trigger] games@[j]),
            forall|j: int| 0 <= j < games@.len() ==> has_pangram(#[trigger] games@[j]) && pangrams_marked(games@[j])
                && normalized_texts(games@[j].words@).no_duplicates(),
            collation_is_total_order() ==> game_views(games@) == games_for(ws, pv.take(q as int)),
            forall|j: int, k: int|
                0 <= j < games@.len() && 0 <= k < games@[j].words@.len() ==> belongs_to(
                    ws,
                    games@[j],
                    (#[trigger] games@[j].words@[k]).normalized.text(),
                ),
        decreases np - q,
    {
        let p = &ps[q];
        let cands = candidates_for(&entries, p, Ghost(ws));
        let ghost g0 = game_views(games@);
        let mut i: usize = 0;
        while i < 7
            invariant
                i <= 7,
                q < np,
                np == ps@.len(),
                pv == char_views(ps@),
                *p == ps@[q as int],
                entries_listing(ws, entries@),
                p@.len() == 7,
                all_in_alphabet(p@),
                p@.no_duplicates(),
                from_pangram(ws, p@),
                forall|j: int| 0 <= j < games@.len() ==> seven_letters(#[trigger] games@[j]),
                forall|j: int| 0 <= j < games@.len() ==> lists_all_members(ws, #[trigger] games@[j]),
                forall|j: int| 0 <= j < games@.len() ==> has_pangram(#[trigger] games@[j]) && pangrams_marked(games@[j])
                    && normalized_texts(games@[j].words@).no_duplicates(),
                forall|u: int| 0 <= u < cands@.len() ==> (#[trigger] cands@[u]) < entries@.len(),
                forall|u1: int, u2: int| 0 <= u1 < u2 < cands@.len() ==> (#[trigger] cands@[u1]) < (#[trigger] cands@[u2]),
                forall|k: int| 0 <= k < entries@.len() ==> (#[trigger] letters_within(entries@[k].normalized@, p@) <==> cands@.contains(k as usize)),
                collation_is_total_order() ==> game_views(games@) == g0 + Seq::new(i as nat, |j: int| game_spec(ws, p@, j)),
                forall|j: int, k: int|
                    0 <= j < games@.len() && 0 <= k < games@[j].words@.len() ==> belongs_to(
                        ws,
                        games@[j],
                        (#[trigger] games@[j].words@[k]).normalized.text(),
                    ),
            decreases 7 - i,
        {
            match build_game(&entries, &cands, p, i, &mut collator, Ghost(ws)) {
                Ok(g) => {
                    let ghost before = game_views(games@);
                    let ghost gs0 = games@;
                    proof {
                        lemma_built_game_words(ws, g, p@, i as int);
                        lemma_built_game_letters(g, p@, i as int);
                        lemma_game_has_pangram(ws, g, p@, i as int);
                    }
                    games.push(g);
                    proof {
                        assert forall|j: int, k: int|
                            0 <= j < games@.len() && 0 <= k < games@[j].words@.len() implies belongs_to(
                                ws,
                                games@[j],
                                (#[trigger] games@[j].words@[k]).normalized.text(),
                            ) by {
                            if j < gs0.len() {
                                assert(games@[j] == gs0[j]);
                            }
                        }
                        assert forall|j: int| 0 <= j < games@.len() implies seven_letters(#[trigger] games@[j]) by {
                            if j < gs0.len() {
                                assert(games@[j] == gs0[j]);
                            }
                        }
                        assert forall|j: int| 0 <= j < games@.len() implies lists_all_members(ws, #[trigger] games@[j]) by {
                            if j < gs0.len() {
                                assert(games@[j] == gs0[j]);
                            }
                        }
                        assert forall|j: int| 0 <= j < games@.len() implies has_pangram(#[trigger] games@[j]) && pangrams_marked(games@[j])
                            && normalized_texts(games@[j].words@).no_duplicates() by {
                            if j < gs0.len() {
                                assert(games@[j] == gs0[j]);
                            }
                        }
                        assert(game_views(games@) =~= before.push(game_view(g)));
                        if collation_is_total_order() {
                            assert(Seq::new((i + 1) as nat, |j: int| game_spec(ws, p@, j)) =~= Seq::new(i as nat, |j: int| game_spec(ws, p@, j)).push(game_spec(ws, p@, i as int)));
                            assert(game_views(games@) =~= g0 + Seq::new((i + 1) as nat, |j: int| game_spec(ws, p@, j)));
                        }
                    }
                },
                Err(e) => {
                    return Err(e);
                },
            }
            i = i + 1;
        }
        proof {
            if collation_is_total_order() {
                assert(pv.take(q + 1).drop_last() =~= pv.take(q as int));
                assert(pv.take(q + 1).last() == p@);
                assert(Seq::new(7, |j: int| game_spec(ws, pv.take(q + 1).last(), j)) =~= Seq::new(7 as nat, |j: int| game_spec(ws, p@, j)));
            }
        }
        q = q + 1;
    }
    assert(pv.take(np as int) =~= pv);
    Ok(games)
}

} // verus!
