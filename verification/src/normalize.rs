//! Normalization of characters and words: case folding and removal of the
//! accents that the puzzle ignores.

use vstd::prelude::*;
use crate::text::{char_lowercase, chars_of, lowercase_first, push_char, trim_chars, trim_spec};

verus! {

/// The letters a normalized word is made of.
pub open spec fn in_alphabet(c: char) -> bool {
    c == 'a' || c == 'b' || c == 'c' || c == 'ç' || c == 'd' || c == 'e' || c == 'f' || c == 'g'
        || c == 'h' || c == 'i' || c == 'j' || c == 'l' || c == 'm' || c == 'n' || c == 'o' || c
        == 'p' || c == 'q' || c == 'r' || c == 's' || c == 't' || c == 'u' || c == 'v' || c == 'x'
        || c == 'z'
}

/// Every character of `s` is a letter of the alphabet.
pub open spec fn all_in_alphabet(s: Seq<char>) -> bool {
    forall|i: int| 0 <= i < s.len() ==> in_alphabet(#[trigger] s[i])
}

/// The folding table applied to an already lowercased character: accented
/// vowels lose their accent, other letters of the alphabet stay, anything
/// else (digits, `k`, `w`, `y`, punctuation, other scripts) is refused.
pub open spec fn fold_spec(c: char) -> Option<char> {
    if c == 'a' || c == 'á' || c == 'à' || c == 'ã' || c == 'â' {
        Some('a')
    } else if c == 'e' || c == 'ê' || c == 'é' {
        Some('e')
    } else if c == 'i' || c == 'í' {
        Some('i')
    } else if c == 'o' || c == 'ó' || c == 'õ' || c == 'ô' {
        Some('o')
    } else if c == 'u' || c == 'ú' || c == 'ü' {
        Some('u')
    } else if in_alphabet(c) {
        Some(c)
    } else {
        None
    }
}

/// The normalized form of a character: the first character of its
/// lowercase mapping, folded by the table.
pub open spec fn normalize_spec(c: char) -> Option<char> {
    fold_spec(char_lowercase(c))
}

/// Every character of `s` has a normalized form.
pub open spec fn all_normalizable(s: Seq<char>) -> bool {
    forall|i: int| 0 <= i < s.len() ==> (#[trigger] normalize_spec(s[i])) is Some
}

/// The normalized forms of the characters of `s`, which all have one.
pub open spec fn normalize_chars_spec(s: Seq<char>) -> Seq<char> {
    s.map_values(|c: char| normalize_spec(c).unwrap())
}

/// What parsing a text as a normalized word gives: the trimmed text with
/// every character normalized, or nothing when a character has no
/// normalized form.
pub open spec fn normalize_text_spec(s: Seq<char>) -> Option<Seq<char>> {
    let t = trim_spec(s);
    if all_normalizable(t) {
        Some(normalize_chars_spec(t))
    } else {
        None
    }
}

/// The folding table is made of letters of the alphabet, and a letter of
/// the alphabet folds to itself.
pub proof fn lemma_fold_is_idempotent(c: char)
    ensures
        fold_spec(c) matches Some(x) ==> in_alphabet(x) && fold_spec(x) == Some(x),
        in_alphabet(c) ==> fold_spec(c) == Some(c),
{
}

/// A word of letters of the alphabet has no white space to trim.
proof fn lemma_alphabet_is_trimmed(s: Seq<char>)
    requires
        all_in_alphabet(s),
    ensures
        trim_spec(s) == s,
{
    if s.len() > 0 {
        assert(in_alphabet(s[0]));
        assert(in_alphabet(s[s.len() - 1]));
    }
}

/// Applies the folding table to an already lowercased character.
pub fn fold_lowercase(c: char) -> (r: Option<char>)
    ensures
        r == fold_spec(c),
{
    if c == 'a' || c == 'á' || c == 'à' || c == 'ã' || c == 'â' {
        Some('a')
    } else if c == 'e' || c == 'ê' || c == 'é' {
        Some('e')
    } else if c == 'i' || c == 'í' {
        Some('i')
    } else if c == 'o' || c == 'ó' || c == 'õ' || c == 'ô' {
        Some('o')
    } else if c == 'u' || c == 'ú' || c == 'ü' {
        Some('u')
    } else if c == 'b' || c == 'c' || c == 'ç' || c == 'd' || c == 'f' || c == 'g' || c == 'h'
        || c == 'j' || c == 'l' || c == 'm' || c == 'n' || c == 'p' || c == 'q' || c == 'r' || c
        == 's' || c == 't' || c == 'v' || c == 'x' || c == 'z' {
        Some(c)
    } else {
        None
    }
}

/// The normalized form of a character, if it has one.
pub fn normalize_character(c: char) -> (r: Option<char>)
    ensures
        r == normalize_spec(c),
        r matches Some(x) ==> in_alphabet(x),
        in_alphabet(c) ==> r == Some(c),
        ('a' <= c && c <= 'z') || c == 'ç' ==> r == fold_spec(c),
        'A' <= c && c <= 'Z' ==> r == fold_spec(((c as u32) + 32) as char),
{
    let lower = lowercase_first(c);
    match lower {
        Some(l) => fold_lowercase(l),
        None => None,
    }
}

/// The normalized forms of all characters of `s`, or `None` as soon as one
/// has none.
pub fn normalize_chars(s: &[char]) -> (r: Option<Vec<char>>)
    ensures
        all_normalizable(s@) <==> r is Some,
        r matches Some(v) ==> v@ == normalize_chars_spec(s@) && all_in_alphabet(v@),
        all_in_alphabet(s@) ==> (r matches Some(v) && v@ == s@),
{
    let n: usize = s.len();
    let mut v: Vec<char> = Vec::new();
    let mut i: usize = 0;
    while i < n
        invariant
            i <= n,
            n == s@.len(),
            all_normalizable(s@.take(i as int)),
            v@ == normalize_chars_spec(s@.take(i as int)),
            all_in_alphabet(v@),
            all_in_alphabet(s@) ==> v@ == s@.take(i as int),
        decreases n - i,
    {
        match normalize_character(s[i]) {
            Some(x) => {
                let ghost v0 = v@;
                v.push(x);
                assert(normalize_chars_spec(s@.take(i as int)).push(x) =~= normalize_chars_spec(
                    s@.take(i + 1),
                ));
                proof {
                    if all_in_alphabet(s@) {
                        assert(in_alphabet(s@[i as int]));
                        assert(v@ =~= s@.take(i + 1));
                    }
                }
                assert(s@.take(i + 1)[i as int] == s@[i as int]);
            },
            None => {
                assert(!(#[trigger] normalize_spec(s@[i as int]) is Some));
                assert(!in_alphabet(s@[i as int]));
                return None;
            },
        }
        i = i + 1;
    }
    assert(s@.take(n as int) =~= s@);
    Some(v)
}

/// A word in normalized form: lowercase letters of the alphabet only.
#[derive(Debug, Clone, Hash, PartialEq, Eq)]
pub struct NormalizedString(pub String);

impl NormalizedString {
    /// The characters of the word.
    pub open spec fn text(&self) -> Seq<char> {
        self.0@
    }

    /// Parses a text as a normalized word: surrounding white space is
    /// dropped, every other character must have a normalized form.
    pub fn from_str(s: &str) -> (r: Result<NormalizedString, ()>)
        ensures
            normalize_text_spec(s@) is Some <==> r is Ok,
            r matches Ok(n) ==> n.text() == normalize_text_spec(s@)->0,
            r matches Ok(n) ==> all_in_alphabet(n.text()),
            all_in_alphabet(s@) ==> (r matches Ok(n) && n.text() == s@),
    {
        let all = chars_of(s);
        let trimmed = trim_chars(&all);
        proof {
            if all_in_alphabet(s@) {
                lemma_alphabet_is_trimmed(s@);
            }
        }
        match normalize_chars(&trimmed) {
            Some(v) => {
                let mut out = String::new();
                let n: usize = v.len();
                let mut i: usize = 0;
                while i < n
                    invariant
                        i <= n,
                        n == v@.len(),
                        out@ == v@.take(i as int),
                    decreases n - i,
                {
                    push_char(&mut out, v[i]);
                    assert(v@.take(i as int).push(v@[i as int]) =~= v@.take(i + 1));
                    i = i + 1;
                }
                assert(v@.take(n as int) =~= v@);
                Ok(NormalizedString(out))
            },
            None => Err(()),
        }
    }

    /// The word as a string slice.
    pub fn as_ref(&self) -> (r: &str)
        ensures
            r@ == self.text(),
    {
        self.0.as_str()
    }
}

/// The accented vowels that the puzzle folds, each with its plain vowel.
pub open spec fn accented_vowels() -> Seq<(char, char)> {
    seq![
        ('á', 'a'), ('à', 'a'), ('ã', 'a'), ('â', 'a'),
        ('é', 'e'), ('ê', 'e'),
        ('í', 'i'),
        ('ó', 'o'), ('õ', 'o'), ('ô', 'o'),
        ('ú', 'u'), ('ü', 'u'),
    ]
}

/// The capital of a small Latin-1 letter (32 code points before it).
pub open spec fn capital(c: char) -> char {
    ((c as u32) - 32) as char
}

/// Each accented vowel of Portuguese (á à ã â, é ê, í, ó õ ô, ú ü), small
/// or capital, normalizes to its plain vowel, and each plain vowel, small
/// or capital, to itself.
pub proof fn law_accented_vowels_fold(k: int)
    requires
        0 <= k < accented_vowels().len(),
    ensures
        normalize_spec(accented_vowels()[k].0) == Some(accented_vowels()[k].1),
        normalize_spec(capital(accented_vowels()[k].0)) == Some(accented_vowels()[k].1),
        normalize_spec(accented_vowels()[k].1) == Some(accented_vowels()[k].1),
        normalize_spec(capital(accented_vowels()[k].1)) == Some(accented_vowels()[k].1),
{
}

} // verus!
