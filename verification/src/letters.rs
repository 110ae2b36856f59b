//! The alphabet of normalized words: its order, the set of letters a word
//! uses, and a numeric code for short words.

use vstd::prelude::*;
use crate::normalize::{in_alphabet, all_in_alphabet};

verus! {

/// The letters of the alphabet, in a fixed order.
pub open spec fn alphabet() -> Seq<char> {
    seq![
        'a', 'b', 'c', 'ç', 'd', 'e', 'f', 'g', 'h', 'i', 'j', 'l', 'm', 'n', 'o', 'p', 'q', 'r', 's',
        't', 'u', 'v', 'x', 'z',
    ]
}

/// The position of a letter in the alphabet.
pub open spec fn letter_index_spec(c: char) -> int {
    if c == 'a' { 0 } else if c == 'b' { 1 } else if c == 'c' { 2 } else if c == 'ç' { 3 }
    else if c == 'd' { 4 } else if c == 'e' { 5 } else if c == 'f' { 6 } else if c == 'g' { 7 }
    else if c == 'h' { 8 } else if c == 'i' { 9 } else if c == 'j' { 10 } else if c == 'l' { 11 }
    else if c == 'm' { 12 } else if c == 'n' { 13 } else if c == 'o' { 14 } else if c == 'p' { 15 }
    else if c == 'q' { 16 } else if c == 'r' { 17 } else if c == 's' { 18 } else if c == 't' { 19 }
    else if c == 'u' { 20 } else if c == 'v' { 21 } else if c == 'x' { 22 } else { 23 }
}

/// The letters of the alphabet prefix `alpha` that occur in `n`, in the
/// order of `alpha`.
pub open spec fn letters_in(alpha: Seq<char>, n: Seq<char>) -> Seq<char>
    decreases alpha.len(),
{
    if alpha.len() == 0 {
        Seq::empty()
    } else if n.contains(alpha.last()) {
        letters_in(alpha.drop_last(), n).push(alpha.last())
    } else {
        letters_in(alpha.drop_last(), n)
    }
}

/// The distinct letters of a word, in alphabet order.
pub open spec fn letters_spec(n: Seq<char>) -> Seq<char> {
    letters_in(alphabet(), n)
}

/// A numeric code for a word over the alphabet: its letters read as the
/// digits 1 to 24 of a number in base 25.
pub open spec fn word_code(s: Seq<char>) -> int
    decreases s.len(),
{
    if s.len() == 0 {
        0
    } else {
        word_code(s.drop_last()) * 25 + letter_index_spec(s.last()) + 1
    }
}

/// `25` to the power `n`.
pub open spec fn pow25(n: nat) -> int
    decreases n,
{
    if n == 0 {
        1
    } else {
        25 * pow25((n - 1) as nat)
    }
}

/// The longest word that gets a code.
pub const MAX_CODED_LEN: usize = 27;

/// The letters of the alphabet are exactly those of `in_alphabet`, each at
/// its index.
pub proof fn lemma_alphabet_index(c: char)
    ensures
        in_alphabet(c) <==> alphabet().contains(c),
        in_alphabet(c) ==> 0 <= letter_index_spec(c) < 24 && alphabet()[letter_index_spec(c)] == c,
{
    if in_alphabet(c) {
        assert(alphabet()[letter_index_spec(c)] == c);
    }
    if alphabet().contains(c) {
        let k = choose|k: int| 0 <= k < alphabet().len() && alphabet()[k] == c;
        assert(in_alphabet(alphabet()[k]));
    }
}

/// The alphabet has twenty-four distinct letters.
pub proof fn lemma_alphabet_distinct()
    ensures
        alphabet().no_duplicates(),
        alphabet().len() == 24,
        forall|k: int| 0 <= k < 24 ==> letter_index_spec(#[trigger] alphabet()[k]) == k,
{
}

/// A letter occurs among `letters_in(alpha, n)` exactly when it occurs in
/// both `alpha` and `n`; those letters are distinct when `alpha`'s are.
pub proof fn lemma_letters_in(alpha: Seq<char>, n: Seq<char>)
    ensures
        forall|c: char| #[trigger] letters_in(alpha, n).contains(c) <==> (alpha.contains(c) && n.contains(c)),
        alpha.no_duplicates() ==> letters_in(alpha, n).no_duplicates(),
        letters_in(alpha, n).len() <= alpha.len(),
    decreases alpha.len(),
{
    if alpha.len() > 0 {
        let rest = letters_in(alpha.drop_last(), n);
        lemma_letters_in(alpha.drop_last(), n);
        assert forall|c: char| #[trigger] letters_in(alpha, n).contains(c) <==> (alpha.contains(c) && n.contains(c)) by {
            if alpha.contains(c) {
                let k = choose|k: int| 0 <= k < alpha.len() && alpha[k] == c;
                if k < alpha.len() - 1 {
                    assert(alpha.drop_last()[k] == c);
                }
            }
            if alpha.drop_last().contains(c) {
                let k = choose|k: int| 0 <= k < alpha.drop_last().len() && alpha.drop_last()[k] == c;
                assert(alpha[k] == c);
            }
            if n.contains(alpha.last()) {
                assert(rest.push(alpha.last())[rest.len() as int] == alpha.last());
                if rest.contains(c) {
                    let k = choose|k: int| 0 <= k < rest.len() && rest[k] == c;
                    assert(rest.push(alpha.last())[k] == c);
                }
                if rest.push(alpha.last()).contains(c) && c != alpha.last() {
                    let k = choose|k: int| 0 <= k < rest.len() + 1 && rest.push(alpha.last())[k] == c;
                    assert(rest[k] == c);
                }
            }
        }
        if alpha.no_duplicates() && n.contains(alpha.last()) {
            assert(!alpha.drop_last().contains(alpha.last())) by {
                if alpha.drop_last().contains(alpha.last()) {
                    let k = choose|k: int| 0 <= k < alpha.drop_last().len() && alpha.drop_last()[k] == alpha.last();
                    assert(alpha[k] == alpha[alpha.len() - 1]);
                }
            }
            assert(!rest.contains(alpha.last()));
            assert forall|i: int, j: int| 0 <= i < j < rest.len() + 1 implies rest.push(alpha.last())[i] != rest.push(alpha.last())[j] by {
                if j == rest.len() {
                    assert(rest.push(alpha.last())[i] == rest[i]);
                }
            }
        }
    }
}

/// The letters of a word depend only on which letters occur in it.
pub proof fn lemma_letters_same_set(alpha: Seq<char>, n: Seq<char>, m: Seq<char>)
    requires
        forall|c: char| n.contains(c) <==> m.contains(c),
    ensures
        letters_in(alpha, n) == letters_in(alpha, m),
    decreases alpha.len(),
{
    if alpha.len() > 0 {
        lemma_letters_same_set(alpha.drop_last(), n, m);
    }
}

/// Powers of 25 are positive, and each is 25 times the one before.
pub proof fn lemma_pow25_positive(n: nat)
    ensures
        pow25(n) >= 1,
        pow25(n + 1) == 25 * pow25(n),
    decreases n,
{
    if n > 0 {
        lemma_pow25_positive((n - 1) as nat);
    }
}

/// Up to the longest coded length, powers of 25 fit in a `u128`.
pub proof fn lemma_pow25_bound(n: nat)
    requires
        n <= 27,
    ensures
        pow25(n) <= pow25(27),
        pow25(27) < 0x1_0000_0000_0000_0000_0000_0000_0000_0000,
    decreases 27 - n,
{
    reveal_with_fuel(pow25, 28);
    if n < 27 {
        lemma_pow25_bound(n + 1);
        lemma_pow25_positive(n);
    }
}

/// Codes are below `25` to the power of the length, and differ for
/// different words over the alphabet.
pub proof fn lemma_word_code(s: Seq<char>)
    requires
        all_in_alphabet(s),
    ensures
        0 <= word_code(s) < pow25(s.len()),
        s.len() > 0 ==> word_code(s) % 25 == letter_index_spec(s.last()) + 1,
        s.len() > 0 ==> word_code(s) / 25 == word_code(s.drop_last()),
    decreases s.len(),
{
    if s.len() > 0 {
        assert(all_in_alphabet(s.drop_last())) by {
            assert forall|i: int| 0 <= i < s.drop_last().len() implies in_alphabet(#[trigger] s.drop_last()[i]) by {
                assert(s.drop_last()[i] == s[i]);
            }
        }
        lemma_word_code(s.drop_last());
        lemma_alphabet_index(s.last());
        lemma_pow25_positive(s.drop_last().len());
        let q = word_code(s.drop_last());
        let d = letter_index_spec(s.last()) + 1;
        assert(0 < d < 25);
        assert(q * 25 + d < pow25(s.len())) by (nonlinear_arith)
            requires
                0 <= q < pow25(s.drop_last().len()),
                0 < d < 25,
                pow25(s.len()) == 25 * pow25(s.drop_last().len()),
        ;
        vstd::arithmetic::div_mod::lemma_fundamental_div_mod_converse(q * 25 + d, 25, q, d);
    }
}

/// Two words over the alphabet with the same code are the same word.
pub proof fn lemma_word_code_injective(s: Seq<char>, t: Seq<char>)
    requires
        all_in_alphabet(s),
        all_in_alphabet(t),
        word_code(s) == word_code(t),
    ensures
        s == t,
    decreases s.len(),
{
    lemma_word_code(s);
    lemma_word_code(t);
    if s.len() == 0 || t.len() == 0 {
        if s.len() > 0 {
            assert(word_code(s) % 25 > 0);
        }
        if t.len() > 0 {
            assert(word_code(t) % 25 > 0);
        }
        assert(s =~= t);
    } else {
        assert(all_in_alphabet(s.drop_last())) by {
            assert forall|i: int| 0 <= i < s.drop_last().len() implies in_alphabet(#[trigger] s.drop_last()[i]) by {
                assert(s.drop_last()[i] == s[i]);
            }
        }
        assert(all_in_alphabet(t.drop_last())) by {
            assert forall|i: int| 0 <= i < t.drop_last().len() implies in_alphabet(#[trigger] t.drop_last()[i]) by {
                assert(t.drop_last()[i] == t[i]);
            }
        }
        lemma_word_code_injective(s.drop_last(), t.drop_last());
        lemma_alphabet_index(s.last());
        lemma_alphabet_index(t.last());
        assert(s.last() == t.last());
        assert(s =~= s.drop_last().push(s.last()));
        assert(t =~= t.drop_last().push(t.last()));
    }
}

/// The letter at a position of the alphabet.
pub fn letter_at(k: usize) -> (c: char)
    requires
        k < 24,
    ensures
        c == alphabet()[k as int],
        in_alphabet(c),
{
    match k {
        0 => 'a', 1 => 'b', 2 => 'c', 3 => 'ç', 4 => 'd', 5 => 'e', 6 => 'f', 7 => 'g', 8 => 'h',
        9 => 'i', 10 => 'j', 11 => 'l', 12 => 'm', 13 => 'n', 14 => 'o', 15 => 'p', 16 => 'q',
        17 => 'r', 18 => 's', 19 => 't', 20 => 'u', 21 => 'v', 22 => 'x', _ => 'z',
    }
}

/// The position of a letter in the alphabet.
pub fn letter_index(c: char) -> (k: usize)
    requires
        in_alphabet(c),
    ensures
        k == letter_index_spec(c),
        k < 24,
        alphabet()[k as int] == c,
{
    proof {
        lemma_alphabet_index(c);
    }
    if c == 'a' { 0 } else if c == 'b' { 1 } else if c == 'c' { 2 } else if c == 'ç' { 3 }
    else if c == 'd' { 4 } else if c == 'e' { 5 } else if c == 'f' { 6 } else if c == 'g' { 7 }
    else if c == 'h' { 8 } else if c == 'i' { 9 } else if c == 'j' { 10 } else if c == 'l' { 11 }
    else if c == 'm' { 12 } else if c == 'n' { 13 } else if c == 'o' { 14 } else if c == 'p' { 15 }
    else if c == 'q' { 16 } else if c == 'r' { 17 } else if c == 's' { 18 } else if c == 't' { 19 }
    else if c == 'u' { 20 } else if c == 'v' { 21 } else if c == 'x' { 22 } else { 23 }
}

/// The distinct letters of a word over the alphabet, in alphabet order.
pub fn letters_of(n: &[char]) -> (r: Vec<char>)
    requires
        all_in_alphabet(n@),
    ensures
        r@ == letters_spec(n@),
{
    let mut present: Vec<bool> = Vec::new();
    let mut k: usize = 0;
    while k < 24
        invariant
            k <= 24,
            present@.len() == k,
            forall|j: int| 0 <= j < k ==> !(#[trigger] present@[j]),
        decreases 24 - k,
    {
        present.push(false);
        k = k + 1;
    }
    let len: usize = n.len();
    let mut i: usize = 0;
    while i < len
        invariant
            i <= len,
            len == n@.len(),
            all_in_alphabet(n@),
            present@.len() == 24,
            forall|j: int| 0 <= j < 24 ==> (#[trigger] present@[j] <==> n@.take(i as int).contains(alphabet()[j])),
        decreases len - i,
    {
        let c = n[i];
        assert(in_alphabet(n@[i as int]));
        let idx = letter_index(c);
        present.set(idx, true);
        proof {
            lemma_alphabet_distinct();
            assert forall|j: int| 0 <= j < 24 implies (#[trigger] present@[j] <==> n@.take(i + 1).contains(alphabet()[j])) by {
                assert(n@.take(i + 1) =~= n@.take(i as int).push(c));
                if n@.take(i as int).contains(alphabet()[j]) {
                    let m = choose|m: int| 0 <= m < i && #[trigger] n@.take(i as int)[m] == alphabet()[j];
                    assert(n@.take(i + 1)[m] == alphabet()[j]);
                }
                if n@.take(i + 1).contains(alphabet()[j]) {
                    let m = choose|m: int| 0 <= m < i + 1 && #[trigger] n@.take(i + 1)[m] == alphabet()[j];
                    if m < i {
                        assert(n@.take(i as int)[m] == alphabet()[j]);
                    } else {
                        assert(alphabet()[j] == c);
                        assert(j == idx);
                    }
                }
                if j == idx {
                    assert(n@.take(i + 1)[i as int] == c);
                }
            }
        }
        i = i + 1;
    }
    assert(n@.take(len as int) =~= n@);
    let mut r: Vec<char> = Vec::new();
    let mut k: usize = 0;
    while k < 24
        invariant
            k <= 24,
            present@.len() == 24,
            forall|j: int| 0 <= j < 24 ==> (#[trigger] present@[j] <==> n@.contains(alphabet()[j])),
            r@ == letters_in(alphabet().take(k as int), n@),
        decreases 24 - k,
    {
        let c = letter_at(k);
        assert(alphabet().take(k + 1).drop_last() =~= alphabet().take(k as int));
        assert(alphabet().take(k + 1).last() == c);
        if present[k] {
            r.push(c);
        }
        k = k + 1;
    }
    assert(alphabet().take(24) =~= alphabet());
    r
}

/// The code of a word over the alphabet of at most `MAX_CODED_LEN` letters.
pub fn code_of(s: &[char]) -> (r: u128)
    requires
        all_in_alphabet(s@),
        s@.len() <= MAX_CODED_LEN,
    ensures
        r == word_code(s@),
{
    let len: usize = s.len();
    let mut code: u128 = 0;
    let mut i: usize = 0;
    proof {
        lemma_pow25_bound(len as nat);
    }
    while i < len
        invariant
            i <= len,
            len == s@.len(),
            len <= 27,
            all_in_alphabet(s@),
            code == word_code(s@.take(i as int)),
            pow25(len as nat) < 0x1_0000_0000_0000_0000_0000_0000_0000_0000,
        decreases len - i,
    {
        let ghost prefix = s@.take(i + 1);
        assert(prefix.drop_last() =~= s@.take(i as int));
        assert(prefix.last() == s@[i as int]);
        assert(all_in_alphabet(prefix)) by {
            assert forall|j: int| 0 <= j < prefix.len() implies in_alphabet(#[trigger] prefix[j]) by {
                assert(prefix[j] == s@[j]);
            }
        }
        proof {
            lemma_word_code(prefix);
            lemma_pow25_monotone((i + 1) as nat, len as nat);
        }
        assert(in_alphabet(s@[i as int]));
        let d = letter_index(s[i]) as u128;
        code = code * 25 + d + 1;
        i = i + 1;
    }
    assert(s@.take(len as int) =~= s@);
    code
}

proof fn lemma_pow25_monotone(a: nat, b: nat)
    requires
        a <= b,
    ensures
        pow25(a) <= pow25(b),
    decreases b - a,
{
    if a < b {
        lemma_pow25_monotone(a, (b - 1) as nat);
        lemma_pow25_positive((b - 1) as nat);
    }
}

} // verus!
