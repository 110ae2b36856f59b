//! Unicode collation of words, through feruca's `Collator`, and the orders
//! that the puzzle builder sorts by.

use vstd::prelude::*;
use std::cmp::Ordering;
use feruca::Collator;
use crate::normalize::{in_alphabet, all_in_alphabet, normalize_spec};
use crate::order::strict_total_on;
use crate::game::utf8_len;

verus! {

/// feruca's collator, carried through as an opaque value.
#[verifier::external_type_specification]
#[verifier::external_body]
pub struct ExCollator(Collator);

/// Name for what feruca's `Collator::collate` returns, under the
/// collator's default options (CLDR root table, shifted variable weights,
/// byte-value tie-breaking), written -1, 0 or 1 for less, equal, greater.
pub uninterp spec fn collation(a: Seq<char>, b: Seq<char>) -> i8;

/// A collator with feruca's default options.
pub struct DefaultCollator {
    inner: Collator,
}

impl DefaultCollator {
    /// Calls `Collator::default`; nothing is claimed of the value.
    #[verifier::external_body]
    pub(crate) fn new() -> (r: DefaultCollator) {
        DefaultCollator { inner: Collator::default() }
    }

    /// Calls `Collator::collate` on two strings. The contract names the
    /// result and claims what the source shows plainly: the answer is one
    /// of the three orderings; equal strings compare equal (the function
    /// returns early on byte equality); and two different texts of letters
    /// of the alphabet never compare equal. For the last: every early
    /// answer of `collate` is either a difference it found or a comparison
    /// of lengths after a common prefix of identical code points, and a
    /// tie of the collation weights is broken by comparing the bytes (the
    /// default options); canonical decomposition, the only step that can
    /// make different texts alike, is one-to-one on these letters (only
    /// `ç` decomposes, and no combining mark is among them).
    #[verifier::external_body]
    pub(crate) fn collate(&mut self, a: &str, b: &str) -> (r: i8)
        ensures
            r == collation(a@, b@),
            -1 <= r <= 1,
            a@ == b@ ==> r == 0,
            all_in_alphabet(a@) && all_in_alphabet(b@) && a@ != b@ ==> r != 0,
    {
        match self.inner.collate(a, b) {
            Ordering::Less => -1,
            Ordering::Equal => 0,
            Ordering::Greater => 1,
        }
    }
}

/// `a` collates before `b`.
pub open spec fn collates_before(a: Seq<char>, b: Seq<char>) -> bool {
    collation(a, b) < 0
}

/// Texts the puzzle builder compares: made of letters of the alphabet, or
/// of characters with a normalized form.
pub open spec fn collatable(s: Seq<char>) -> bool {
    forall|i: int| 0 <= i < s.len() ==> in_alphabet(#[trigger] s[i]) || normalize_spec(s[i]) is Some
}

/// The collation behaves as a strict total order on the texts the puzzle
/// builder compares: equal exactly on equal texts, antisymmetric, and
/// transitive. Nothing in this library can establish this of feruca; the
/// puzzle builder's ordering guarantees are stated under it.
pub open spec fn collation_is_total_order() -> bool {
    &&& forall|a: Seq<char>, b: Seq<char>|
        collatable(a) && collatable(b) ==> (#[trigger] collation(a, b) == 0 <==> a == b)
    &&& forall|a: Seq<char>, b: Seq<char>|
        collatable(a) && collatable(b) ==> (#[trigger] collation(a, b) < 0 <==> collation(b, a) > 0)
    &&& forall|a: Seq<char>, b: Seq<char>, c: Seq<char>|
        collatable(a) && collatable(b) && collatable(c) && #[trigger] collation(a, b) < 0
            && #[trigger] collation(b, c) < 0 ==> collation(a, c) < 0
}

/// Letters in the order of their one-letter texts.
pub open spec fn letter_before(a: char, b: char) -> bool {
    collates_before(seq![a], seq![b])
}

/// The order of the words of a puzzle: shorter (in bytes) first, then by
/// collation.
pub open spec fn word_before(a: Seq<char>, b: Seq<char>) -> bool {
    utf8_len(a) < utf8_len(b) || (utf8_len(a) == utf8_len(b) && collates_before(a, b))
}

/// Words over the alphabet can be handed to the collator.
pub proof fn lemma_alphabet_collatable(s: Seq<char>)
    requires
        all_in_alphabet(s),
    ensures
        collatable(s),
{
}

/// Under a total collation, texts collate in a strict total order.
pub proof fn lemma_text_order()
    requires
        collation_is_total_order(),
    ensures
        strict_total_on(|a: Seq<char>, b: Seq<char>| collates_before(a, b), |s: Seq<char>| collatable(s)),
{
    assert forall|a: Seq<char>| #[trigger] collatable(a) implies !collates_before(a, a) by {
        assert(collation(a, a) == 0);
    }
}

/// Under a total collation, letters collate in a strict total order.
pub proof fn lemma_letter_order()
    requires
        collation_is_total_order(),
    ensures
        strict_total_on(|a: char, b: char| letter_before(a, b), |c: char| in_alphabet(c)),
{
    assert forall|a: char| #[trigger] in_alphabet(a) implies !letter_before(a, a) by {
        assert(collatable(seq![a]));
        assert(collation(seq![a], seq![a]) == 0);
    }
    assert forall|a: char, b: char| in_alphabet(a) && in_alphabet(b) && a != b implies #[trigger] letter_before(a, b)
        || #[trigger] letter_before(b, a) by {
        assert(collatable(seq![a]) && collatable(seq![b]));
        assert(seq![a] != seq![b]) by {
            assert(seq![a][0] != seq![b][0]);
        }
    }
    assert forall|a: char, b: char, c: char|
        in_alphabet(a) && in_alphabet(b) && in_alphabet(c) && #[trigger] letter_before(a, b)
            && #[trigger] letter_before(b, c) implies letter_before(a, c) by {
        assert(collatable(seq![a]) && collatable(seq![b]) && collatable(seq![c]));
    }
}

/// Under a total collation, the words of a puzzle are in a strict total
/// order.
pub proof fn lemma_word_order()
    requires
        collation_is_total_order(),
    ensures
        strict_total_on(|a: Seq<char>, b: Seq<char>| word_before(a, b), |s: Seq<char>| all_in_alphabet(s)),
{
    assert forall|a: Seq<char>| #[trigger] all_in_alphabet(a) implies !word_before(a, a) by {
        assert(collatable(a));
        assert(collation(a, a) == 0);
    }
    assert forall|a: Seq<char>, b: Seq<char>| all_in_alphabet(a) && all_in_alphabet(b) && a != b implies #[trigger] word_before(a, b)
        || #[trigger] word_before(b, a) by {
        assert(collatable(a) && collatable(b));
    }
    assert forall|a: Seq<char>, b: Seq<char>, c: Seq<char>|
        all_in_alphabet(a) && all_in_alphabet(b) && all_in_alphabet(c) && #[trigger] word_before(a, b)
            && #[trigger] word_before(b, c) implies word_before(a, c) by {
        assert(collatable(a) && collatable(b) && collatable(c));
    }
}

} // verus!
