//! Strict total orders on sequences: sortedness, the unique sorted
//! arrangement of a finite set, and insertion into a sorted sequence.

use vstd::prelude::*;

verus! {

/// `s` is sorted strictly by `lt`.
pub open spec fn sorted_by<A>(s: Seq<A>, lt: spec_fn(A, A) -> bool) -> bool {
    forall|i: int, j: int| #![trigger s[i], s[j]] 0 <= i < j < s.len() ==> lt(s[i], s[j])
}

/// `lt` is a strict total order on the values that satisfy `dom`.
pub open spec fn strict_total_on<A>(lt: spec_fn(A, A) -> bool, dom: spec_fn(A) -> bool) -> bool {
    &&& forall|a: A| #[trigger] dom(a) ==> !lt(a, a)
    &&& forall|a: A, b: A| dom(a) && dom(b) && a != b ==> #[trigger] lt(a, b) || #[trigger] lt(b, a)
    &&& forall|a: A, b: A, c: A|
        dom(a) && dom(b) && dom(c) && #[trigger] lt(a, b) && #[trigger] lt(b, c) ==> lt(a, c)
}

/// Every element of `s` satisfies `dom`.
pub open spec fn all_in<A>(s: Seq<A>, dom: spec_fn(A) -> bool) -> bool {
    forall|i: int| 0 <= i < s.len() ==> dom(#[trigger] s[i])
}

/// The elements of the finite set `set` sorted by `lt`.
pub open spec fn arranged<A>(set: Set<A>, lt: spec_fn(A, A) -> bool) -> Seq<A> {
    choose|s: Seq<A>| sorted_by(s, lt) && s.to_set() == set
}

/// A strictly sorted sequence has no element twice.
pub proof fn lemma_sorted_no_duplicates<A>(s: Seq<A>, lt: spec_fn(A, A) -> bool, dom: spec_fn(A) -> bool)
    requires
        sorted_by(s, lt),
        strict_total_on(lt, dom),
        all_in(s, dom),
    ensures
        s.no_duplicates(),
{
    assert forall|i: int, j: int| 0 <= i < s.len() && 0 <= j < s.len() && i != j implies s[i] != s[j] by {
        if i < j {
            assert(lt(s[i], s[j]));
            assert(dom(s[i]));
        } else {
            assert(lt(s[j], s[i]));
            assert(dom(s[j]));
        }
    }
}

/// Two sequences sorted strictly by the same strict total order, with the
/// same elements, are equal.
pub proof fn lemma_sorted_unique<A>(
    s1: Seq<A>,
    s2: Seq<A>,
    lt: spec_fn(A, A) -> bool,
    dom: spec_fn(A) -> bool,
)
    requires
        sorted_by(s1, lt),
        sorted_by(s2, lt),
        strict_total_on(lt, dom),
        all_in(s1, dom),
        all_in(s2, dom),
        s1.to_set() == s2.to_set(),
    ensures
        s1 == s2,
    decreases s1.len(),
{
    if s1.len() == 0 {
        if s2.len() > 0 {
            assert(s2.to_set().contains(s2[0]));
        }
        assert(s1 =~= s2);
    } else {
        assert(s1.to_set().contains(s1[0]));
        assert(s2.to_set().contains(s1[0]));
        let k = choose|k: int| 0 <= k < s2.len() && s2[k] == s1[0];
        assert(s2.to_set().contains(s2[0]));
        let m = choose|m: int| 0 <= m < s1.len() && s1[m] == s2[0];
        if s1[0] != s2[0] {
            assert(k > 0 && m > 0);
            assert(lt(s2[0], s2[k]));
            assert(lt(s1[0], s1[m]));
            assert(dom(s1[0]) && dom(s2[0]));
            assert(lt(s1[0], s1[0]));
        }
        lemma_sorted_no_duplicates(s1, lt, dom);
        lemma_sorted_no_duplicates(s2, lt, dom);
        let t1 = s1.drop_first();
        let t2 = s2.drop_first();
        assert(t1.to_set() == t2.to_set()) by {
            assert forall|x: A| t1.to_set().contains(x) implies t2.to_set().contains(x) by {
                let i = choose|i: int| 0 <= i < t1.len() && t1[i] == x;
                assert(s1[i + 1] == x);
                assert(s2.to_set().contains(x));
                let j = choose|j: int| 0 <= j < s2.len() && s2[j] == x;
                assert(j != 0);
                assert(t2[j - 1] == x);
            }
            assert forall|x: A| t2.to_set().contains(x) implies t1.to_set().contains(x) by {
                let i = choose|i: int| 0 <= i < t2.len() && t2[i] == x;
                assert(s2[i + 1] == x);
                assert(s1.to_set().contains(x));
                let j = choose|j: int| 0 <= j < s1.len() && s1[j] == x;
                assert(j != 0);
                assert(t1[j - 1] == x);
            }
            assert(t1.to_set() =~= t2.to_set());
        }
        assert(sorted_by(t1, lt)) by {
            assert forall|i: int, j: int| 0 <= i < j < t1.len() implies #[trigger] lt(t1[i], t1[j]) by {
                assert(lt(s1[i + 1], s1[j + 1]));
            }
        }
        assert(sorted_by(t2, lt)) by {
            assert forall|i: int, j: int| 0 <= i < j < t2.len() implies #[trigger] lt(t2[i], t2[j]) by {
                assert(lt(s2[i + 1], s2[j + 1]));
            }
        }
        assert(all_in(t1, dom)) by {
            assert forall|i: int| 0 <= i < t1.len() implies #[trigger] dom(t1[i]) by {
                assert(dom(s1[i + 1]));
            }
        }
        assert(all_in(t2, dom)) by {
            assert forall|i: int| 0 <= i < t2.len() implies #[trigger] dom(t2[i]) by {
                assert(dom(s2[i + 1]));
            }
        }
        lemma_sorted_unique(t1, t2, lt, dom);
        assert(s1 =~= s2) by {
            assert forall|i: int| 0 <= i < s1.len() implies s1[i] == s2[i] by {
                if i > 0 {
                    assert(s1[i] == t1[i - 1]);
                    assert(s2[i] == t2[i - 1]);
                }
            }
        }
    }
}

/// A strictly sorted sequence of the elements of a set is its arrangement.
pub proof fn lemma_arranged<A>(s: Seq<A>, set: Set<A>, lt: spec_fn(A, A) -> bool, dom: spec_fn(A) -> bool)
    requires
        sorted_by(s, lt),
        strict_total_on(lt, dom),
        all_in(s, dom),
        s.to_set() == set,
    ensures
        arranged(set, lt) == s,
{
    let t = arranged(set, lt);
    assert(sorted_by(t, lt) && t.to_set() == set);
    assert(all_in(t, dom)) by {
        assert forall|i: int| 0 <= i < t.len() implies #[trigger] dom(t[i]) by {
            assert(t.to_set().contains(t[i]));
            let j = choose|j: int| 0 <= j < s.len() && s[j] == t[i];
            assert(dom(s[j]));
        }
    }
    lemma_sorted_unique(t, s, lt, dom);
}

/// Inserting an element at its place keeps a sequence strictly sorted.
pub proof fn lemma_insert_sorted<A>(
    s: Seq<A>,
    j: int,
    x: A,
    lt: spec_fn(A, A) -> bool,
    dom: spec_fn(A) -> bool,
)
    requires
        sorted_by(s, lt),
        strict_total_on(lt, dom),
        all_in(s, dom),
        dom(x),
        0 <= j <= s.len(),
        forall|k: int| 0 <= k < j ==> lt(#[trigger] s[k], x),
        j < s.len() ==> lt(x, s[j]),
    ensures
        sorted_by(s.insert(j, x), lt),
        all_in(s.insert(j, x), dom),
        s.insert(j, x).to_set() == s.to_set().insert(x),
{
    let t = s.insert(j, x);
    assert forall|a: int, b: int| 0 <= a < b < t.len() implies #[trigger] lt(t[a], t[b]) by {
        if b < j {
            assert(t[a] == s[a] && t[b] == s[b]);
        } else if b == j {
            assert(t[a] == s[a]);
        } else if a == j {
            assert(t[b] == s[b - 1]);
            if b - 1 > j {
                assert(lt(s[j], s[b - 1]));
                assert(dom(s[j]) && dom(s[b - 1]));
            }
        } else if a < j {
            assert(t[a] == s[a] && t[b] == s[b - 1]);
        } else {
            assert(t[a] == s[a - 1] && t[b] == s[b - 1]);
        }
    }
    assert forall|i: int| 0 <= i < t.len() implies #[trigger] dom(t[i]) by {
        if i < j {
            assert(t[i] == s[i]);
        } else if i > j {
            assert(t[i] == s[i - 1]);
        }
    }
    assert(t.to_set() =~= s.to_set().insert(x)) by {
        assert forall|y: A| t.to_set().contains(y) implies s.to_set().insert(x).contains(y) by {
            let i = choose|i: int| 0 <= i < t.len() && t[i] == y;
            if i < j {
                assert(s[i] == y);
            } else if i > j {
                assert(s[i - 1] == y);
            }
        }
        assert forall|y: A| s.to_set().insert(x).contains(y) implies t.to_set().contains(y) by {
            if y == x {
                assert(t[j] == x);
            } else {
                let i = choose|i: int| 0 <= i < s.len() && s[i] == y;
                if i < j {
                    assert(t[i] == y);
                } else {
                    assert(t[i + 1] == y);
                }
            }
        }
    }
}


/// Inserting an element anywhere adds it to the set of elements.
pub proof fn lemma_insert_to_set<A>(s: Seq<A>, j: int, x: A)
    requires
        0 <= j <= s.len(),
    ensures
        s.insert(j, x).to_set() == s.to_set().insert(x),
{
    let t = s.insert(j, x);
    assert(t.to_set() =~= s.to_set().insert(x)) by {
        assert forall|y: A| t.to_set().contains(y) implies s.to_set().insert(x).contains(y) by {
            let i = choose|i: int| 0 <= i < t.len() && t[i] == y;
            if i < j {
                assert(s[i] == y);
            } else if i > j {
                assert(s[i - 1] == y);
            }
        }
        assert forall|y: A| s.to_set().insert(x).contains(y) implies t.to_set().contains(y) by {
            if y == x {
                assert(t[j] == x);
            } else {
                let i = choose|i: int| 0 <= i < s.len() && s[i] == y;
                if i < j {
                    assert(t[i] == y);
                } else {
                    assert(t[i + 1] == y);
                }
            }
        }
    }
}

/// Appending an element adds it to the set of elements.
pub proof fn lemma_push_to_set<A>(s: Seq<A>, x: A)
    ensures
        s.push(x).to_set() == s.to_set().insert(x),
{
    assert(s.push(x) =~= s.insert(s.len() as int, x));
    lemma_insert_to_set(s, s.len() as int, x);
}

} // verus!
