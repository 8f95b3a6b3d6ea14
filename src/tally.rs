use vstd::prelude::*;
use vstd::seq_lib::{to_multiset_remove, to_multiset_contains, to_multiset_len};

verus! {

/// The sum of `g` over the entries of `s`.
pub open spec fn tally<A>(s: Seq<A>, g: spec_fn(A) -> nat) -> nat
    decreases s.len(),
{
    if s.len() == 0 {
        0
    } else {
        tally(s.drop_last(), g) + g(s.last())
    }
}

pub proof fn lemma_tally_push<A>(s: Seq<A>, x: A, g: spec_fn(A) -> nat)
    ensures
        tally(s.push(x), g) == tally(s, g) + g(x),
{
    assert(s.push(x).drop_last() =~= s);
}

pub proof fn lemma_tally_remove<A>(s: Seq<A>, i: int, g: spec_fn(A) -> nat)
    requires
        0 <= i < s.len(),
    ensures
        tally(s, g) == tally(s.remove(i), g) + g(s[i]),
    decreases s.len(),
{
    if i == s.len() - 1 {
        assert(s.remove(i) =~= s.drop_last());
    } else {
        lemma_tally_remove(s.drop_last(), i, g);
        assert(s.remove(i).drop_last() =~= s.drop_last().remove(i));
        assert(s.remove(i).last() == s.last());
    }
}

pub proof fn lemma_tally_update<A>(s: Seq<A>, i: int, x: A, g: spec_fn(A) -> nat)
    requires
        0 <= i < s.len(),
    ensures
        tally(s.update(i, x), g) + g(s[i]) == tally(s, g) + g(x),
{
    lemma_tally_remove(s, i, g);
    lemma_tally_remove(s.update(i, x), i, g);
    assert(s.update(i, x).remove(i) =~= s.remove(i));
}

/// Sequences holding the same entries, in any order, have the same tally.
pub proof fn lemma_tally_permutation<A>(s1: Seq<A>, s2: Seq<A>, g: spec_fn(A) -> nat)
    requires
        s1.to_multiset() == s2.to_multiset(),
    ensures
        tally(s1, g) == tally(s2, g),
    decreases s1.len(),
{
    if s1.len() == 0 {
        to_multiset_len(s1);
        to_multiset_len(s2);
        assert(s2.len() == 0);
    } else {
        let x = s1.last();
        let n = s1.len() - 1;
        to_multiset_contains(s1, x);
        assert(s1[n] == x);
        assert(s1.contains(x));
        to_multiset_contains(s2, x);
        let i = choose|i: int| 0 <= i < s2.len() && s2[i] == x;
        to_multiset_remove(s1, n);
        to_multiset_remove(s2, i);
        assert(s1.remove(n) =~= s1.drop_last());
        lemma_tally_permutation(s1.drop_last(), s2.remove(i), g);
        lemma_tally_remove(s2, i, g);
    }
}

/// A tally is at least the summand of any one entry.
pub proof fn lemma_tally_at_least_entry<A>(s: Seq<A>, i: int, g: spec_fn(A) -> nat)
    requires
        0 <= i < s.len(),
    ensures
        tally(s, g) >= g(s[i]),
{
    lemma_tally_remove(s, i, g);
}

} // verus!
