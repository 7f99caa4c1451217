//! Facts about the descending order of cards: it is sorted, a permutation, and fixed by
//! the multiset of cards alone.
use vstd::multiset::Multiset;
use vstd::prelude::*;

use crate::cards::Card;
use crate::hand_evaluator::{lemma_max_index, lemma_sort_len, max_index, sort_desc, without_first};

verus! {

/// Whether the cards are in descending (rank, suit) order.
pub open spec fn is_desc(t: Seq<Card>) -> bool {
    forall|i: int, j: int| 0 <= i < j < t.len() ==> t[i].key() >= t[j].key()
}

proof fn lemma_max_is_max(s: Seq<Card>)
    requires
        s.len() > 0,
    ensures
        forall|i: int| 0 <= i < s.len() ==> (#[trigger] s[i]).key() <= s[max_index(s)].key(),
    decreases s.len(),
{
    lemma_max_index(s);
    if s.len() > 1 {
        lemma_max_is_max(s.drop_last());
        lemma_max_index(s.drop_last());
        assert forall|i: int| 0 <= i < s.len() implies (#[trigger] s[i]).key() <= s[max_index(
            s,
        )].key() by {
            if i < s.len() - 1 {
                assert(s[i] == s.drop_last()[i]);
            }
        }
    }
}

/// Sorting is a permutation.
pub proof fn lemma_sort_permutation(s: Seq<Card>)
    ensures
        sort_desc(s).to_multiset() == s.to_multiset(),
    decreases s.len(),
{
    broadcast use vstd::seq_lib::group_to_multiset_ensures;

    if s.len() > 0 {
        lemma_max_index(s);
        let m = max_index(s);
        let rest = s.remove(m);
        lemma_sort_permutation(rest);
        vstd::seq_lib::lemma_multiset_commutative(seq![s[m]], sort_desc(rest));
        assert(seq![s[m]].to_multiset() =~= Multiset::empty().insert(s[m])) by {
            assert(seq![s[m]] =~= Seq::<Card>::empty().push(s[m]));
        }
        assert(s.to_multiset() =~= rest.to_multiset().insert(s[m]));
    } else {
        assert(sort_desc(s) =~= s);
    }
}

/// Sorting puts the cards in descending order.
pub proof fn lemma_sort_sorted(s: Seq<Card>)
    ensures
        is_desc(sort_desc(s)),
    decreases s.len(),
{
    broadcast use vstd::seq_lib::group_to_multiset_ensures;

    if s.len() > 0 {
        lemma_max_index(s);
        lemma_max_is_max(s);
        let m = max_index(s);
        let rest = s.remove(m);
        lemma_sort_sorted(rest);
        lemma_sort_permutation(rest);
        let srt = sort_desc(s);
        assert forall|i: int, j: int| 0 <= i < j < srt.len() implies srt[i].key() >= srt[j].key() by {
            assert(srt[j] == sort_desc(rest)[j - 1]);
            if i > 0 {
                assert(srt[i] == sort_desc(rest)[i - 1]);
            } else {
                let x = sort_desc(rest)[j - 1];
                assert(sort_desc(rest).to_multiset().count(x) > 0);
                assert(rest.contains(x));
                let k = choose|k: int| 0 <= k < rest.len() && rest[k] == x;
                if k < m {
                    assert(s[k] == x);
                } else {
                    assert(s[k + 1] == x);
                }
            }
        }
    }
}

/// Cards with equal multisets sort to the same sequence.
pub proof fn lemma_sort_by_multiset(s1: Seq<Card>, s2: Seq<Card>)
    requires
        s1.to_multiset() == s2.to_multiset(),
    ensures
        sort_desc(s1) == sort_desc(s2),
    decreases s1.len(),
{
    broadcast use vstd::seq_lib::group_to_multiset_ensures;

    s1.to_multiset_ensures();
    s2.to_multiset_ensures();
    if s1.len() > 0 {
        lemma_max_index(s1);
        lemma_max_index(s2);
        lemma_max_is_max(s1);
        lemma_max_is_max(s2);
        let m1 = max_index(s1);
        let m2 = max_index(s2);
        let x1 = s1[m1];
        let x2 = s2[m2];
        assert(s1.contains(x1));
        assert(s2.contains(x2));
        vstd::seq_lib::to_multiset_contains(s1, x1);
        vstd::seq_lib::to_multiset_contains(s2, x1);
        vstd::seq_lib::to_multiset_contains(s1, x2);
        vstd::seq_lib::to_multiset_contains(s2, x2);
        assert(s2.contains(x1));
        assert(s1.contains(x2));
        let k2 = choose|k: int| 0 <= k < s2.len() && s2[k] == x1;
        let k1 = choose|k: int| 0 <= k < s1.len() && s1[k] == x2;
        assert(x1.key() == x2.key());
        assert(x1 == x2);
        assert(s1.remove(m1).to_multiset() =~= s2.remove(m2).to_multiset());
        lemma_sort_by_multiset(s1.remove(m1), s2.remove(m2));
    } else {
        assert(s2.len() == 0);
    }
}

/// Cards already in descending order sort to themselves.
pub proof fn lemma_sort_of_sorted(t: Seq<Card>)
    requires
        is_desc(t),
    ensures
        sort_desc(t) == t,
    decreases t.len(),
{
    if t.len() > 0 {
        lemma_first_is_max_index(t);
        let rest = t.remove(0);
        assert(rest =~= t.drop_first());
        assert(is_desc(rest)) by {
            assert forall|i: int, j: int| 0 <= i < j < rest.len() implies rest[i].key()
                >= rest[j].key() by {
                assert(rest[i] == t[i + 1] && rest[j] == t[j + 1]);
            }
        }
        lemma_sort_of_sorted(rest);
        assert(seq![t[0]] + rest =~= t);
    }
}

proof fn lemma_first_is_max_index(t: Seq<Card>)
    requires
        t.len() > 0,
        is_desc(t),
    ensures
        max_index(t) == 0,
    decreases t.len(),
{
    if t.len() > 1 {
        let d = t.drop_last();
        assert(is_desc(d)) by {
            assert forall|i: int, j: int| 0 <= i < j < d.len() implies d[i].key() >= d[j].key() by {
                assert(d[i] == t[i] && d[j] == t[j]);
            }
        }
        lemma_first_is_max_index(d);
        assert(t.last().key() <= t[0].key());
    }
}

/// Removing the first occurrence of a card removes one copy of it from the multiset.
pub proof fn lemma_without_first_multiset(s: Seq<Card>, x: Card)
    requires
        s.contains(x),
    ensures
        without_first(s, x).to_multiset() == s.to_multiset().remove(x),
    decreases s.len(),
{
    broadcast use vstd::seq_lib::group_to_multiset_ensures;

    let rest = s.drop_first();
    assert(s =~= seq![s[0]] + rest);
    vstd::seq_lib::lemma_multiset_commutative(seq![s[0]], rest);
    assert(seq![s[0]].to_multiset() =~= Multiset::empty().insert(s[0])) by {
        assert(seq![s[0]] =~= Seq::<Card>::empty().push(s[0]));
    }
    if s[0] == x {
        assert(s.to_multiset() =~= rest.to_multiset().insert(x));
    } else {
        let k = choose|k: int| 0 <= k < s.len() && s[k] == x;
        assert(rest[k - 1] == x);
        lemma_without_first_multiset(rest, x);
        vstd::seq_lib::lemma_multiset_commutative(seq![s[0]], without_first(rest, x));
    }
}

} // verus!
