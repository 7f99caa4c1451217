//! Classifying the qualifying cards of a classification again.
use vstd::multiset::Multiset;
use vstd::prelude::*;

use crate::cardset::in_suit;
use crate::sort_facts::{
    is_desc, lemma_sort_by_multiset, lemma_sort_of_sorted, lemma_sort_permutation, lemma_sort_sorted,
    lemma_without_first_multiset,
};

use crate::cards::{Card, HandKind, Suit};
use crate::hand_evaluator::{
    cards_of_matched_ranks, classify, count_rank, full_house, matched_ranks, qualifying, rank_match,
    run, scan_run, sort_desc, strongest, suit_match, max_index, pattern, count_suit, without_first, same_suit, Options,
    lemma_sort_len, lemma_max_index, lemma_strongest_pattern_wins,
};

verus! {

proof fn lemma_count_kept(t: Seq<Card>, full: Seq<Card>, size: nat, k: int)
    ensures
        count_rank(cards_of_matched_ranks(t, full, size), k) == if count_rank(full, k) == size {
            count_rank(t, k)
        } else {
            0
        },
    decreases t.len(),
{
    if t.len() > 0 {
        let p = cards_of_matched_ranks(t.drop_last(), full, size);
        lemma_count_kept(t.drop_last(), full, size, k);
        assert(p.push(t.last()).drop_last() =~= p);
    }
}

proof fn lemma_kept_match(t: Seq<Card>, full: Seq<Card>, size: nat)
    ensures
        cards_of_matched_ranks(t, full, size).len() <= t.len(),
        cards_of_matched_ranks(t, full, size).len() == t.len() ==> cards_of_matched_ranks(
            t,
            full,
            size,
        ) == t,
        forall|i: int|
            0 <= i < cards_of_matched_ranks(t, full, size).len() ==> count_rank(
                full,
                (#[trigger] cards_of_matched_ranks(t, full, size)[i]).rank.ord(),
            ) == size,
    decreases t.len(),
{
    if t.len() > 0 {
        lemma_kept_match(t.drop_last(), full, size);
        let p = cards_of_matched_ranks(t.drop_last(), full, size);
        if count_rank(full, t.last().rank.ord()) == size {
            if p.len() == t.drop_last().len() {
                assert(t.drop_last().push(t.last()) =~= t);
            }
        }
    }
}

proof fn lemma_keep_all(t: Seq<Card>, full: Seq<Card>, size: nat)
    requires
        forall|i: int| 0 <= i < t.len() ==> count_rank(full, (#[trigger] t[i]).rank.ord()) == size,
    ensures
        cards_of_matched_ranks(t, full, size) == t,
    decreases t.len(),
{
    if t.len() > 0 {
        assert forall|i: int| 0 <= i < t.drop_last().len() implies count_rank(
            full,
            (#[trigger] t.drop_last()[i]).rank.ord(),
        ) == size by {
            assert(t.drop_last()[i] == t[i]);
        }
        lemma_keep_all(t.drop_last(), full, size);
        assert(t.drop_last().push(t.last()) =~= t);
    }
}

proof fn lemma_matched_two(s: Seq<Card>, size: nat, n: int, k1: int, k2: int)
    requires
        0 <= k1 < k2,
    ensures
        matched_ranks(s, size, n) >= (if k1 < n && count_rank(s, k1) == size {
            1int
        } else {
            0int
        }) + (if k2 < n && count_rank(s, k2) == size {
            1int
        } else {
            0int
        }),
    decreases n,
{
    if n > 0 {
        lemma_matched_two(s, size, n - 1, k1, k2);
    }
}

proof fn lemma_one_rank(t: Seq<Card>, r: int)
    requires
        forall|i: int| 0 <= i < t.len() ==> (#[trigger] t[i]).rank.ord() == r,
    ensures
        forall|k: int| #[trigger] count_rank(t, k) == if k == r {
            t.len()
        } else {
            0
        },
    decreases t.len(),
{
    if t.len() > 0 {
        assert forall|i: int| 0 <= i < t.drop_last().len() implies (
        #[trigger] t.drop_last()[i]).rank.ord() == r by {
            assert(t.drop_last()[i] == t[i]);
        }
        lemma_one_rank(t.drop_last(), r);
        assert forall|k: int| #[trigger] count_rank(t, k) == if k == r {
            t.len()
        } else {
            0
        } by {
            assert(count_rank(t.drop_last(), k) == if k == r {
                t.drop_last().len()
            } else {
                0
            });
        }
    }
}

proof fn lemma_matched_single(q: Seq<Card>, r: int, m: nat, size: nat, n: int)
    requires
        forall|k: int| #[trigger] count_rank(q, k) == if k == r {
            m
        } else {
            0
        },
        size > 0,
    ensures
        matched_ranks(q, size, n) == if m == size && 0 <= r < n {
            1nat
        } else {
            0nat
        },
    decreases n,
{
    if n > 0 {
        lemma_matched_single(q, r, m, size, n - 1);
        assert(count_rank(q, n - 1) == if n - 1 == r {
            m
        } else {
            0
        });
    }
}

/// The cards that a single-rank match keeps all share one rank, and there are `size` of them.
proof fn lemma_single_rank_match(s: Seq<Card>, size: nat) -> (r: int)
    requires
        size > 0,
        rank_match(s, size, 1) is Some,
    ensures
        0 <= r < 13,
        rank_match(s, size, 1).unwrap().len() == size,
        forall|i: int|
            0 <= i < rank_match(s, size, 1).unwrap().len() ==> (#[trigger] rank_match(
                s,
                size,
                1,
            ).unwrap()[i]).rank.ord() == r,
{
    let q = cards_of_matched_ranks(s, s, size);
    lemma_kept_match(s, s, size);
    let r = choose|r: int| 0 <= r < 13 && count_rank(s, r) == size;
    assert(exists|r: int| 0 <= r < 13 && count_rank(s, r) == size) by {
        if forall|r: int| 0 <= r < 13 ==> count_rank(s, r) != size {
            lemma_no_match(s, size, 13);
        }
    }
    assert forall|i: int| 0 <= i < q.len() implies (#[trigger] q[i]).rank.ord() == r by {
        let k = q[i].rank.ord();
        assert(count_rank(s, k) == size);
        if k != r {
            if k < r {
                lemma_matched_two(s, size, 13, k, r);
            } else {
                lemma_matched_two(s, size, 13, r, k);
            }
        }
    }
    lemma_one_rank(q, r);
    lemma_count_kept(s, s, size, r);
    r
}

proof fn lemma_no_match(s: Seq<Card>, size: nat, n: int)
    requires
        forall|r: int| 0 <= r < n ==> count_rank(s, r) != size,
    ensures
        matched_ranks(s, size, n) == 0,
    decreases n,
{
    if n > 0 {
        lemma_no_match(s, size, n - 1);
    }
}

/// Classification of a few cards of one rank: fewer than four cards of one rank are the
/// `len`-of-a-kind of that rank (a lone card is its own high card).
proof fn lemma_classify_one_rank(q: Seq<Card>, r: int, opts: Options)
    requires
        1 <= q.len() <= 3,
        0 <= r < 13,
        forall|i: int| 0 <= i < q.len() ==> (#[trigger] q[i]).rank.ord() == r,
    ensures
        classify(q, opts) == Some(
            (
                if q.len() == 1 {
                    HandKind::HighCard
                } else if q.len() == 2 {
                    HandKind::Pair
                } else {
                    HandKind::ThreeOfAKind
                },
                q,
            ),
        ),
{
    lemma_one_rank(q, r);
    lemma_sort_len(q);
    assert(!suit_match(q, false) && !suit_match(q, true));
    assert(run(q, opts) is None);
    assert(!full_house(sort_desc(q)));
    lemma_matched_single(q, r, q.len(), 5, 13);
    lemma_matched_single(q, r, q.len(), 4, 13);
    lemma_matched_single(q, r, q.len(), 3, 13);
    lemma_matched_single(q, r, q.len(), 2, 13);
    assert forall|i: int| 0 <= i < q.len() implies count_rank(q, (#[trigger] q[i]).rank.ord())
        == q.len() by {}
    lemma_keep_all(q, q, q.len());
    if q.len() == 1 {
        assert(q.remove(0) =~= Seq::<Card>::empty());
        assert(sort_desc(q) =~= seq![q[0]] + Seq::<Card>::empty());
        assert(seq![sort_desc(q)[0]] =~= q);
    }
}

proof fn lemma_sort_one_rank(s: Seq<Card>, r: int)
    requires
        forall|i: int| 0 <= i < s.len() ==> (#[trigger] s[i]).rank.ord() == r,
    ensures
        forall|i: int| 0 <= i < sort_desc(s).len() ==> (#[trigger] sort_desc(s)[i]).rank.ord() == r,
    decreases s.len(),
{
    if s.len() > 0 {
        lemma_max_index(s);
        let m = max_index(s);
        let rest = s.remove(m);
        assert forall|i: int| 0 <= i < rest.len() implies (#[trigger] rest[i]).rank.ord() == r by {
            if i < m {
                assert(rest[i] == s[i]);
            } else {
                assert(rest[i] == s[i + 1]);
            }
        }
        lemma_sort_one_rank(rest, r);
        assert forall|i: int| 0 <= i < sort_desc(s).len() implies (
        #[trigger] sort_desc(s)[i]).rank.ord() == r by {
            if i > 0 {
                assert(sort_desc(s)[i] == sort_desc(rest)[i - 1]);
            }
        }
    }
}

/// Four cards of one rank are four of a kind, justified by all four.
proof fn lemma_classify_four_of_rank(q: Seq<Card>, r: int, opts: Options)
    requires
        q.len() == 4,
        0 <= r < 13,
        forall|i: int| 0 <= i < q.len() ==> (#[trigger] q[i]).rank.ord() == r,
    ensures
        classify(q, opts) == Some((HandKind::FourOfAKind, q)),
{
    lemma_one_rank(q, r);
    lemma_sort_len(q);
    lemma_sort_one_rank(q, r);
    let srt = sort_desc(q);
    assert(srt[0].rank == srt[1].rank && srt[1].rank == srt[2].rank);
    reveal_with_fuel(scan_run, 3);
    assert(run(q, opts) is None);
    lemma_matched_single(q, r, 4, 5, 13);
    lemma_matched_single(q, r, 4, 4, 13);
    assert forall|i: int| 0 <= i < q.len() implies count_rank(q, (#[trigger] q[i]).rank.ord())
        == 4 by {}
    lemma_keep_all(q, q, 4);
}

proof fn lemma_one_witness(s: Seq<Card>, size: nat, n: int) -> (a: int)
    requires
        matched_ranks(s, size, n) >= 1,
    ensures
        0 <= a < n,
        count_rank(s, a) == size,
    decreases n,
{
    if n <= 0 {
        0
    } else if count_rank(s, n - 1) == size {
        n - 1
    } else {
        lemma_one_witness(s, size, n - 1)
    }
}

proof fn lemma_two_witnesses(s: Seq<Card>, size: nat, n: int) -> (ab: (int, int))
    requires
        matched_ranks(s, size, n) >= 2,
    ensures
        0 <= ab.0 < ab.1 < n,
        count_rank(s, ab.0) == size,
        count_rank(s, ab.1) == size,
    decreases n,
{
    if n <= 0 {
        (0, 0)
    } else if count_rank(s, n - 1) == size {
        (lemma_one_witness(s, size, n - 1), n - 1)
    } else {
        lemma_two_witnesses(s, size, n - 1)
    }
}

proof fn lemma_matched_three(s: Seq<Card>, size: nat, n: int, k1: int, k2: int, k3: int)
    requires
        0 <= k1 < k2 < k3 < n,
        count_rank(s, k1) == size,
        count_rank(s, k2) == size,
        count_rank(s, k3) == size,
    ensures
        matched_ranks(s, size, n) >= 3,
    decreases n,
{
    if n - 1 == k3 {
        lemma_matched_two(s, size, n - 1, k1, k2);
    } else {
        lemma_matched_three(s, size, n - 1, k1, k2, k3);
    }
}

proof fn lemma_two_ranks_count(t: Seq<Card>, a: int, b: int)
    requires
        a != b,
        forall|i: int| 0 <= i < t.len() ==> (#[trigger] t[i]).rank.ord() == a || t[i].rank.ord() == b,
    ensures
        count_rank(t, a) + count_rank(t, b) == t.len(),
    decreases t.len(),
{
    if t.len() > 0 {
        assert forall|i: int| 0 <= i < t.drop_last().len() implies (
        #[trigger] t.drop_last()[i]).rank.ord() == a || t.drop_last()[i].rank.ord() == b by {
            assert(t.drop_last()[i] == t[i]);
        }
        lemma_two_ranks_count(t.drop_last(), a, b);
    }
}

proof fn lemma_matched_pair_of_ranks(q: Seq<Card>, a: int, b: int, size: nat, n: int)
    requires
        a != b,
        forall|k: int| #[trigger] count_rank(q, k) == if k == a || k == b {
            2nat
        } else {
            0nat
        },
        size > 0,
    ensures
        matched_ranks(q, size, n) == if size == 2 {
            (if 0 <= a < n {
                1nat
            } else {
                0nat
            }) + (if 0 <= b < n {
                1nat
            } else {
                0nat
            })
        } else {
            0nat
        },
    decreases n,
{
    if n > 0 {
        lemma_matched_pair_of_ranks(q, a, b, size, n - 1);
        assert(count_rank(q, n - 1) == if n - 1 == a || n - 1 == b {
            2nat
        } else {
            0nat
        });
    }
}

proof fn lemma_sort_members(s: Seq<Card>)
    ensures
        forall|i: int| 0 <= i < sort_desc(s).len() ==> s.contains(#[trigger] sort_desc(s)[i]),
    decreases s.len(),
{
    if s.len() > 0 {
        lemma_max_index(s);
        let m = max_index(s);
        let rest = s.remove(m);
        lemma_sort_members(rest);
        assert forall|i: int| 0 <= i < sort_desc(s).len() implies s.contains(
            #[trigger] sort_desc(s)[i],
        ) by {
            if i > 0 {
                let x = sort_desc(rest)[i - 1];
                assert(sort_desc(s)[i] == x);
                assert(rest.contains(x));
                let j = choose|j: int| 0 <= j < rest.len() && rest[j] == x;
                if j < m {
                    assert(s[j] == x);
                } else {
                    assert(s[j + 1] == x);
                }
            } else {
                assert(s[m] == sort_desc(s)[0]);
            }
        }
    }
}

proof fn lemma_kept_suit_count(t: Seq<Card>, full: Seq<Card>, size: nat, su: Suit)
    ensures
        count_suit(cards_of_matched_ranks(t, full, size), su) <= count_suit(t, su),
    decreases t.len(),
{
    if t.len() > 0 {
        let p = cards_of_matched_ranks(t.drop_last(), full, size);
        lemma_kept_suit_count(t.drop_last(), full, size, su);
        assert(p.push(t.last()).drop_last() =~= p);
    }
}

proof fn lemma_kept_multiset(t: Seq<Card>, full: Seq<Card>, size: nat, x: Card)
    ensures
        cards_of_matched_ranks(t, full, size).to_multiset().count(x) <= t.to_multiset().count(x),
    decreases t.len(),
{
    broadcast use vstd::seq_lib::group_to_multiset_ensures;

    if t.len() > 0 {
        let p = cards_of_matched_ranks(t.drop_last(), full, size);
        lemma_kept_multiset(t.drop_last(), full, size, x);
        assert(t.drop_last().push(t.last()) =~= t);
    }
}

/// Repeated cards among the kept cards are repeated cards of the whole input.
proof fn lemma_kept_repeats(s: Seq<Card>, size: nat)
    requires
        cards_of_matched_ranks(s, s, size).to_set().len() < cards_of_matched_ranks(
            s,
            s,
            size,
        ).len(),
    ensures
        s.to_set().len() < s.len(),
{
    let q = cards_of_matched_ranks(s, s, size);
    if q.no_duplicates() {
        q.unique_seq_to_set();
    }
    assert(!q.no_duplicates());
    if forall|x: Card| q.to_multiset().contains(x) ==> q.to_multiset().count(x) == 1 {
        q.lemma_multiset_has_no_duplicates_conv();
    }
    let x = choose|x: Card| q.to_multiset().contains(x) && q.to_multiset().count(x) != 1;
    lemma_kept_multiset(s, s, size, x);
    s.lemma_cardinality_of_set();
    if s.to_set().len() == s.len() {
        s.lemma_no_dup_set_cardinality();
        s.lemma_multiset_has_no_duplicates();
    }
}

/// The cards that a two-pair match keeps are two cards of each of two ranks.
proof fn lemma_two_pair_match(s: Seq<Card>) -> (ab: (int, int))
    requires
        rank_match(s, 2, 2) is Some,
    ensures
        0 <= ab.0 < ab.1 < 13,
        rank_match(s, 2, 2).unwrap().len() == 4,
        forall|k: int| #[trigger] count_rank(rank_match(s, 2, 2).unwrap(), k) == if k == ab.0
            || k == ab.1 {
            2nat
        } else {
            0nat
        },
        forall|i: int|
            0 <= i < rank_match(s, 2, 2).unwrap().len() ==> (#[trigger] rank_match(
                s,
                2,
                2,
            ).unwrap()[i]).rank.ord() == ab.0 || rank_match(s, 2, 2).unwrap()[i].rank.ord()
                == ab.1,
{
    let q = cards_of_matched_ranks(s, s, 2);
    lemma_kept_match(s, s, 2);
    let (a, b) = lemma_two_witnesses(s, 2, 13);
    assert forall|k: int| #[trigger] count_rank(q, k) == if k == a || k == b {
        2nat
    } else {
        0nat
    } by {
        lemma_count_kept(s, s, 2, k);
        if count_rank(s, k) == 2 && k != a && k != b {
            assert(0 <= k < 13) by {
                if k < 0 || k >= 13 {
                    lemma_count_rank_out_of_range(s, k);
                }
            }
            if k < a {
                lemma_matched_three(s, 2, 13, k, a, b);
            } else if k < b {
                lemma_matched_three(s, 2, 13, a, k, b);
            } else {
                lemma_matched_three(s, 2, 13, a, b, k);
            }
        }
    }
    assert forall|i: int| 0 <= i < q.len() implies (#[trigger] q[i]).rank.ord() == a
        || q[i].rank.ord() == b by {
        assert(count_rank(q, q[i].rank.ord()) == count_rank(q, q[i].rank.ord()));
        lemma_count_kept(s, s, 2, q[i].rank.ord());
    }
    lemma_two_ranks_count(q, a, b);
    (a, b)
}

proof fn lemma_count_rank_out_of_range(s: Seq<Card>, k: int)
    requires
        k < 0 || k >= 13,
    ensures
        count_rank(s, k) == 0,
    decreases s.len(),
{
    if s.len() > 0 {
        lemma_count_rank_out_of_range(s.drop_last(), k);
    }
}

/// Re-classifying the cards of a two pair gives the same two pair.
proof fn lemma_round_trip_two_pair(s: Seq<Card>, opts: Options)
    requires
        0 < s.len() <= 5,
        strongest(s, opts) == HandKind::TwoPair,
    ensures
        classify(rank_match(s, 2, 2).unwrap(), opts) == Some(
            (HandKind::TwoPair, rank_match(s, 2, 2).unwrap()),
        ),
{
    let q = rank_match(s, 2, 2).unwrap();
    let (a, b) = lemma_two_pair_match(s);
    lemma_kept_match(s, s, 2);
    lemma_sort_len(q);
    lemma_matched_pair_of_ranks(q, a, b, 5, 13);
    lemma_matched_pair_of_ranks(q, a, b, 4, 13);
    lemma_matched_pair_of_ranks(q, a, b, 3, 13);
    lemma_matched_pair_of_ranks(q, a, b, 2, 13);
    assert forall|i: int| 0 <= i < q.len() implies count_rank(q, (#[trigger] q[i]).rank.ord())
        == 2 by {}
    lemma_keep_all(q, q, 2);
    // No straight: the sorted cards hold only the two ranks, and no three steps in a row
    // can alternate between two ranks.
    lemma_sort_members(q);
    let srt = sort_desc(q);
    assert forall|i: int| 0 <= i < srt.len() implies (#[trigger] srt[i]).rank.ord() == a
        || srt[i].rank.ord() == b by {
        let j = choose|j: int| 0 <= j < q.len() && q[j] == srt[i];
        assert(q[j].rank.ord() == a || q[j].rank.ord() == b);
    }
    assert(srt[0].rank.ord() == a || srt[0].rank.ord() == b);
    assert(srt[1].rank.ord() == a || srt[1].rank.ord() == b);
    assert(srt[2].rank.ord() == a || srt[2].rank.ord() == b);
    assert(srt[3].rank.ord() == a || srt[3].rank.ord() == b);
    reveal_with_fuel(scan_run, 4);
    assert(run(q, opts) is None);
    // No flush: repeated cards here would make a flush of the whole input.
    if opts.four_card {
        if q.to_set().len() < q.len() {
            lemma_kept_repeats(s, 2);
            lemma_kept_suit_count(s, s, 2, Suit::Spades);
            lemma_kept_suit_count(s, s, 2, Suit::Clubs);
            lemma_kept_suit_count(s, s, 2, Suit::Hearts);
            lemma_kept_suit_count(s, s, 2, Suit::Diamonds);
            if suit_match(q, true) {
                assert(pattern(HandKind::Flush, s, opts));
                lemma_strongest_pattern_wins(s, opts, HandKind::Flush);
            }
        } else {
            q.lemma_cardinality_of_set();
            let qs = q.to_set();
            qs.lemma_len_filter(|c: Card| c.suit == Suit::Spades);
            qs.lemma_len_filter(|c: Card| c.suit == Suit::Clubs);
            qs.lemma_len_filter(|c: Card| c.suit == Suit::Hearts);
            qs.lemma_len_filter(|c: Card| c.suit == Suit::Diamonds);
            assert(in_suit(qs, Suit::Spades).len() <= 4);
            assert(in_suit(qs, Suit::Clubs).len() <= 4);
            assert(in_suit(qs, Suit::Hearts).len() <= 4);
            assert(in_suit(qs, Suit::Diamonds).len() <= 4);
        }
    }
    assert(!suit_match(q, opts.four_card));
}

proof fn lemma_count_rank_le(t: Seq<Card>, k: int)
    ensures
        count_rank(t, k) <= t.len(),
        count_rank(t, k) == t.len() ==> forall|i: int|
            0 <= i < t.len() ==> (#[trigger] t[i]).rank.ord() == k,
    decreases t.len(),
{
    if t.len() > 0 {
        lemma_count_rank_le(t.drop_last(), k);
        if count_rank(t, k) == t.len() {
            assert forall|i: int| 0 <= i < t.len() implies (#[trigger] t[i]).rank.ord() == k by {
                if i < t.len() - 1 {
                    assert(t[i] == t.drop_last()[i]);
                }
            }
        }
    }
}

/// A five-card walk that ends at length four leaves a four-card walk of full length over
/// the kept cards, whose ranks all differ from their neighbours.
proof fn lemma_scan_kept_four(srt: Seq<Card>, gapped: bool)
    requires
        srt.len() == 5,
        scan_run(srt, true, 0, 1, gapped, true).0 == 4,
    ensures
        ({
            let t = if scan_run(srt, true, 0, 1, gapped, true).1 {
                srt.subrange(0, 4)
            } else {
                srt.subrange(1, 5)
            };
            &&& scan_run(t, true, 0, 1, gapped, true) == (4int, true)
            &&& t[0].rank != t[1].rank
            &&& t[1].rank != t[2].rank
            &&& t[2].rank != t[3].rank
        }),
{
    reveal_with_fuel(scan_run, 6);
    let cf = scan_run(srt, true, 0, 1, gapped, true).1;
    let t = if cf {
        srt.subrange(0, 4)
    } else {
        srt.subrange(1, 5)
    };
    if cf {
        assert(t[0] == srt[0] && t[1] == srt[1] && t[2] == srt[2] && t[3] == srt[3]);
    } else {
        assert(t[0] == srt[1] && t[1] == srt[2] && t[2] == srt[3] && t[3] == srt[4]);
    }
}

/// Dropping the first or the last card of the descending order and sorting again gives the
/// rest of the descending order.
proof fn lemma_sort_after_drop(s: Seq<Card>, last: bool)
    requires
        s.len() == 5,
    ensures
        ({
            let srt = sort_desc(s);
            let x = srt[if last { 4int } else { 0int }];
            let t = if last {
                srt.subrange(0, 4)
            } else {
                srt.subrange(1, 5)
            };
            &&& sort_desc(without_first(s, x)) == t
            &&& without_first(s, x).len() == 4
            &&& is_desc(t)
        }),
{
    broadcast use vstd::multiset::group_multiset_axioms;

    let srt = sort_desc(s);
    lemma_sort_len(s);
    lemma_sort_sorted(s);
    lemma_sort_permutation(s);
    let x = srt[if last { 4int } else { 0int }];
    let t = if last {
        srt.subrange(0, 4)
    } else {
        srt.subrange(1, 5)
    };
    let q = without_first(s, x);
    assert(srt.contains(x));
    vstd::seq_lib::to_multiset_contains(srt, x);
    vstd::seq_lib::to_multiset_contains(s, x);
    lemma_without_first_multiset(s, x);
    if last {
        assert(srt =~= t.push(x));
        vstd::seq_lib::to_multiset_build(t, x);
        assert(srt.to_multiset() == t.to_multiset().insert(x));
    } else {
        assert(srt =~= seq![x] + t);
        vstd::seq_lib::lemma_multiset_commutative(seq![x], t);
        assert(seq![x] =~= Seq::<Card>::empty().push(x));
        vstd::seq_lib::to_multiset_build(Seq::<Card>::empty(), x);
        assert(Seq::<Card>::empty().to_multiset() =~= Multiset::empty()) by {
            Seq::<Card>::empty().to_multiset_ensures();
        }
        assert(seq![x].to_multiset() =~= Multiset::empty().insert(x));
        assert(srt.to_multiset() =~= t.to_multiset().insert(x));
    }
    assert(t.to_multiset() =~= srt.to_multiset().remove(x));
    lemma_sort_by_multiset(q, t);
    assert(is_desc(t)) by {
        assert forall|i: int, j: int| 0 <= i < j < t.len() implies t[i].key() >= t[j].key() by {
            if last {
                assert(t[i] == srt[i] && t[j] == srt[j]);
            } else {
                assert(t[i] == srt[i + 1] && t[j] == srt[j + 1]);
            }
        }
    }
    lemma_sort_of_sorted(t);
    q.to_multiset_ensures();
    t.to_multiset_ensures();
}

/// The four cards that a straight keeps after dropping one sort to a walk of full length
/// whose neighbouring ranks differ.
proof fn lemma_dropped_straight_sorted(s: Seq<Card>, opts: Options)
    requires
        0 < s.len() <= 5,
        run(s, opts) is Some,
        run(s, opts).unwrap() != s,
    ensures
        run(s, opts).unwrap().len() == 4,
        run(run(s, opts).unwrap(), opts) == run(s, opts),
        sort_desc(run(s, opts).unwrap()).len() == 4,
        is_desc(sort_desc(run(s, opts).unwrap())),
        sort_desc(run(s, opts).unwrap())[0].rank != sort_desc(run(s, opts).unwrap())[1].rank,
        sort_desc(run(s, opts).unwrap())[1].rank != sort_desc(run(s, opts).unwrap())[2].rank,
        sort_desc(run(s, opts).unwrap())[2].rank != sort_desc(run(s, opts).unwrap())[3].rank,
{
    let srt = sort_desc(s);
    lemma_sort_len(s);
    let (len, cf) = scan_run(srt, true, 0, 1, opts.gapped, true);
    assert(opts.four_card && len == 4 && s.len() == 5);
    lemma_scan_kept_four(srt, opts.gapped);
    lemma_sort_after_drop(s, cf);
}

/// Four cards whose descending order has no two neighbours of one rank match no rank four
/// or five times, hold no full house, and form no flush.
proof fn lemma_four_distinct(q: Seq<Card>)
    requires
        q.len() == 4,
        sort_desc(q).len() == 4,
        is_desc(sort_desc(q)),
        sort_desc(q)[0].rank != sort_desc(q)[1].rank,
        sort_desc(q)[1].rank != sort_desc(q)[2].rank,
        sort_desc(q)[2].rank != sort_desc(q)[3].rank,
    ensures
        matched_ranks(q, 4, 13) == 0,
        matched_ranks(q, 5, 13) == 0,
        !full_house(sort_desc(q)),
        !suit_match(q, true),
        !suit_match(q, false),
{
    let t = sort_desc(q);
    assert forall|k: int| count_rank(q, k) != 4 && count_rank(q, k) != 5 by {
        lemma_count_rank_le(q, k);
        if count_rank(q, k) == 4 {
            lemma_sort_one_rank(q, k);
            assert(t[0].rank.ord() == k && t[1].rank.ord() == k);
        }
    }
    lemma_no_match(q, 5, 13);
    lemma_no_match(q, 4, 13);
    assert(t[0].key() > t[1].key() && t[1].key() > t[2].key() && t[2].key() > t[3].key());
    assert(t.no_duplicates());
    lemma_sort_permutation(q);
    t.lemma_multiset_has_no_duplicates();
    assert forall|y: Card| q.to_multiset().contains(y) implies q.to_multiset().count(y) == 1 by {}
    q.lemma_multiset_has_no_duplicates_conv();
    q.unique_seq_to_set();
    let qs = q.to_set();
    qs.lemma_len_filter(|c: Card| c.suit == Suit::Spades);
    qs.lemma_len_filter(|c: Card| c.suit == Suit::Clubs);
    qs.lemma_len_filter(|c: Card| c.suit == Suit::Hearts);
    qs.lemma_len_filter(|c: Card| c.suit == Suit::Diamonds);
}

/// Re-classifying the four cards of a straight that dropped one card gives the same result.
proof fn lemma_round_trip_dropped_straight(s: Seq<Card>, opts: Options)
    requires
        0 < s.len() <= 5,
        strongest(s, opts) == HandKind::Straight || strongest(s, opts) == HandKind::StraightFlush,
        run(s, opts) is Some,
        run(s, opts).unwrap() != s,
    ensures
        classify(run(s, opts).unwrap(), opts) == Some((strongest(s, opts), run(s, opts).unwrap())),
{
    let q = run(s, opts).unwrap();
    lemma_dropped_straight_sorted(s, opts);
    lemma_four_distinct(q);
}

/// Classifying the qualifying cards of a classification again gives the same category and
/// the same cards.
pub proof fn lemma_round_trip(s: Seq<Card>, opts: Options)
    requires
        0 < s.len() <= 5,
    ensures
        classify(classify(s, opts).unwrap().1, opts) == classify(s, opts),
{
    let k = strongest(s, opts);
    if k == HandKind::HighCard {
        lemma_sort_len(s);
        let q = seq![sort_desc(s)[0]];
        lemma_classify_one_rank(q, q[0].rank.ord(), opts);
    } else if k == HandKind::Pair || k == HandKind::ThreeOfAKind {
        let size: nat = if k == HandKind::Pair {
            2
        } else {
            3
        };
        let r = lemma_single_rank_match(s, size);
        lemma_classify_one_rank(rank_match(s, size, 1).unwrap(), r, opts);
    } else if k == HandKind::TwoPair {
        lemma_round_trip_two_pair(s, opts);
    } else if k == HandKind::FourOfAKind {
        let r = lemma_single_rank_match(s, 4);
        lemma_classify_four_of_rank(rank_match(s, 4, 1).unwrap(), r, opts);
    } else if k == HandKind::FiveOfAKind || k == HandKind::FlushFive {
        lemma_single_rank_match(s, 5);
        lemma_kept_match(s, s, 5);
    } else if (k == HandKind::Straight || k == HandKind::StraightFlush) && run(s, opts).unwrap()
        != s {
        lemma_round_trip_dropped_straight(s, opts);
    }
}

} // verus!
