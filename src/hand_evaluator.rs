//! Classification of up to five cards into the strongest matching hand category.
use vstd::prelude::*;

use itertools::Itertools;

use crate::cards::{Card, CardView, Hand, HandKind, Rank, Suit};
use crate::cardset::{in_suit, CardSet};

verus! {

/// Independent rule toggles; they combine by union.
#[derive(Copy, Clone, Debug, PartialEq, Eq, Structural)]
pub struct Options {
    /// Straights may skip one rank.
    pub gapped: bool,
    /// Straights and flushes may be formed from four cards.
    pub four_card: bool,
}

impl Options {
    /// No toggles set.
    pub fn empty() -> (r: Self)
        ensures
            !r.gapped && !r.four_card,
    {
        Options { gapped: false, four_card: false }
    }

    /// Only the gapped-straights toggle.
    pub fn gapped_straights() -> (r: Self)
        ensures
            r.gapped && !r.four_card,
    {
        Options { gapped: true, four_card: false }
    }

    /// Only the four-card straights and flushes toggle.
    pub fn four_card_straights_and_flushes() -> (r: Self)
        ensures
            !r.gapped && r.four_card,
    {
        Options { gapped: false, four_card: true }
    }

    /// The toggles set in either value.
    pub fn union(self, other: Self) -> (r: Self)
        ensures
            r.gapped == (self.gapped || other.gapped),
            r.four_card == (self.four_card || other.four_card),
    {
        Options { gapped: self.gapped || other.gapped, four_card: self.four_card || other.four_card }
    }

    /// Whether every toggle set in `other` is set here.
    pub fn contains(self, other: Self) -> (r: bool)
        ensures
            r == ((other.gapped ==> self.gapped) && (other.four_card ==> self.four_card)),
    {
        (!other.gapped || self.gapped) && (!other.four_card || self.four_card)
    }
}

// ----- Ordering the cards -----

/// The position of the first card with the greatest key.
pub open spec fn max_index(s: Seq<Card>) -> int
    decreases s.len(),
{
    if s.len() <= 1 {
        0
    } else {
        let m = max_index(s.drop_last());
        if s.last().key() > s[m].key() {
            s.len() - 1
        } else {
            m
        }
    }
}

/// The cards in descending (rank, suit) order.
pub open spec fn sort_desc(s: Seq<Card>) -> Seq<Card>
    decreases s.len(),
{
    let m = max_index(s);
    if s.len() == 0 || m < 0 || m >= s.len() {
        Seq::empty()
    } else {
        seq![s[m]] + sort_desc(s.remove(m))
    }
}

pub proof fn lemma_max_index(s: Seq<Card>)
    requires
        s.len() > 0,
    ensures
        0 <= max_index(s) < s.len(),
    decreases s.len(),
{
    if s.len() > 1 {
        lemma_max_index(s.drop_last());
    }
}

/// Sorting keeps the number of cards.
pub proof fn lemma_sort_len(s: Seq<Card>)
    ensures
        sort_desc(s).len() == s.len(),
    decreases s.len(),
{
    if s.len() > 0 {
        lemma_max_index(s);
        lemma_sort_len(s.remove(max_index(s)));
    }
}

fn max_position(s: &Vec<Card>) -> (m: usize)
    requires
        s@.len() > 0,
    ensures
        m == max_index(s@),
        m < s@.len(),
{
    let mut m: usize = 0;
    let mut j: usize = 1;
    while j < s.len()
        invariant
            1 <= j <= s@.len(),
            m < j,
            m == max_index(s@.subrange(0, j as int)),
        decreases s@.len() - j,
    {
        assert(s@.subrange(0, j + 1).drop_last() =~= s@.subrange(0, j as int));
        if s[j].sort_key() > s[m].sort_key() {
            m = j;
        }
        j += 1;
    }
    assert(s@.subrange(0, j as int) =~= s@);
    m
}

/// The cards in descending (rank, suit) order.
fn sorted_desc(cards: &[Card]) -> (r: Vec<Card>)
    ensures
        r@ == sort_desc(cards@),
{
    let mut rest: Vec<Card> = Vec::new();
    let mut i: usize = 0;
    while i < cards.len()
        invariant
            i <= cards@.len(),
            rest@ == cards@.subrange(0, i as int),
        decreases cards@.len() - i,
    {
        rest.push(cards[i]);
        assert(rest@ =~= cards@.subrange(0, i + 1));
        i += 1;
    }
    assert(rest@ =~= cards@);
    let mut out: Vec<Card> = Vec::new();
    while rest.len() > 0
        invariant
            out@ + sort_desc(rest@) == sort_desc(cards@),
        decreases rest@.len(),
    {
        let m = max_position(&rest);
        let ghost before = rest@;
        let c = rest.remove(m);
        out.push(c);
        assert(sort_desc(before) == seq![c] + sort_desc(rest@));
        assert(out@ + sort_desc(rest@) =~= out@.drop_last() + sort_desc(before));
    }
    assert(out@ =~= out@ + sort_desc(rest@));
    out
}

// ----- Counting -----

/// The number of cards of `s` in suit `su`.
pub open spec fn count_suit(s: Seq<Card>, su: Suit) -> nat
    decreases s.len(),
{
    if s.len() == 0 {
        0
    } else {
        count_suit(s.drop_last(), su) + if s.last().suit == su {
            1nat
        } else {
            0nat
        }
    }
}

/// The number of cards of `s` whose rank has ordinal `k`.
pub open spec fn count_rank(s: Seq<Card>, k: int) -> nat
    decreases s.len(),
{
    if s.len() == 0 {
        0
    } else {
        count_rank(s.drop_last(), k) + if s.last().rank.ord() == k {
            1nat
        } else {
            0nat
        }
    }
}

/// The number of ranks with ordinal below `k` that occur exactly `size` times in `s`.
pub open spec fn matched_ranks(s: Seq<Card>, size: nat, k: int) -> nat
    decreases k,
{
    if k <= 0 {
        0
    } else {
        matched_ranks(s, size, k - 1) + if count_rank(s, k - 1) == size {
            1nat
        } else {
            0nat
        }
    }
}

/// The cards of `t`, in order, whose rank occurs exactly `size` times in `full`.
pub open spec fn cards_of_matched_ranks(t: Seq<Card>, full: Seq<Card>, size: nat) -> Seq<Card>
    decreases t.len(),
{
    if t.len() == 0 {
        t
    } else {
        let p = cards_of_matched_ranks(t.drop_last(), full, size);
        if count_rank(full, t.last().rank.ord()) == size {
            p.push(t.last())
        } else {
            p
        }
    }
}

// ----- The patterns -----

/// Whether the cards form a flush: five of a suit, or four with `four_card`. Where
/// repeated cards make the distinct cards fewer than the cards, raw suit counts decide;
/// otherwise one suit must hold exactly five distinct cards.
pub open spec fn suit_match(s: Seq<Card>, four_card: bool) -> bool {
    let l: nat = if four_card {
        4
    } else {
        5
    };
    if s.len() < l {
        false
    } else if s.to_set().len() < s.len() {
        count_suit(s, Suit::Spades) >= l || count_suit(s, Suit::Clubs) >= l || count_suit(
            s,
            Suit::Hearts,
        ) >= l || count_suit(s, Suit::Diamonds) >= l
    } else {
        in_suit(s.to_set(), Suit::Spades).len() == 5 || in_suit(s.to_set(), Suit::Clubs).len() == 5
            || in_suit(s.to_set(), Suit::Hearts).len() == 5 || in_suit(
            s.to_set(),
            Suit::Diamonds,
        ).len() == 5
    }
}

/// Exactly `count` ranks occur exactly `size` times; the cards of those ranks, in order.
pub open spec fn rank_match(s: Seq<Card>, size: nat, count: nat) -> Option<Seq<Card>> {
    if matched_ranks(s, size, 13) == count {
        Some(cards_of_matched_ranks(s, s, size))
    } else {
        None
    }
}

/// Five cards that, in descending order, are three of one rank and two of another.
pub open spec fn full_house(srt: Seq<Card>) -> bool {
    &&& srt.len() == 5
    &&& srt[1].rank == srt[0].rank
    &&& if srt[2].rank == srt[0].rank {
        srt[3].rank != srt[0].rank && srt[4].rank == srt[3].rank
    } else {
        srt[3].rank == srt[2].rank && srt[4].rank == srt[2].rank
    }
}

/// `right` follows `left` directly in a descending run; an Ace may sit below a Deuce.
pub open spec fn is_consecutive(left: Rank, right: Rank) -> bool {
    (left == Rank::Deuce && right == Rank::Ace) || left.ord() - 1 == right.ord()
}

/// One rank is skipped between `left` and `right`; an Ace may sit two below a Three.
pub open spec fn has_gap(left: Rank, right: Rank) -> bool {
    (left == Rank::Three && right == Rank::Ace) || left.ord() - 2 == right.ord()
}

/// The walk over adjacent pairs of the descending cards from pair `i` on: the final run
/// length and whether the one allowed reset is still unused.
pub open spec fn scan_run(
    srt: Seq<Card>,
    four_card: bool,
    i: int,
    len: int,
    can_gap: bool,
    can_fail: bool,
) -> (int, bool)
    decreases srt.len() - i,
{
    if i < 0 || i + 1 >= srt.len() {
        (len, can_fail)
    } else {
        let left = srt[i].rank;
        let right = srt[i + 1].rank;
        if is_consecutive(left, right) {
            scan_run(srt, four_card, i + 1, len + 1, can_gap, can_fail)
        } else if has_gap(left, right) && can_gap {
            scan_run(srt, four_card, i + 1, len + 1, false, can_fail)
        } else if four_card && i == 3 {
            (len, can_fail)
        } else if can_fail {
            scan_run(srt, four_card, i + 1, 1, can_gap, false)
        } else {
            (len, can_fail)
        }
    }
}

/// `s` without the first occurrence of `c`.
pub open spec fn without_first(s: Seq<Card>, c: Card) -> Seq<Card>
    decreases s.len(),
{
    if s.len() == 0 {
        s
    } else if s[0] == c {
        s.drop_first()
    } else {
        seq![s[0]] + without_first(s.drop_first(), c)
    }
}

/// The straight that the cards form, if any, as the cards that make it up, in input order.
pub open spec fn run(s: Seq<Card>, opts: Options) -> Option<Seq<Card>> {
    let four = opts.four_card;
    let min_len: nat = if four {
        4
    } else {
        5
    };
    let srt = sort_desc(s);
    let (len, can_fail) = scan_run(srt, four, 0, 1, opts.gapped, four);
    if s.len() < min_len {
        None
    } else if len == 5 || (s.len() == 4 && four && len == 4) {
        Some(s)
    } else if four && len == 4 {
        Some(without_first(s, srt[if can_fail { 4int } else { 0int }]))
    } else {
        None
    }
}

/// Every card shares the suit of the first.
pub open spec fn same_suit(s: Seq<Card>) -> bool {
    forall|i: int| 0 <= i < s.len() ==> #[trigger] s[i].suit == s[0].suit
}

/// Whether the pattern of category `k` holds of the cards.
pub open spec fn pattern(k: HandKind, s: Seq<Card>, opts: Options) -> bool {
    match k {
        HandKind::FlushFive => suit_match(s, false) && rank_match(s, 5, 1) is Some,
        HandKind::FlushHouse => suit_match(s, false) && full_house(sort_desc(s)),
        HandKind::FiveOfAKind => rank_match(s, 5, 1) is Some,
        HandKind::StraightFlush => run(s, opts) is Some && same_suit(run(s, opts)->0),
        HandKind::FourOfAKind => rank_match(s, 4, 1) is Some,
        HandKind::FullHouse => full_house(sort_desc(s)),
        HandKind::Flush => suit_match(s, opts.four_card),
        HandKind::Straight => run(s, opts) is Some,
        HandKind::ThreeOfAKind => rank_match(s, 3, 1) is Some,
        HandKind::TwoPair => rank_match(s, 2, 2) is Some,
        HandKind::Pair => rank_match(s, 2, 1) is Some,
        HandKind::HighCard => s.len() > 0,
    }
}

/// The cards that justify category `k`.
pub open spec fn qualifying(k: HandKind, s: Seq<Card>, opts: Options) -> Seq<Card> {
    match k {
        HandKind::FlushFive => rank_match(s, 5, 1)->0,
        HandKind::FlushHouse => s,
        HandKind::FiveOfAKind => rank_match(s, 5, 1)->0,
        HandKind::StraightFlush => run(s, opts)->0,
        HandKind::FourOfAKind => rank_match(s, 4, 1)->0,
        HandKind::FullHouse => s,
        HandKind::Flush => s,
        HandKind::Straight => run(s, opts)->0,
        HandKind::ThreeOfAKind => rank_match(s, 3, 1)->0,
        HandKind::TwoPair => rank_match(s, 2, 2)->0,
        HandKind::Pair => rank_match(s, 2, 1)->0,
        HandKind::HighCard => seq![sort_desc(s)[0]],
    }
}

/// The strongest category whose pattern holds, checked from the strongest down.
pub open spec fn strongest(s: Seq<Card>, opts: Options) -> HandKind {
    if pattern(HandKind::FlushFive, s, opts) {
        HandKind::FlushFive
    } else if pattern(HandKind::FlushHouse, s, opts) {
        HandKind::FlushHouse
    } else if pattern(HandKind::FiveOfAKind, s, opts) {
        HandKind::FiveOfAKind
    } else if pattern(HandKind::StraightFlush, s, opts) {
        HandKind::StraightFlush
    } else if pattern(HandKind::FourOfAKind, s, opts) {
        HandKind::FourOfAKind
    } else if pattern(HandKind::FullHouse, s, opts) {
        HandKind::FullHouse
    } else if pattern(HandKind::Flush, s, opts) {
        HandKind::Flush
    } else if pattern(HandKind::Straight, s, opts) {
        HandKind::Straight
    } else if pattern(HandKind::ThreeOfAKind, s, opts) {
        HandKind::ThreeOfAKind
    } else if pattern(HandKind::TwoPair, s, opts) {
        HandKind::TwoPair
    } else if pattern(HandKind::Pair, s, opts) {
        HandKind::Pair
    } else {
        HandKind::HighCard
    }
}

/// The classification of the cards: none for no cards, else the strongest category and
/// the cards that justify it.
pub open spec fn classify(s: Seq<Card>, opts: Options) -> Option<(HandKind, Seq<Card>)> {
    if s.len() == 0 {
        None
    } else {
        Some((strongest(s, opts), qualifying(strongest(s, opts), s, opts)))
    }
}

/// The category chosen is one whose pattern holds, and no category whose pattern holds
/// is stronger than it.
pub proof fn lemma_strongest_pattern_wins(s: Seq<Card>, opts: Options, k: HandKind)
    requires
        s.len() > 0,
        pattern(k, s, opts),
    ensures
        pattern(strongest(s, opts), s, opts),
        strongest(s, opts).strength() >= k.strength(),
{
}

/// Classification gives no category exactly when there are no cards.
pub proof fn lemma_empty_has_no_category(s: Seq<Card>, opts: Options)
    ensures
        classify(s, opts) is None <==> s.len() == 0,
{
}

/// The five-card selections of `s`, each in input order, as a combinations walk yields them.
pub uninterp spec fn five_card_combinations(s: Seq<Card>) -> Seq<Seq<Card>>;

/// The card sequences that a vector of card vectors holds.
pub open spec fn views_of(c: Seq<Vec<Card>>) -> Seq<Seq<Card>> {
    Seq::new(c.len(), |i: int| c[i]@)
}

/// Among candidate hands, the classification of the first one of the strongest category.
pub open spec fn best_of(cands: Seq<Seq<Card>>, opts: Options) -> Option<(HandKind, Seq<Card>)>
    decreases cands.len(),
{
    if cands.len() == 0 {
        None
    } else {
        let prev = best_of(cands.drop_last(), opts);
        let cur = classify(cands.last(), opts);
        match prev {
            None => cur,
            Some((k, _)) => if cur is Some && cur.unwrap().0.strength() > k.strength() {
                cur
            } else {
                prev
            },
        }
    }
}

/// Relies on itertools's Itertools::combinations(5): each item is a five-card selection
/// of the slice, and the items depend on the slice alone.
#[verifier::external_body]
fn combinations_of_five(cards: &[Card]) -> (r: Vec<Vec<Card>>)
    ensures
        views_of(r@) == five_card_combinations(cards@),
        forall|i: int| 0 <= i < r@.len() ==> (#[trigger] r@[i])@.len() == 5,
{
    cards.iter().copied().combinations(5).collect()
}

/// What a classification result holds, with hands seen as card sequences.
pub open spec fn result_view(r: Option<(HandKind, Hand)>) -> Option<(HandKind, Seq<Card>)> {
    match r {
        None => None,
        Some((k, h)) => Some((k, h.card_seq())),
    }
}

fn rank_is_consecutive(left: Rank, right: Rank) -> (r: bool)
    ensures
        r == is_consecutive(left, right),
{
    (left == Rank::Deuce && right == Rank::Ace) || left.index() == right.index() + 1
}

fn rank_has_gap(left: Rank, right: Rank) -> (r: bool)
    ensures
        r == has_gap(left, right),
{
    (left == Rank::Three && right == Rank::Ace) || left.index() == right.index() + 2
}

/// Whether every card of the hand shares the suit of its first card.
fn all_same_suit(hand: &Hand) -> (r: bool)
    ensures
        r == same_suit(hand.card_seq()),
{
    let cards = hand.view();
    let mut i: usize = 0;
    while i < cards.len()
        invariant
            cards@ == hand.card_seq(),
            i <= cards@.len(),
            forall|j: int| 0 <= j < i ==> #[trigger] cards@[j].suit == cards@[0].suit,
        decreases cards@.len() - i,
    {
        if cards[i].suit != cards[0].suit {
            assert(cards@[i as int].suit != cards@[0].suit);
            return false;
        }
        i += 1;
    }
    true
}

/// The state of one classification: the cards as given, in descending order, and as a set.
pub struct HandEvaluator {
    len: usize,
    cards: Hand,
    sorted: Vec<Card>,
    cardset: CardSet,
    options: Options,
}

impl HandEvaluator {
    /// The cards under evaluation, in input order.
    pub closed spec fn input(&self) -> Seq<Card> {
        self.cards.card_seq()
    }

    /// The options in force.
    pub closed spec fn opts(&self) -> Options {
        self.options
    }

    /// The views of the cards agree with each other.
    pub closed spec fn wf(&self) -> bool {
        &&& self.len == self.input().len()
        &&& self.len <= 5
        &&& self.sorted@ == sort_desc(self.input())
        &&& self.sorted@.len() == self.len
        &&& self.cardset@ == self.input().to_set()
    }

    fn new<V: CardView>(card_view: V, options: Options) -> (r: Self)
        requires
            card_view.card_seq().len() <= 5,
        ensures
            r.wf(),
            r.input() == card_view.card_seq(),
            r.opts() == options,
    {
        let card_slice = card_view.view();
        let len = card_slice.len();
        let cards = Hand::from_five(card_slice);
        let sorted = sorted_desc(card_slice);
        let cardset = CardSet::from_cards(card_slice);
        proof {
            lemma_sort_len(card_slice@);
        }
        HandEvaluator { len, cards, sorted, cardset, options }
    }

    /// A copy of the cards under evaluation.
    fn all_cards(&self) -> (r: Hand)
        requires
            self.wf(),
        ensures
            r.card_seq() == self.input(),
    {
        Hand::from_five(self.cards.view())
    }

    fn evaluate_high_card(&self) -> (r: Option<Hand>)
        requires
            self.wf(),
        ensures
            self.len == 0 ==> r.is_none(),
            self.len > 0 ==> r.is_some() && r.unwrap().card_seq() == seq![
                sort_desc(self.input())[0],
            ],
    {
        if self.sorted.len() == 0 {
            None
        } else {
            let mut v: Vec<Card> = Vec::new();
            v.push(self.sorted[0]);
            Some(Hand::from_five(v.as_slice()))
        }
    }

    fn evaluate_suit_matches(&self, four_card: bool) -> (r: bool)
        requires
            self.wf(),
        ensures
            r == suit_match(self.input(), four_card),
    {
        let length: usize = if four_card {
            4
        } else {
            5
        };
        if self.len < length {
            return false;
        }
        if self.cardset.count() < self.len {
            let cards = self.cards.view();
            let ghost s = cards@;
            let mut spades: usize = 0;
            let mut clubs: usize = 0;
            let mut hearts: usize = 0;
            let mut diamonds: usize = 0;
            let mut i: usize = 0;
            while i < cards.len()
                invariant
                    s == cards@,
                    i <= s.len(),
                    spades <= i && clubs <= i && hearts <= i && diamonds <= i,
                    spades == count_suit(s.subrange(0, i as int), Suit::Spades),
                    clubs == count_suit(s.subrange(0, i as int), Suit::Clubs),
                    hearts == count_suit(s.subrange(0, i as int), Suit::Hearts),
                    diamonds == count_suit(s.subrange(0, i as int), Suit::Diamonds),
                decreases s.len() - i,
            {
                assert(s.subrange(0, i + 1).drop_last() =~= s.subrange(0, i as int));
                match cards[i].suit {
                    Suit::Spades => spades += 1,
                    Suit::Clubs => clubs += 1,
                    Suit::Hearts => hearts += 1,
                    Suit::Diamonds => diamonds += 1,
                }
                i += 1;
            }
            assert(s.subrange(0, i as int) =~= s);
            spades >= length || clubs >= length || hearts >= length || diamonds >= length
        } else {
            self.cardset.count_in_suit(Suit::Spades) == 5 || self.cardset.count_in_suit(
                Suit::Clubs,
            ) == 5 || self.cardset.count_in_suit(Suit::Hearts) == 5
                || self.cardset.count_in_suit(Suit::Diamonds) == 5
        }
    }

    fn evaluate_run(&self) -> (r: Option<Hand>)
        requires
            self.wf(),
        ensures
            r.is_some() == run(self.input(), self.opts()).is_some(),
            r.is_some() ==> r.unwrap().card_seq() == run(self.input(), self.opts()).unwrap(),
    {
        let four_card = self.options.four_card;
        let min_length: usize = if four_card {
            4
        } else {
            5
        };
        if self.len < min_length {
            return None;
        }
        let ghost srt = self.sorted@;
        let n = self.sorted.len();
        let mut can_gap = self.options.gapped;
        let mut can_fail = four_card;
        let mut straight_length: usize = 1;
        let mut done = false;
        let mut i: usize = 0;
        while i + 1 < n && !done
            invariant
                srt == self.sorted@,
                n == srt.len(),
                4 <= n <= 5,
                i < n,
                1 <= straight_length <= i + 1,
                (if done {
                    (straight_length as int, can_fail)
                } else {
                    scan_run(srt, four_card, i as int, straight_length as int, can_gap, can_fail)
                }) == scan_run(srt, four_card, 0, 1, self.options.gapped, four_card),
            decreases n - i,
        {
            let left = self.sorted[i].rank;
            let right = self.sorted[i + 1].rank;
            let consecutive = rank_is_consecutive(left, right);
            let gapped = rank_has_gap(left, right);
            if consecutive {
                straight_length += 1;
            } else if gapped && can_gap {
                straight_length += 1;
                can_gap = false;
            } else if four_card && i == 3 {
                done = true;
            } else if can_fail {
                straight_length = 1;
                can_fail = false;
            } else {
                done = true;
            }
            i += 1;
        }
        if straight_length == 5 || (self.len == 4 && four_card && straight_length == 4) {
            Some(self.all_cards())
        } else if four_card && straight_length == 4 {
            let except_card: usize = if can_fail {
                4
            } else {
                0
            };
            let target = self.sorted[except_card];
            let cards = self.cards.view();
            let ghost s = cards@;
            let mut ditched_card = false;
            let mut out: Vec<Card> = Vec::new();
            let mut j: usize = 0;
            assert(s.subrange(0, s.len() as int) =~= s);
            assert(out@ + s =~= s);
            while j < cards.len()
                invariant
                    s == cards@,
                    j <= s.len() <= 5,
                    out@.len() <= j,
                    out@ + (if ditched_card {
                        s.subrange(j as int, s.len() as int)
                    } else {
                        without_first(s.subrange(j as int, s.len() as int), target)
                    }) == without_first(s, target),
                decreases s.len() - j,
            {
                let ghost rest = s.subrange(j as int, s.len() as int);
                let ghost next = s.subrange(j + 1, s.len() as int);
                let ghost out0 = out@;
                assert(rest.drop_first() =~= next);
                assert(rest[0] == s[j as int]);
                assert(rest =~= seq![s[j as int]] + next);
                if !ditched_card && cards[j] == target {
                    ditched_card = true;
                } else {
                    out.push(cards[j]);
                    proof {
                        let tail = if ditched_card {
                            next
                        } else {
                            without_first(next, target)
                        };
                        assert(out0 + (seq![s[j as int]] + tail) =~= out@ + tail);
                    }
                }
                j += 1;
            }
            assert(s.subrange(s.len() as int, s.len() as int) =~= Seq::<Card>::empty());
            assert(out@ + Seq::<Card>::empty() =~= out@);
            Some(Hand::from_five(out.as_slice()))
        } else {
            None
        }
    }

    fn evaluate_rank_matches(&self, match_size: usize, match_count: usize) -> (r: Option<Hand>)
        requires
            self.wf(),
        ensures
            r.is_some() == rank_match(self.input(), match_size as nat, match_count as nat).is_some(),
            r.is_some() ==> r.unwrap().card_seq() == rank_match(
                self.input(),
                match_size as nat,
                match_count as nat,
            ).unwrap(),
    {
        let cards = self.cards.view();
        let ghost s = cards@;
        let mut ranks: Vec<usize> = Vec::new();
        let mut k: usize = 0;
        while k < 13
            invariant
                k <= 13,
                ranks@.len() == k,
                forall|q: int| 0 <= q < k ==> ranks@[q] == 0,
            decreases 13 - k,
        {
            ranks.push(0);
            k += 1;
        }
        let mut i: usize = 0;
        while i < cards.len()
            invariant
                s == cards@,
                s.len() <= 5,
                i <= s.len(),
                ranks@.len() == 13,
                forall|q: int| 0 <= q < 13 ==> ranks@[q] <= i,
                forall|q: int| 0 <= q < 13 ==> ranks@[q] == count_rank(s.subrange(0, i as int), q),
            decreases s.len() - i,
        {
            assert(s.subrange(0, i + 1).drop_last() =~= s.subrange(0, i as int));
            let r = cards[i].rank.index();
            let v = ranks[r];
            ranks.set(r, v + 1);
            i += 1;
        }
        assert(s.subrange(0, i as int) =~= s);
        let mut matched: usize = 0;
        k = 0;
        while k < 13
            invariant
                k <= 13,
                ranks@.len() == 13,
                forall|q: int| 0 <= q < 13 ==> ranks@[q] == count_rank(s, q),
                matched <= k,
                matched == matched_ranks(s, match_size as nat, k as int),
            decreases 13 - k,
        {
            if ranks[k] == match_size {
                matched += 1;
            }
            k += 1;
        }
        if matched != match_count {
            return None;
        }
        let mut out: Vec<Card> = Vec::new();
        i = 0;
        while i < cards.len()
            invariant
                s == cards@,
                s.len() <= 5,
                i <= s.len(),
                ranks@.len() == 13,
                forall|q: int| 0 <= q < 13 ==> ranks@[q] == count_rank(s, q),
                out@.len() <= i,
                out@ == cards_of_matched_ranks(s.subrange(0, i as int), s, match_size as nat),
            decreases s.len() - i,
        {
            assert(s.subrange(0, i + 1).drop_last() =~= s.subrange(0, i as int));
            let c = cards[i];
            if ranks[c.rank.index()] == match_size {
                out.push(c);
            }
            i += 1;
        }
        assert(s.subrange(0, i as int) =~= s);
        Some(Hand::from_five(out.as_slice()))
    }

    fn evaluate_full_house(&self) -> (r: bool)
        requires
            self.wf(),
        ensures
            r == full_house(sort_desc(self.input())),
    {
        if self.len < 5 {
            return false;
        }
        let sorted_cards = &self.sorted;
        let first_rank = sorted_cards[0].rank;
        if sorted_cards[1].rank != first_rank {
            return false;
        }
        if sorted_cards[2].rank == first_rank {
            let second_rank = sorted_cards[3].rank;
            if second_rank == first_rank {
                return false;
            }
            if sorted_cards[4].rank != second_rank {
                return false;
            }
        } else {
            let second_rank = sorted_cards[2].rank;
            if sorted_cards[3].rank != second_rank {
                return false;
            }
            if sorted_cards[4].rank != second_rank {
                return false;
            }
        }
        true
    }

    fn evaluate(&self) -> (r: Option<(HandKind, Hand)>)
        requires
            self.wf(),
        ensures
            result_view(r) == classify(self.input(), self.opts()),
    {
        if self.len == 0 {
            return None;
        }
        let five_card_flush = self.evaluate_suit_matches(false);

        // The categories are tried from the strongest down; the first that holds wins.
        if five_card_flush {
            if let Some(hand) = self.evaluate_rank_matches(5, 1) {
                return Some((HandKind::FlushFive, hand));
            }
        }
        let full_house = self.evaluate_full_house();
        if five_card_flush && full_house {
            return Some((HandKind::FlushHouse, self.all_cards()));
        }
        if let Some(hand) = self.evaluate_rank_matches(5, 1) {
            return Some((HandKind::FiveOfAKind, hand));
        }
        let straight = self.evaluate_run();
        let suited = match &straight {
            Some(hand) => all_same_suit(hand),
            None => false,
        };
        if suited {
            return Some((HandKind::StraightFlush, straight.unwrap()));
        }
        if let Some(hand) = self.evaluate_rank_matches(4, 1) {
            return Some((HandKind::FourOfAKind, hand));
        }
        if full_house {
            return Some((HandKind::FullHouse, self.all_cards()));
        }
        if self.evaluate_suit_matches(self.options.four_card) {
            return Some((HandKind::Flush, self.all_cards()));
        }
        if let Some(hand) = straight {
            return Some((HandKind::Straight, hand));
        }
        if let Some(hand) = self.evaluate_rank_matches(3, 1) {
            return Some((HandKind::ThreeOfAKind, hand));
        }
        if let Some(hand) = self.evaluate_rank_matches(2, 2) {
            return Some((HandKind::TwoPair, hand));
        }
        if let Some(hand) = self.evaluate_rank_matches(2, 1) {
            return Some((HandKind::Pair, hand));
        }
        let high = self.evaluate_high_card();
        Some((HandKind::HighCard, high.unwrap()))
    }

    /// Classifies up to five cards: `None` for no cards, else the strongest category
    /// and the cards that justify it, in input order.
    pub fn evaluate_poker_hand<V: CardView>(card_view: V, options: Options) -> (r: Option<
        (HandKind, Hand),
    >)
        requires
            card_view.card_seq().len() <= 5,
        ensures
            result_view(r) == classify(card_view.card_seq(), options),
            r.is_none() <==> card_view.card_seq().len() == 0,
    {
        let evaluator = Self::new(card_view, options);
        evaluator.evaluate()
    }

    /// Classifies each candidate hand and keeps the first of the strongest category.
    pub fn best_of_candidates(candidates: &Vec<Vec<Card>>, options: Options) -> (r: Option<
        (HandKind, Hand),
    >)
        requires
            forall|i: int| 0 <= i < candidates@.len() ==> (#[trigger] candidates@[i])@.len() <= 5,
        ensures
            result_view(r) == best_of(views_of(candidates@), options),
    {
        let ghost all = views_of(candidates@);
        let mut best: Option<(HandKind, Hand)> = None;
        let mut i: usize = 0;
        while i < candidates.len()
            invariant
                all == views_of(candidates@),
                forall|j: int| 0 <= j < candidates@.len() ==> (#[trigger] candidates@[j])@.len() <= 5,
                i <= candidates@.len(),
                result_view(best) == best_of(all.subrange(0, i as int), options),
            decreases candidates@.len() - i,
        {
            assert(all.subrange(0, i + 1).drop_last() =~= all.subrange(0, i as int));
            assert(all.subrange(0, i + 1).last() == candidates@[i as int]@);
            let hand = Hand::from_five(candidates[i].as_slice());
            let current = Self::evaluate_poker_hand(hand, options);
            let better = match (&current, &best) {
                (Some((kind, _)), Some((best_kind, _))) => kind.index() > best_kind.index(),
                (_, None) => true,
                (None, Some(_)) => false,
            };
            if better {
                best = current;
            }
            i += 1;
        }
        assert(all.subrange(0, i as int) =~= all);
        best
    }

    /// The strongest classification among the five-card selections of a pool of cards;
    /// a pool of five or fewer cards is classified as it is.
    pub fn find_best_poker_hand<V: CardView>(card_view: V, options: Options) -> (r: Option<
        (HandKind, Hand),
    >)
        ensures
            card_view.card_seq().len() <= 5 ==> result_view(r) == classify(
                card_view.card_seq(),
                options,
            ),
            card_view.card_seq().len() > 5 ==> result_view(r) == best_of(
                five_card_combinations(card_view.card_seq()),
                options,
            ),
    {
        let cards = card_view.view();
        if cards.len() <= 5 {
            Self::evaluate_poker_hand(card_view, options)
        } else {
            let candidates = combinations_of_five(cards);
            Self::best_of_candidates(&candidates, options)
        }
    }
}

} // verus!
