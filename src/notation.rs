//! The two-character card notation: rank (`2`-`9`, `T`, `J`, `Q`, `K`, `A`) then suit
//! (`S`, `C`, `H`, `D`), case-insensitive; lists of cards are separated by whitespace.
use vstd::prelude::*;
use vstd::std_specs::iter::IteratorSpec;

use crate::cards::{Card, CardCollection, CardView, Hand, Rank, Suit};

verus! {

/// The rank that a character names.
pub open spec fn rank_of_char(c: char) -> Option<Rank> {
    if c == '2' {
        Some(Rank::Deuce)
    } else if c == '3' {
        Some(Rank::Three)
    } else if c == '4' {
        Some(Rank::Four)
    } else if c == '5' {
        Some(Rank::Five)
    } else if c == '6' {
        Some(Rank::Six)
    } else if c == '7' {
        Some(Rank::Seven)
    } else if c == '8' {
        Some(Rank::Eight)
    } else if c == '9' {
        Some(Rank::Nine)
    } else if c == 'T' || c == 't' {
        Some(Rank::Ten)
    } else if c == 'J' || c == 'j' {
        Some(Rank::Jack)
    } else if c == 'Q' || c == 'q' {
        Some(Rank::Queen)
    } else if c == 'K' || c == 'k' {
        Some(Rank::King)
    } else if c == 'A' || c == 'a' {
        Some(Rank::Ace)
    } else {
        None
    }
}

/// The suit that a character names.
pub open spec fn suit_of_char(c: char) -> Option<Suit> {
    if c == 'S' || c == 's' {
        Some(Suit::Spades)
    } else if c == 'C' || c == 'c' {
        Some(Suit::Clubs)
    } else if c == 'H' || c == 'h' {
        Some(Suit::Hearts)
    } else if c == 'D' || c == 'd' {
        Some(Suit::Diamonds)
    } else {
        None
    }
}

/// The card that a rank character and a suit character name.
pub open spec fn card_of_chars(r: char, s: char) -> Option<Card> {
    if rank_of_char(r) is Some && suit_of_char(s) is Some {
        Some(Card { rank: rank_of_char(r)->0, suit: suit_of_char(s)->0 })
    } else {
        None
    }
}

/// The card that a two-character identifier names.
pub open spec fn card_of_ident(s: Seq<char>) -> Option<Card> {
    if s.len() == 2 {
        card_of_chars(s[0], s[1])
    } else {
        None
    }
}

/// ASCII whitespace, which separates identifiers.
pub open spec fn is_space(c: char) -> bool {
    c == ' ' || c == '\t' || c == '\n' || c == '\r' || c == '\x0C'
}

/// The cards that a whitespace-separated list of identifiers names, if it is well formed.
pub open spec fn cards_of_idents(s: Seq<char>) -> Option<Seq<Card>>
    decreases s.len(),
{
    if s.len() == 0 {
        Some(Seq::empty())
    } else if is_space(s[0]) {
        cards_of_idents(s.drop_first())
    } else if s.len() >= 2 && card_of_chars(s[0], s[1]) is Some && (s.len() == 2 || is_space(
        s[2],
    )) {
        match cards_of_idents(s.subrange(2, s.len() as int)) {
            Some(rest) => Some(seq![card_of_chars(s[0], s[1])->0] + rest),
            None => None,
        }
    } else {
        None
    }
}

fn rank_from_char(c: char) -> (r: Option<Rank>)
    ensures
        r == rank_of_char(c),
{
    match c {
        '2' => Some(Rank::Deuce),
        '3' => Some(Rank::Three),
        '4' => Some(Rank::Four),
        '5' => Some(Rank::Five),
        '6' => Some(Rank::Six),
        '7' => Some(Rank::Seven),
        '8' => Some(Rank::Eight),
        '9' => Some(Rank::Nine),
        'T' | 't' => Some(Rank::Ten),
        'J' | 'j' => Some(Rank::Jack),
        'Q' | 'q' => Some(Rank::Queen),
        'K' | 'k' => Some(Rank::King),
        'A' | 'a' => Some(Rank::Ace),
        _ => None,
    }
}

fn suit_from_char(c: char) -> (r: Option<Suit>)
    ensures
        r == suit_of_char(c),
{
    match c {
        'S' | 's' => Some(Suit::Spades),
        'C' | 'c' => Some(Suit::Clubs),
        'H' | 'h' => Some(Suit::Hearts),
        'D' | 'd' => Some(Suit::Diamonds),
        _ => None,
    }
}

fn card_from_chars(r: char, s: char) -> (c: Option<Card>)
    ensures
        c == card_of_chars(r, s),
{
    match (rank_from_char(r), suit_from_char(s)) {
        (Some(rank), Some(suit)) => Some(Card { rank, suit }),
        _ => None,
    }
}

fn is_space_char(c: char) -> (r: bool)
    ensures
        r == is_space(c),
{
    c == ' ' || c == '\t' || c == '\n' || c == '\r' || c == '\x0C'
}

/// The characters of a string, in order.
fn chars_of(s: &str) -> (r: Vec<char>)
    ensures
        r@ == s@,
{
    let mut it = s.chars();
    let mut out: Vec<char> = Vec::new();
    loop
        invariant
            it.remaining() == s@.subrange(out@.len() as int, s@.len() as int),
            out@ == s@.subrange(0, out@.len() as int),
            out@.len() <= s@.len(),
        ensures
            out@ == s@,
        decreases s@.len() - out@.len(),
    {
        match it.next() {
            Some(c) => {
                out.push(c);
                assert(out@ =~= s@.subrange(0, out@.len() as int));
                assert(it.remaining() =~= s@.subrange(out@.len() as int, s@.len() as int));
            },
            None => {
                assert(out@.len() == s@.len());
                assert(out@ =~= s@);
                break ;
            },
        }
    }
    out
}

impl Card {
    /// The card that a two-character identifier such as `KH` names.
    pub fn from_ident(ident: &str) -> (r: Self)
        requires
            card_of_ident(ident@) is Some,
        ensures
            r == card_of_ident(ident@)->0,
    {
        let chars = chars_of(ident);
        card_from_chars(chars[0], chars[1]).unwrap()
    }
}

fn cards_from_idents(idents: &str) -> (r: Vec<Card>)
    requires
        cards_of_idents(idents@) is Some,
    ensures
        r@ == cards_of_idents(idents@)->0,
{
    let chars = chars_of(idents);
    let ghost s = chars@;
    let n = chars.len();
    let mut out: Vec<Card> = Vec::new();
    let mut i: usize = 0;
    assert(s.subrange(0, n as int) =~= s);
    assert(out@ + cards_of_idents(s)->0 =~= cards_of_idents(s)->0);
    while i < n
        invariant
            s == chars@,
            n == s.len(),
            i <= n,
            cards_of_idents(s) is Some,
            cards_of_idents(s.subrange(i as int, n as int)) is Some,
            cards_of_idents(s) == Some(out@ + cards_of_idents(s.subrange(i as int, n as int))->0),
        decreases n - i,
    {
        let ghost rest = s.subrange(i as int, n as int);
        if is_space_char(chars[i]) {
            assert(rest.drop_first() =~= s.subrange(i + 1, n as int));
            i += 1;
        } else {
            let c = card_from_chars(chars[i], chars[i + 1]).unwrap();
            assert(rest.subrange(2, rest.len() as int) =~= s.subrange(i + 2, n as int));
            let ghost tail = cards_of_idents(s.subrange(i + 2, n as int))->0;
            assert(out@.push(c) + tail =~= out@ + (seq![c] + tail));
            out.push(c);
            i += 2;
        }
    }
    assert(s.subrange(n as int, n as int) =~= Seq::<char>::empty());
    assert(out@ + Seq::<Card>::empty() =~= out@);
    out
}

impl CardCollection {
    /// The cards that a whitespace-separated list of identifiers names, e.g. `"KH TD JS"`.
    pub fn from_idents(idents: &str) -> (r: Self)
        requires
            cards_of_idents(idents@) is Some,
        ensures
            r.card_seq() == cards_of_idents(idents@)->0,
    {
        let cards = cards_from_idents(idents);
        CardCollection::from_cards(cards.as_slice())
    }
}

impl Hand {
    /// The hand that a whitespace-separated list of at most five identifiers names.
    pub fn from_idents(idents: &str) -> (r: Self)
        requires
            cards_of_idents(idents@) is Some,
            cards_of_idents(idents@)->0.len() <= 5,
        ensures
            r.card_seq() == cards_of_idents(idents@)->0,
    {
        let cards = cards_from_idents(idents);
        Hand::from_five(cards.as_slice())
    }
}

} // verus!
