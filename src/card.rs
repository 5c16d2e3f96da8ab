//! Suits, ranks and cards.

use vstd::prelude::*;

verus! {

#[derive(Debug, Clone, Copy, PartialEq, Eq, Structural, PartialOrd, Ord, Hash)]
pub enum Suit {
    Club,
    Diamond,
    Heart,
    Spade,
}

#[derive(Debug, Clone, Copy, PartialEq, Eq, Structural, PartialOrd, Ord, Hash)]
pub enum Rank {
    Ace,
    Two,
    Three,
    Four,
    Five,
    Six,
    Seven,
    Eight,
    Nine,
    Ten,
    Jack,
    Queen,
    King,
}

impl Suit {
    /// Position of the suit in the fixed order Club, Diamond, Heart, Spade.
    pub open spec fn ordinal(self) -> int {
        match self {
            Suit::Club => 0,
            Suit::Diamond => 1,
            Suit::Heart => 2,
            Suit::Spade => 3,
        }
    }
}

impl Rank {
    /// Position of the rank in the fixed order Ace (0) through King (12).
    pub open spec fn ordinal(self) -> int {
        match self {
            Rank::Ace => 0,
            Rank::Two => 1,
            Rank::Three => 2,
            Rank::Four => 3,
            Rank::Five => 4,
            Rank::Six => 5,
            Rank::Seven => 6,
            Rank::Eight => 7,
            Rank::Nine => 8,
            Rank::Ten => 9,
            Rank::Jack => 10,
            Rank::Queen => 11,
            Rank::King => 12,
        }
    }

    /// Value of the rank in a hand: one more than its ordinal, at most ten.
    pub open spec fn points(self) -> nat {
        if self.ordinal() + 1 >= 10 {
            10
        } else {
            (self.ordinal() + 1) as nat
        }
    }

    pub fn value(&self) -> (r: u8)
        ensures
            r == self.points(),
    {
        match self {
            Rank::Ace => 1,
            Rank::Two => 2,
            Rank::Three => 3,
            Rank::Four => 4,
            Rank::Five => 5,
            Rank::Six => 6,
            Rank::Seven => 7,
            Rank::Eight => 8,
            Rank::Nine => 9,
            _ => 10,
        }
    }
}

/// The suit at position `i` of the fixed suit order.
pub open spec fn suit_at(i: int) -> Suit {
    if i <= 0 {
        Suit::Club
    } else if i == 1 {
        Suit::Diamond
    } else if i == 2 {
        Suit::Heart
    } else {
        Suit::Spade
    }
}

/// The rank at position `i` of the fixed rank order.
pub open spec fn rank_at(i: int) -> Rank {
    if i <= 0 {
        Rank::Ace
    } else if i == 1 {
        Rank::Two
    } else if i == 2 {
        Rank::Three
    } else if i == 3 {
        Rank::Four
    } else if i == 4 {
        Rank::Five
    } else if i == 5 {
        Rank::Six
    } else if i == 6 {
        Rank::Seven
    } else if i == 7 {
        Rank::Eight
    } else if i == 8 {
        Rank::Nine
    } else if i == 9 {
        Rank::Ten
    } else if i == 10 {
        Rank::Jack
    } else if i == 11 {
        Rank::Queen
    } else {
        Rank::King
    }
}

/// The canonical 52 cards, suit by suit, each suit from Ace to King.
pub open spec fn standard_cards() -> Seq<Card> {
    Seq::new(52, |i: int| Card(suit_at(i / 13), rank_at(i % 13)))
}

/// Position of a card in the canonical order.
pub open spec fn card_index(c: Card) -> int {
    c.0.ordinal() * 13 + c.1.ordinal()
}

/// The canonical order lists every card exactly once.
pub proof fn lemma_standard_cards_distinct()
    ensures
        standard_cards().len() == 52,
        standard_cards().no_duplicates(),
        forall|c: Card| standard_cards().contains(c),
{
    let s = standard_cards();
    assert forall|i: int| 0 <= i < 52 implies card_index(#[trigger] s[i]) == i by {
        assert(0 <= i / 13 < 4 && 0 <= i % 13 < 13);
    }
    assert forall|c: Card| s.contains(c) by {
        let i = card_index(c);
        assert(0 <= i < 52);
        assert(i / 13 == c.0.ordinal() && i % 13 == c.1.ordinal());
        assert(s[i] == c);
    }
}

fn suit_from_ordinal(i: usize) -> (r: Suit)
    ensures
        r == suit_at(i as int),
{
    if i == 0 {
        Suit::Club
    } else if i == 1 {
        Suit::Diamond
    } else if i == 2 {
        Suit::Heart
    } else {
        Suit::Spade
    }
}

fn rank_from_ordinal(i: usize) -> (r: Rank)
    ensures
        r == rank_at(i as int),
{
    if i == 0 {
        Rank::Ace
    } else if i == 1 {
        Rank::Two
    } else if i == 2 {
        Rank::Three
    } else if i == 3 {
        Rank::Four
    } else if i == 4 {
        Rank::Five
    } else if i == 5 {
        Rank::Six
    } else if i == 6 {
        Rank::Seven
    } else if i == 7 {
        Rank::Eight
    } else if i == 8 {
        Rank::Nine
    } else if i == 9 {
        Rank::Ten
    } else if i == 10 {
        Rank::Jack
    } else if i == 11 {
        Rank::Queen
    } else {
        Rank::King
    }
}

/// The canonical 52 cards in suit-then-rank order.
pub fn standard_card_list() -> (r: Vec<Card>)
    ensures
        r@ == standard_cards(),
{
    let mut r: Vec<Card> = Vec::new();
    let mut i: usize = 0;
    while i < 52
        invariant
            i <= 52,
            r@ == standard_cards().take(i as int),
        decreases 52 - i,
    {
        r.push(Card(suit_from_ordinal(i / 13), rank_from_ordinal(i % 13)));
        i = i + 1;
        assert(r@ =~= standard_cards().take(i as int));
    }
    assert(r@ =~= standard_cards());
    r
}

#[derive(Debug, Clone, Copy, PartialEq, Eq, Structural, PartialOrd, Ord, Hash)]
pub struct Card(pub Suit, pub Rank);

impl Card {
    /// The card of the given suit and rank.
    pub fn new(suit: Suit, rank: Rank) -> (r: Card)
        ensures
            r.suit_of() == suit,
            r.rank_of() == rank,
    {
        Card(suit, rank)
    }

    pub open spec fn suit_of(self) -> Suit {
        self.0
    }

    pub open spec fn rank_of(self) -> Rank {
        self.1
    }

    pub fn suit(&self) -> (r: &Suit)
        ensures
            *r == self.suit_of(),
    {
        &self.0
    }

    pub fn rank(&self) -> (r: &Rank)
        ensures
            *r == self.rank_of(),
    {
        &self.1
    }
}

} // verus!
