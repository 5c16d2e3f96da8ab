//! Hands and the scoring policy.

use vstd::prelude::*;
use crate::card::{Card, Rank, Suit};

verus! {

/// Sum of the card values of a hand, every Ace counted as one.
pub open spec fn hard_total(cards: Seq<Card>) -> nat
    decreases cards.len(),
{
    if cards.len() == 0 {
        0
    } else {
        hard_total(cards.drop_last()) + cards.last().1.points()
    }
}

/// Whether the hand holds at least one Ace.
pub open spec fn has_ace(cards: Seq<Card>) -> bool {
    exists|i: int| 0 <= i < cards.len() && cards[i].1 == Rank::Ace
}

/// Whether the hand can be scored: its hard total fits in a byte.
pub open spec fn scorable(cards: Seq<Card>) -> bool {
    hard_total(cards) <= 255
}

/// The hard total and, when an Ace can count as eleven without passing 21, the soft total.
pub open spec fn hand_score(cards: Seq<Card>) -> (u8, Option<u8>) {
    let hard = hard_total(cards);
    if hard <= 11 && has_ace(cards) {
        (hard as u8, Some((hard + 10) as u8))
    } else {
        (hard as u8, None)
    }
}

/// The total a hand is compared by: the soft total when there is one, else the hard total.
pub open spec fn effective(score: (u8, Option<u8>)) -> u8 {
    match score.1 {
        Some(soft) => soft,
        None => score.0,
    }
}

/// A hand is bust when its hard total passes 21.
pub open spec fn bust(cards: Seq<Card>) -> bool {
    hard_total(cards) > 21
}

/// Two cards whose soft total is 21: an Ace and a card worth ten.
pub open spec fn blackjack(cards: Seq<Card>) -> bool {
    cards.len() == 2 && hand_score(cards).1 == Some(21u8)
}

/// The hard total of a leading part of a hand is at most that of the whole hand.
pub proof fn lemma_hard_total_prefix(cards: Seq<Card>, i: int)
    requires
        0 <= i <= cards.len(),
    ensures
        hard_total(cards.take(i)) <= hard_total(cards),
    decreases cards.len(),
{
    if i < cards.len() {
        assert(cards.take(i) =~= cards.drop_last().take(i));
        lemma_hard_total_prefix(cards.drop_last(), i);
    } else {
        assert(cards.take(i) =~= cards);
    }
}

/// A hand of a single Ace scores 1 hard and 11 soft, and is not bust.
pub proof fn lemma_single_ace(suit: Suit)
    ensures
        hand_score(seq![Card(suit, Rank::Ace)]) == (1u8, Some(11u8)),
        !bust(seq![Card(suit, Rank::Ace)]),
{
    let h = seq![Card(suit, Rank::Ace)];
    assert(h.drop_last() =~= Seq::<Card>::empty());
    assert(hard_total(Seq::<Card>::empty()) == 0);
    assert(hard_total(h) == 1);
    assert(h[0].1 == Rank::Ace);
}

/// A card worth ten and an Ace score 11 hard and 21 soft: an effective 21, not
/// bust, and a blackjack as a two-card hand.
pub proof fn lemma_ten_and_ace(ten: Card, ace: Card)
    requires
        ten.1.points() == 10,
        ace.1 == Rank::Ace,
    ensures
        hand_score(seq![ten, ace]) == (11u8, Some(21u8)),
        effective(hand_score(seq![ten, ace])) == 21,
        !bust(seq![ten, ace]),
        blackjack(seq![ten, ace]),
{
    let h = seq![ten, ace];
    assert(h.drop_last() =~= seq![ten]);
    assert(seq![ten].drop_last() =~= Seq::<Card>::empty());
    assert(hard_total(Seq::<Card>::empty()) == 0);
    assert(hard_total(seq![ten]) == 10);
    assert(hard_total(h) == 11);
    assert(h[1].1 == Rank::Ace);
}

/// Two cards worth ten and a Five score 25 with no soft total, and are bust.
pub proof fn lemma_ten_ten_five(a: Card, b: Card, five: Card)
    requires
        a.1.points() == 10,
        b.1.points() == 10,
        five.1 == Rank::Five,
    ensures
        hand_score(seq![a, b, five]) == (25u8, None::<u8>),
        bust(seq![a, b, five]),
{
    let h = seq![a, b, five];
    assert(h.drop_last() =~= seq![a, b]);
    assert(seq![a, b].drop_last() =~= seq![a]);
    assert(seq![a].drop_last() =~= Seq::<Card>::empty());
    assert(hard_total(Seq::<Card>::empty()) == 0);
    assert(hard_total(seq![a]) == 10);
    assert(hard_total(seq![a, b]) == 20);
    assert(hard_total(h) == 25);
}

/// A scoring policy over hands.
pub trait Score {
    type Output;

    /// Whether the policy can score the given cards.
    spec fn can_score(&self, cards: Seq<Card>) -> bool;

    /// The score of the given cards.
    spec fn score_of(&self, cards: Seq<Card>) -> Self::Output;

    /// Whether the given cards are bust.
    spec fn bust_of(&self, cards: Seq<Card>) -> bool;

    fn score(&self, hand: &Hand) -> (r: Self::Output)
        requires
            self.can_score(hand@),
        ensures
            r == self.score_of(hand@),
    ;

    fn is_bust(&self, hand: &Hand) -> (r: bool)
        requires
            self.can_score(hand@),
        ensures
            r == self.bust_of(hand@),
    ;
}

/// Blackjack's scoring: a hard total and an optional soft total with one Ace as eleven.
#[derive(Debug, Clone, Copy, PartialEq, Eq, PartialOrd, Ord, Hash)]
pub struct BlackjackScore;

impl BlackjackScore {
    fn hard(cards: &Vec<Card>) -> (r: u8)
        requires
            scorable(cards@),
        ensures
            r == hard_total(cards@),
    {
        let mut sum: u8 = 0;
        let mut i: usize = 0;
        while i < cards.len()
            invariant
                i <= cards@.len(),
                scorable(cards@),
                sum == hard_total(cards@.take(i as int)),
            decreases cards@.len() - i,
        {
            proof {
                let next = cards@.take(i as int + 1);
                assert(next.drop_last() =~= cards@.take(i as int));
                lemma_hard_total_prefix(cards@, i as int + 1);
            }
            sum = sum + cards[i].rank().value();
            i = i + 1;
        }
        assert(cards@.take(i as int) =~= cards@);
        sum
    }

    fn any_ace(cards: &Vec<Card>) -> (r: bool)
        ensures
            r == has_ace(cards@),
    {
        let mut i: usize = 0;
        while i < cards.len()
            invariant
                i <= cards@.len(),
                forall|j: int| 0 <= j < i ==> cards@[j].1 != Rank::Ace,
            decreases cards@.len() - i,
        {
            if *cards[i].rank() == Rank::Ace {
                return true;
            }
            i = i + 1;
        }
        false
    }
}

impl Score for BlackjackScore {
    type Output = (u8, Option<u8>);

    open spec fn can_score(&self, cards: Seq<Card>) -> bool {
        scorable(cards)
    }

    open spec fn score_of(&self, cards: Seq<Card>) -> (u8, Option<u8>) {
        hand_score(cards)
    }

    open spec fn bust_of(&self, cards: Seq<Card>) -> bool {
        bust(cards)
    }

    fn score(&self, hand: &Hand) -> (r: (u8, Option<u8>)) {
        let score = Self::hard(&hand.cards);
        if score <= 11 && Self::any_ace(&hand.cards) {
            (score, Some(score + 10))
        } else {
            (score, None)
        }
    }

    fn is_bust(&self, hand: &Hand) -> (r: bool) {
        self.score(hand).0 > 21
    }
}

/// The cards held by one participant, in the order they were received.
#[derive(Debug, Clone, PartialEq, Eq, PartialOrd, Ord, Hash)]
pub struct Hand {
    cards: Vec<Card>,
}

impl View for Hand {
    type V = Seq<Card>;

    closed spec fn view(&self) -> Seq<Card> {
        self.cards@
    }
}

impl Default for Hand {
    fn default() -> (r: Hand)
        ensures
            r@ == Seq::<Card>::empty(),
    {
        Hand { cards: Vec::new() }
    }
}

impl Hand {
    pub fn add(&mut self, card: Card)
        ensures
            final(self)@ == old(self)@.push(card),
    {
        self.cards.push(card);
    }

    pub fn score<S: Score>(&self, score: &S) -> (r: S::Output)
        requires
            score.can_score(self@),
        ensures
            r == score.score_of(self@),
    {
        score.score(self)
    }

    pub fn is_bust<S: Score>(&self, score: &S) -> (r: bool)
        requires
            score.can_score(self@),
        ensures
            r == score.bust_of(self@),
    {
        score.is_bust(self)
    }

    pub fn cards(&self) -> (r: &[Card])
        ensures
            r@ == self@,
    {
        self.cards.as_slice()
    }

    /// A copy of the hand as it stands now.
    pub(crate) fn snapshot(&self) -> (r: Hand)
        ensures
            r@ == self@,
    {
        let cards = self.cards.clone();
        assert(cards@ =~= self.cards@);
        Hand { cards }
    }
}

} // verus!
