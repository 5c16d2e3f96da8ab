//! Decks: ordered piles of cards still to be drawn. The top card is the last one.

use vstd::prelude::*;
use crate::card::{Card, standard_cards, standard_card_list, lemma_standard_cards_distinct};

verus! {

/// Relies on rand's `SliceRandom::shuffle` with `thread_rng`: it permutes the
/// first `len` cards in place by swaps and leaves the rest as they were.
/// (`thread_rng` panics only when the system's random source cannot be opened.)
#[verifier::external_body]
fn shuffle_front(cards: &mut [Card], len: usize)
    requires
        len <= old(cards)@.len(),
    ensures
        final(cards)@.len() == old(cards)@.len(),
        final(cards)@.take(len as int).to_multiset() == old(cards)@.take(len as int).to_multiset(),
        final(cards)@.skip(len as int) == old(cards)@.skip(len as int),
{
    rand::seq::SliceRandom::shuffle(&mut cards[..len], &mut rand::thread_rng())
}

/// A pile of cards to be drawn from.
pub trait Deck: Sized {
    /// The cards still to be drawn, the top card last.
    spec fn remaining(&self) -> Seq<Card>;

    /// Puts the remaining cards in a new order.
    fn shuffle(&mut self)
        ensures
            final(self).remaining().to_multiset() == old(self).remaining().to_multiset(),
            final(self).remaining().len() == old(self).remaining().len(),
    ;

    /// Removes and returns the top card, or `None` when no card is left.
    fn draw(&mut self) -> (r: Option<Card>)
        ensures
            old(self).remaining().len() == 0 ==> r.is_none() && final(self).remaining() == old(
                self,
            ).remaining(),
            old(self).remaining().len() > 0 ==> r == Some(old(self).remaining().last())
                && final(self).remaining() == old(self).remaining().drop_last(),
    ;

    fn len(&self) -> (r: usize)
        ensures
            r == self.remaining().len(),
    ;

    fn is_empty(&self) -> (r: bool)
        ensures
            r == (self.remaining().len() == 0),
    {
        self.len() == 0
    }
}

/// A deck held in an array of fixed size; the cards at and above `valid_idx` have been drawn.
#[derive(Debug, Clone, Copy, PartialEq, Eq, Hash)]
pub struct ArrayDeck<const SIZE: usize> {
    valid_idx: usize,
    cards: [Card; SIZE],
}

pub type Deck52 = ArrayDeck<52>;

impl<const SIZE: usize> ArrayDeck<SIZE> {
    #[verifier::type_invariant]
    spec fn inv(&self) -> bool {
        self.valid_idx <= SIZE
    }

    pub closed spec fn view(&self) -> Seq<Card> {
        self.cards@.take(self.valid_idx as int)
    }

    pub fn new(cards: [Card; SIZE]) -> (r: Self)
        ensures
            r.remaining() == cards@,
    {
        let r = ArrayDeck { valid_idx: SIZE, cards };
        assert(r.cards@.take(SIZE as int) =~= cards@);
        r
    }

    /// The cards still to be drawn, bottom first.
    pub fn cards(&self) -> (r: Iter<'_>)
        ensures
            r.remaining() == self.remaining(),
    {
        proof {
            use_type_invariant(self);
        }
        let all: &[Card] = &self.cards;
        Iter::new(slice_front(all, self.valid_idx))
    }
}

fn slice_front(cards: &[Card], len: usize) -> (r: &[Card])
    requires
        len <= cards@.len(),
    ensures
        r@ == cards@.take(len as int),
{
    vstd::slice::slice_subrange(cards, 0, len)
}

impl<const SIZE: usize> Deck for ArrayDeck<SIZE> {
    open spec fn remaining(&self) -> Seq<Card> {
        self.view()
    }

    fn shuffle(&mut self) {
        proof {
            use_type_invariant(&*self);
        }
        let len = self.valid_idx;
        shuffle_front(&mut self.cards, len);
        assert(self.cards@.take(len as int) == self.view());
    }

    fn draw(&mut self) -> (r: Option<Card>) {
        proof {
            use_type_invariant(&*self);
        }
        if self.is_empty() {
            None
        } else {
            self.valid_idx = self.valid_idx - 1;
            let r = Some(self.cards[self.valid_idx]);
            assert(self.view() =~= old(self).view().drop_last());
            r
        }
    }

    fn len(&self) -> (r: usize) {
        proof {
            use_type_invariant(self);
        }
        self.valid_idx
    }
}

/// The standard deck: the 52 canonical cards in suit-then-rank order, not yet shuffled.
pub fn deck_52() -> (r: Deck52)
    ensures
        r.remaining() == standard_cards(),
{
    let v = standard_card_list();
    let mut a: [Card; 52] = [v[0]; 52];
    let mut i: usize = 0;
    while i < 52
        invariant
            i <= 52,
            v@ == standard_cards(),
            forall|j: int| 0 <= j < i ==> a@[j] == v@[j],
        decreases 52 - i,
    {
        a[i] = v[i];
        i = i + 1;
    }
    assert(a@ =~= standard_cards());
    ArrayDeck::new(a)
}

/// A deck held in a growable vector.
#[derive(Debug, Clone, PartialEq, Eq, Hash)]
pub struct VecDeck(Vec<Card>);

impl VecDeck {
    pub fn new(cards: Vec<Card>) -> (r: Self)
        ensures
            r.remaining() == cards@,
    {
        VecDeck(cards)
    }
}

impl Deck for VecDeck {
    closed spec fn remaining(&self) -> Seq<Card> {
        self.0@
    }

    fn shuffle(&mut self) {
        let len = self.0.len();
        shuffle_front(self.0.as_mut_slice(), len);
        assert(self.0@.take(len as int) =~= self.0@);
        assert(old(self).0@.take(len as int) =~= old(self).0@);
    }

    fn draw(&mut self) -> (r: Option<Card>) {
        self.0.pop()
    }

    fn len(&self) -> (r: usize) {
        self.0.len()
    }
}

/// A deck whose order is fixed in advance: shuffling leaves it as it is, so a
/// round played from it can be replayed exactly.
#[derive(Debug, Clone, PartialEq, Eq, Hash)]
pub struct StackedDeck(Vec<Card>);

impl StackedDeck {
    /// A deck that deals `cards` from the last one back to the first.
    pub fn new(cards: Vec<Card>) -> (r: Self)
        ensures
            r.remaining() == cards@,
    {
        StackedDeck(cards)
    }
}

impl Deck for StackedDeck {
    closed spec fn remaining(&self) -> Seq<Card> {
        self.0@
    }

    fn shuffle(&mut self) {
    }

    fn draw(&mut self) -> (r: Option<Card>) {
        self.0.pop()
    }

    fn len(&self) -> (r: usize) {
        self.0.len()
    }
}

/// Walks a run of cards from first to last.
#[derive(Debug, PartialEq, Eq, Hash)]
pub struct Iter<'a> {
    idx: usize,
    cards: &'a [Card],
}

impl<'a> Iter<'a> {
    #[verifier::type_invariant]
    spec fn inv(&self) -> bool {
        self.idx <= self.cards@.len()
    }

    /// The cards not yet handed out.
    pub closed spec fn remaining(&self) -> Seq<Card> {
        self.cards@.skip(self.idx as int)
    }

    pub fn new(cards: &'a [Card]) -> (r: Self)
        ensures
            r.remaining() == cards@,
    {
        let r = Iter { idx: 0, cards };
        assert(cards@.skip(0) =~= cards@);
        r
    }

    /// Hands out the next card, or `None` once all have been handed out.
    pub fn next(&mut self) -> (r: Option<&'a Card>)
        ensures
            old(self).remaining().len() == 0 ==> r.is_none() && final(self).remaining() == old(
                self,
            ).remaining(),
            old(self).remaining().len() > 0 ==> r == Some(&old(self).remaining()[0])
                && final(self).remaining() == old(self).remaining().skip(1),
    {
        proof {
            use_type_invariant(&*self);
        }
        if self.idx == self.cards.len() {
            None
        } else {
            let card = &self.cards[self.idx];
            self.idx = self.idx + 1;
            assert(self.remaining() =~= old(self).remaining().skip(1));
            Some(card)
        }
    }
}

/// Drawing a shuffled standard deck to the end hands out 52 distinct cards: the
/// remaining cards are then a permutation of the canonical 52, without repeats,
/// and the draws take them from the top down.
pub proof fn lemma_standard_draws_distinct(remaining: Seq<Card>)
    requires
        remaining.to_multiset() == standard_cards().to_multiset(),
    ensures
        remaining.len() == 52,
        remaining.no_duplicates(),
        remaining.reverse().no_duplicates(),
{
    lemma_standard_cards_distinct();
    let s = standard_cards();
    remaining.to_multiset_ensures();
    s.to_multiset_ensures();
    s.lemma_multiset_has_no_duplicates();
    remaining.lemma_multiset_has_no_duplicates_conv();
    let r = remaining.reverse();
    assert forall|i: int, j: int| 0 <= i < r.len() && 0 <= j < r.len() && i != j implies r[i] != r[j] by {
        assert(r[i] == remaining[51 - i]);
        assert(r[j] == remaining[51 - j]);
    }
}

} // verus!
