use blackjack::{
    ArrayDeck, BlackjackScore, Card, Deck, Hand, Rank, Score, StackedDeck, Suit, VecDeck, deck_52,
    standard_card_list,
};

fn hand(cards: &[Card]) -> Hand {
    let mut h = Hand::default();
    for c in cards {
        h.add(*c);
    }
    h
}

#[test]
fn single_ace_scores_one_or_eleven() {
    for suit in [Suit::Club, Suit::Diamond, Suit::Heart, Suit::Spade] {
        let h = hand(&[Card::new(suit, Rank::Ace)]);
        assert_eq!(h.score(&BlackjackScore), (1, Some(11)));
        assert!(!h.is_bust(&BlackjackScore));
    }
}

#[test]
fn ten_and_ace_make_twenty_one() {
    for ten in [Rank::Ten, Rank::Jack, Rank::Queen, Rank::King] {
        let h = hand(&[Card::new(Suit::Heart, ten), Card::new(Suit::Spade, Rank::Ace)]);
        assert_eq!(h.score(&BlackjackScore), (11, Some(21)));
        assert!(!h.is_bust(&BlackjackScore));
    }
}

#[test]
fn ten_ten_five_is_bust() {
    let h = hand(&[
        Card::new(Suit::Club, Rank::Ten),
        Card::new(Suit::Diamond, Rank::Ten),
        Card::new(Suit::Heart, Rank::Five),
    ]);
    assert_eq!(h.score(&BlackjackScore), (25, None));
    assert!(h.is_bust(&BlackjackScore));
    assert!(BlackjackScore.is_bust(&h));
}

#[test]
fn soft_total_needs_room_under_twenty_one() {
    let h = hand(&[
        Card::new(Suit::Club, Rank::Ace),
        Card::new(Suit::Club, Rank::Five),
        Card::new(Suit::Club, Rank::Six),
    ]);
    assert_eq!(h.score(&BlackjackScore), (12, None));
    let h = hand(&[Card::new(Suit::Club, Rank::Ace), Card::new(Suit::Heart, Rank::Ace)]);
    assert_eq!(h.score(&BlackjackScore), (2, Some(12)));
    let h = hand(&[Card::new(Suit::Club, Rank::Seven), Card::new(Suit::Heart, Rank::Nine)]);
    assert_eq!(h.score(&BlackjackScore), (16, None));
    assert_eq!(Hand::default().score(&BlackjackScore), (0, None));
}

#[test]
fn rank_values() {
    assert_eq!(Rank::Ace.value(), 1);
    assert_eq!(Rank::Two.value(), 2);
    assert_eq!(Rank::Nine.value(), 9);
    assert_eq!(Rank::Ten.value(), 10);
    assert_eq!(Rank::Jack.value(), 10);
    assert_eq!(Rank::King.value(), 10);
}

#[test]
fn card_accessors() {
    let c = Card::new(Suit::Diamond, Rank::Queen);
    assert_eq!(*c.suit(), Suit::Diamond);
    assert_eq!(*c.rank(), Rank::Queen);
}

#[test]
fn hand_keeps_cards_in_order() {
    let a = Card::new(Suit::Club, Rank::Two);
    let b = Card::new(Suit::Spade, Rank::King);
    let h = hand(&[a, b]);
    assert_eq!(h.cards(), &[a, b]);
}

#[test]
fn standard_list_is_suit_then_rank() {
    let cards = standard_card_list();
    assert_eq!(cards.len(), 52);
    assert_eq!(cards[0], Card::new(Suit::Club, Rank::Ace));
    assert_eq!(cards[12], Card::new(Suit::Club, Rank::King));
    assert_eq!(cards[13], Card::new(Suit::Diamond, Rank::Ace));
    assert_eq!(cards[51], Card::new(Suit::Spade, Rank::King));
}

#[test]
fn standard_deck_draws_fifty_two_distinct_cards() {
    let mut deck = deck_52();
    deck.shuffle();
    assert_eq!(deck.len(), 52);
    let mut seen: Vec<Card> = Vec::new();
    for left in (0..52).rev() {
        let card = deck.draw().expect("a card is left");
        assert!(!seen.contains(&card));
        seen.push(card);
        assert_eq!(deck.len(), left);
    }
    assert_eq!(deck.draw(), None);
    assert_eq!(deck.len(), 0);
    assert!(deck.is_empty());
    let mut all = standard_card_list();
    all.sort();
    seen.sort();
    assert_eq!(seen, all);
}

#[test]
fn unshuffled_standard_deck_draws_from_the_end() {
    let mut deck = deck_52();
    assert_eq!(deck.draw(), Some(Card::new(Suit::Spade, Rank::King)));
    assert_eq!(deck.draw(), Some(Card::new(Suit::Spade, Rank::Queen)));
    assert_eq!(deck.len(), 50);
}

#[test]
fn array_deck_lists_remaining_cards() {
    let a = Card::new(Suit::Club, Rank::Two);
    let b = Card::new(Suit::Heart, Rank::Three);
    let c = Card::new(Suit::Spade, Rank::Four);
    let mut deck = ArrayDeck::new([a, b, c]);
    assert_eq!(deck.draw(), Some(c));
    let mut it = deck.cards();
    assert_eq!(it.next(), Some(&a));
    assert_eq!(it.next(), Some(&b));
    assert_eq!(it.next(), None);
}

#[test]
fn shuffle_keeps_the_same_cards() {
    let mut deck = VecDeck::new(standard_card_list());
    deck.shuffle();
    assert_eq!(deck.len(), 52);
    let mut drawn = Vec::new();
    while let Some(c) = deck.draw() {
        drawn.push(c);
    }
    drawn.sort();
    let mut all = standard_card_list();
    all.sort();
    assert_eq!(drawn, all);

    let mut deck = deck_52();
    deck.draw();
    deck.shuffle();
    let mut rest: Vec<Card> = Vec::new();
    let mut it = deck.cards();
    while let Some(c) = it.next() {
        rest.push(*c);
    }
    rest.sort();
    let mut expected = standard_card_list();
    expected.pop();
    expected.sort();
    assert_eq!(rest, expected);
}

#[test]
fn stacked_deck_ignores_shuffle() {
    let a = Card::new(Suit::Club, Rank::Two);
    let b = Card::new(Suit::Heart, Rank::Three);
    let mut deck = StackedDeck::new(vec![a, b]);
    deck.shuffle();
    assert_eq!(deck.draw(), Some(b));
    assert_eq!(deck.draw(), Some(a));
    assert_eq!(deck.draw(), None);
    assert!(deck.is_empty());
}
