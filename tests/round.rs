use blackjack::{
    Blackjack, BlackjackScore, Card, DealerEvent, Decision, Event, Hand, PlayerEvent, Rank,
    RoundError, StackedDeck, Stage, Suit, WinEvent,
};

type Game = Blackjack<StackedDeck, BlackjackScore>;

fn c(rank: Rank) -> Card {
    Card::new(Suit::Club, rank)
}

fn h(rank: Rank) -> Card {
    Card::new(Suit::Heart, rank)
}

/// A game whose deck deals `top_first` in that order.
fn game(players: usize, top_first: &[Card]) -> Game {
    let mut cards = top_first.to_vec();
    cards.reverse();
    Blackjack::with_players(players, StackedDeck::new(cards))
}

fn hand(cards: &[Card]) -> Hand {
    let mut hd = Hand::default();
    for card in cards {
        hd.add(*card);
    }
    hd
}

fn player_initial(player: usize, cards: &[Card], score: (u8, Option<u8>)) -> Event {
    Event::player(player, PlayerEvent::InitialHand { hand: hand(cards), score })
}

fn dealer_initial(cards: &[Card], score: (u8, Option<u8>)) -> Event {
    Event::dealer(DealerEvent::InitialHand { hand: hand(cards), score })
}

fn has_dealer_turn(events: &[Event]) -> bool {
    events.iter().any(|e| {
        matches!(
            e,
            Event::Dealer(DealerEvent::TurnStart)
                | Event::Dealer(DealerEvent::Decision(_))
                | Event::Dealer(DealerEvent::Draw(_))
                | Event::Dealer(DealerEvent::HandChange { .. })
        )
    })
}

fn has_turn(events: &[Event]) -> bool {
    events.iter().any(|e| matches!(e, Event::Player { event: PlayerEvent::TurnStart, .. }))
}

#[test]
fn dealer_blackjack_beats_everyone() {
    let mut g = game(
        2,
        &[c(Rank::Nine), c(Rank::Seven), h(Rank::Eight), h(Rank::Five), c(Rank::Ace), h(Rank::King)],
    );
    let events = g.start().unwrap();
    assert_eq!(
        events,
        vec![
            player_initial(0, &[c(Rank::Nine), c(Rank::Seven)], (16, None)),
            player_initial(1, &[h(Rank::Eight), h(Rank::Five)], (13, None)),
            dealer_initial(&[c(Rank::Ace), h(Rank::King)], (11, Some(21))),
            Event::dealer(DealerEvent::Blackjack),
            Event::win(WinEvent::Dealer),
            Event::win(WinEvent::Lose(vec![0, 1])),
        ]
    );
    assert!(!has_turn(&events));
    assert_eq!(g.stage(), Stage::Over);
}

#[test]
fn player_blackjack_wins_at_once() {
    let mut g = game(
        2,
        &[c(Rank::Ace), c(Rank::Queen), h(Rank::Nine), h(Rank::Seven), c(Rank::Ten), h(Rank::Eight)],
    );
    let events = g.start().unwrap();
    assert_eq!(
        events,
        vec![
            player_initial(0, &[c(Rank::Ace), c(Rank::Queen)], (11, Some(21))),
            player_initial(1, &[h(Rank::Nine), h(Rank::Seven)], (16, None)),
            dealer_initial(&[c(Rank::Ten), h(Rank::Eight)], (18, None)),
            Event::player(0, PlayerEvent::Blackjack),
            Event::win(WinEvent::Players(vec![0])),
            Event::win(WinEvent::Lose(vec![1])),
        ]
    );
    assert!(!has_turn(&events));
    assert_eq!(g.stage(), Stage::Over);
}

#[test]
fn blackjacks_on_both_sides_push() {
    let mut g = game(
        2,
        &[c(Rank::Ace), c(Rank::Queen), h(Rank::Nine), h(Rank::Seven), h(Rank::Ace), h(Rank::Jack)],
    );
    let events = g.start().unwrap();
    assert_eq!(
        &events[3..],
        &[
            Event::player(0, PlayerEvent::Blackjack),
            Event::dealer(DealerEvent::Blackjack),
            Event::win(WinEvent::Push(vec![0])),
            Event::win(WinEvent::Lose(vec![1])),
        ]
    );
}

#[test]
fn dealer_stands_on_soft_seventeen() {
    let mut g = game(1, &[c(Rank::Ten), c(Rank::Eight), h(Rank::Ace), h(Rank::Six), c(Rank::Two)]);
    let events = g.start().unwrap();
    assert_eq!(events.last(), Some(&Event::player(0, PlayerEvent::TurnStart)));
    assert_eq!(g.stage(), Stage::Turn { player: 0, first: true });
    let events = g.decide(Decision::Stand).unwrap();
    assert_eq!(
        events,
        vec![
            Event::player(0, PlayerEvent::ChooseDecision(Decision::Stand)),
            Event::player(0, PlayerEvent::ExecuteDecision(Decision::Stand)),
            Event::player(0, PlayerEvent::TurnEnd),
            Event::dealer(DealerEvent::TurnStart),
        ]
    );
    assert_eq!(g.stage(), Stage::Dealer);
    let events = g.dealer_step().unwrap();
    assert_eq!(
        events,
        vec![
            Event::dealer(DealerEvent::Decision(Decision::Stand)),
            Event::dealer(DealerEvent::TurnEnd),
            Event::win(WinEvent::Players(vec![0])),
        ]
    );
    assert_eq!(g.dealer().cards().len(), 2);
    assert_eq!(g.stage(), Stage::Over);
}

#[test]
fn late_surrender_is_invalid_and_turn_goes_on() {
    let mut g = game(
        1,
        &[c(Rank::Five), c(Rank::Six), h(Rank::Ten), h(Rank::Seven), c(Rank::Two)],
    );
    g.start().unwrap();
    let events = g.decide(Decision::Hit).unwrap();
    assert_eq!(
        events,
        vec![
            Event::player(0, PlayerEvent::ChooseDecision(Decision::Hit)),
            Event::player(0, PlayerEvent::ExecuteDecision(Decision::Hit)),
            Event::player(0, PlayerEvent::Draw(c(Rank::Two))),
            Event::player(
                0,
                PlayerEvent::HandChange {
                    hand: hand(&[c(Rank::Five), c(Rank::Six), c(Rank::Two)]),
                    score: (13, None),
                },
            ),
        ]
    );
    let events = g.decide(Decision::Surrender).unwrap();
    assert_eq!(events.len(), 2);
    assert_eq!(events[0], Event::player(0, PlayerEvent::ChooseDecision(Decision::Surrender)));
    match &events[1] {
        Event::Player {
            player,
            event: PlayerEvent::InvalidDecision { invalid_decision, reason },
        } => {
            assert_eq!(*player, 0);
            assert_eq!(*invalid_decision, Decision::Surrender);
            assert!(!reason.is_empty());
        }
        other => panic!("unexpected event {:?}", other),
    }
    assert_eq!(g.stage(), Stage::Turn { player: 0, first: false });
    let events = g.decide(Decision::Stand).unwrap();
    assert_eq!(events.last(), Some(&Event::dealer(DealerEvent::TurnStart)));
}

#[test]
fn first_surrender_puts_player_out() {
    let mut g = game(
        2,
        &[
            c(Rank::Ten),
            c(Rank::Six),
            h(Rank::Nine),
            h(Rank::Seven),
            c(Rank::Ten),
            h(Rank::Seven),
            h(Rank::King),
        ],
    );
    g.start().unwrap();
    let events = g.decide(Decision::Hit).unwrap();
    assert_eq!(
        &events[4..],
        &[
            Event::player(0, PlayerEvent::Bust { score: 26 }),
            Event::player(0, PlayerEvent::TurnEnd),
            Event::player(1, PlayerEvent::TurnStart),
        ]
    );
    let events = g.decide(Decision::Surrender).unwrap();
    assert_eq!(
        events,
        vec![
            Event::player(1, PlayerEvent::ChooseDecision(Decision::Surrender)),
            Event::player(1, PlayerEvent::ExecuteDecision(Decision::Surrender)),
            Event::player(1, PlayerEvent::Surrender),
            Event::player(1, PlayerEvent::TurnEnd),
            Event::win(WinEvent::Dealer),
        ]
    );
    assert!(!has_dealer_turn(&events));
    assert_eq!(g.stage(), Stage::Over);
}

#[test]
fn double_down_draws_one_card_and_ends_turn() {
    let mut g = game(
        1,
        &[c(Rank::Five), c(Rank::Six), h(Rank::Ten), h(Rank::Seven), c(Rank::Two)],
    );
    g.start().unwrap();
    let events = g.decide(Decision::DoubleDown).unwrap();
    assert_eq!(
        events,
        vec![
            Event::player(0, PlayerEvent::ChooseDecision(Decision::DoubleDown)),
            Event::player(0, PlayerEvent::ExecuteDecision(Decision::DoubleDown)),
            Event::player(0, PlayerEvent::Draw(c(Rank::Two))),
            Event::player(
                0,
                PlayerEvent::HandChange {
                    hand: hand(&[c(Rank::Five), c(Rank::Six), c(Rank::Two)]),
                    score: (13, None),
                },
            ),
            Event::player(0, PlayerEvent::TurnEnd),
            Event::dealer(DealerEvent::TurnStart),
        ]
    );
    let events = g.dealer_step().unwrap();
    assert_eq!(
        events,
        vec![
            Event::dealer(DealerEvent::Decision(Decision::Stand)),
            Event::dealer(DealerEvent::TurnEnd),
            Event::win(WinEvent::Dealer),
            Event::win(WinEvent::Lose(vec![0])),
        ]
    );
}

#[test]
fn dealer_bust_pays_players_still_in() {
    let mut g = game(
        2,
        &[
            c(Rank::Ten),
            c(Rank::Eight),
            h(Rank::Ten),
            h(Rank::Six),
            c(Rank::Nine),
            c(Rank::Six),
            h(Rank::King),
            c(Rank::Queen),
        ],
    );
    g.start().unwrap();
    g.decide(Decision::Stand).unwrap();
    g.decide(Decision::Hit).unwrap();
    assert_eq!(g.stage(), Stage::Dealer);
    let events = g.dealer_step().unwrap();
    assert_eq!(
        events,
        vec![
            Event::dealer(DealerEvent::Decision(Decision::Hit)),
            Event::dealer(DealerEvent::Draw(c(Rank::Queen))),
            Event::dealer(DealerEvent::HandChange {
                hand: hand(&[c(Rank::Nine), c(Rank::Six), c(Rank::Queen)]),
                score: (25, None),
            }),
        ]
    );
    assert_eq!(g.stage(), Stage::Dealer);
    let events = g.dealer_step().unwrap();
    assert_eq!(
        events,
        vec![
            Event::dealer(DealerEvent::Bust { score: 25 }),
            Event::win(WinEvent::Players(vec![0])),
            Event::win(WinEvent::Lose(vec![1])),
        ]
    );
    assert_eq!(g.stage(), Stage::Over);
}

#[test]
fn settlement_splits_winners_pushes_losers() {
    let mut g = game(
        3,
        &[
            c(Rank::Ten),
            c(Rank::King),
            h(Rank::Ten),
            h(Rank::Eight),
            c(Rank::Ten),
            c(Rank::Seven),
            h(Rank::Queen),
            h(Rank::Eight),
        ],
    );
    g.start().unwrap();
    assert_eq!(g.score(0), Some((20, None)));
    assert_eq!(g.score(3), None);
    g.decide(Decision::Stand).unwrap();
    g.decide(Decision::Stand).unwrap();
    g.decide(Decision::Stand).unwrap();
    let events = g.dealer_step().unwrap();
    assert_eq!(
        events,
        vec![
            Event::dealer(DealerEvent::Decision(Decision::Stand)),
            Event::dealer(DealerEvent::TurnEnd),
            Event::win(WinEvent::Players(vec![0])),
            Event::win(WinEvent::Push(vec![1])),
            Event::win(WinEvent::Lose(vec![2])),
        ]
    );
}

#[test]
fn ties_only_push() {
    let mut g = game(1, &[c(Rank::Ten), c(Rank::Eight), h(Rank::Queen), h(Rank::Eight)]);
    g.start().unwrap();
    g.decide(Decision::Stand).unwrap();
    let events = g.dealer_step().unwrap();
    assert_eq!(&events[2..], &[Event::win(WinEvent::Push(vec![0]))]);
}

#[test]
fn split_is_refused() {
    let mut g = game(1, &[c(Rank::Eight), h(Rank::Eight), c(Rank::Ten), h(Rank::Seven)]);
    g.start().unwrap();
    assert_eq!(g.decide(Decision::Split), Err(RoundError::SplitUnsupported));
    assert_eq!(g.stage(), Stage::Turn { player: 0, first: true });
    assert!(g.decide(Decision::Surrender).is_ok());
}

#[test]
fn short_deck_cannot_deal() {
    let mut g = game(1, &[c(Rank::Eight), h(Rank::Eight), c(Rank::Ten)]);
    assert_eq!(g.start(), Err(RoundError::DeckExhausted));
    assert_eq!(g.stage(), Stage::Deal);
    assert_eq!(g.dealer().cards().len(), 0);
}

#[test]
fn hit_from_empty_deck_is_refused() {
    let mut g = game(1, &[c(Rank::Eight), h(Rank::Eight), c(Rank::Ten), h(Rank::Seven)]);
    g.start().unwrap();
    assert_eq!(g.decide(Decision::Hit), Err(RoundError::DeckExhausted));
    assert_eq!(g.stage(), Stage::Turn { player: 0, first: true });
    assert_eq!(g.player(0).unwrap().cards().len(), 2);
    assert!(g.decide(Decision::Stand).is_ok());
    assert_eq!(g.dealer_step().unwrap().len(), 4);
}

#[test]
fn dealer_hit_from_empty_deck_is_refused() {
    let mut g = game(1, &[c(Rank::Ten), c(Rank::Eight), h(Rank::Ten), h(Rank::Five)]);
    g.start().unwrap();
    g.decide(Decision::Stand).unwrap();
    assert_eq!(g.dealer_step(), Err(RoundError::DeckExhausted));
    assert_eq!(g.stage(), Stage::Dealer);
}

#[test]
fn hands_given_at_start_are_kept() {
    let mut dealer = Hand::default();
    dealer.add(c(Rank::Two));
    let g: Game = Blackjack::with_hands(dealer, vec![Hand::default(), Hand::default()], StackedDeck::new(vec![]));
    assert_eq!(g.players(), 2);
    assert_eq!(g.dealer().cards(), &[c(Rank::Two)]);
    assert!(g.player(1).is_some());
    assert!(g.player(2).is_none());
    assert_eq!(g.stage(), Stage::Deal);
}

#[test]
fn no_players_means_dealer_wins() {
    let mut g = game(0, &[c(Rank::Ten), c(Rank::Eight)]);
    let events = g.start().unwrap();
    assert_eq!(
        events,
        vec![
            dealer_initial(&[c(Rank::Ten), c(Rank::Eight)], (18, None)),
            Event::win(WinEvent::Dealer),
        ]
    );
}
