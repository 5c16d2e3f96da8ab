//! Rules engine for a single round of blackjack: cards, decks, hand scoring,
//! and a round state machine that reports every step as an event.

pub mod card;
pub mod deck;
pub mod event;
pub mod hand;
pub mod round;

pub use card::{Card, Rank, Suit, standard_card_list};
pub use deck::{ArrayDeck, Deck, Deck52, Iter, StackedDeck, VecDeck, deck_52};
pub use event::{Decision, DealerEvent, Event, LATE_SURRENDER, PlayerEvent, WinEvent};
pub use hand::{BlackjackScore, Hand, Score};
pub use round::{Blackjack, RoundError, Stage};
