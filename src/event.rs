//! What a round reports, in the order it happens.

use vstd::prelude::*;
use crate::card::Card;
use crate::hand::Hand;

verus! {

/// What a player chooses to do on their turn.
#[derive(Debug, Clone, Copy, PartialEq, Eq, Structural, PartialOrd, Ord, Hash)]
pub enum Decision {
    Hit,
    Stand,
    DoubleDown,
    Split,
    Surrender,
}

/// Why a surrender after the first decision of a turn is turned down.
pub const LATE_SURRENDER: &'static str = "Can only surrender at the start of a game";

#[derive(Debug, PartialEq, Eq, PartialOrd, Ord, Hash)]
pub enum PlayerEvent {
    TurnStart,
    TurnEnd,
    ChooseDecision(Decision),
    ExecuteDecision(Decision),
    InvalidDecision { invalid_decision: Decision, reason: &'static str },
    Draw(Card),
    InitialHand { hand: Hand, score: (u8, Option<u8>) },
    HandChange { hand: Hand, score: (u8, Option<u8>) },
    Bust { score: u8 },
    Surrender,
    Blackjack,
}

#[derive(Debug, PartialEq, Eq, PartialOrd, Ord, Hash)]
pub enum DealerEvent {
    TurnStart,
    TurnEnd,
    Decision(Decision),
    Draw(Card),
    InitialHand { hand: Hand, score: (u8, Option<u8>) },
    HandChange { hand: Hand, score: (u8, Option<u8>) },
    Bust { score: u8 },
    Blackjack,
}

/// How the round ends for the players named.
#[derive(Debug, Clone, PartialEq, Eq, PartialOrd, Ord, Hash)]
pub enum WinEvent {
    Dealer,
    Players(Vec<usize>),
    Push(Vec<usize>),
    Lose(Vec<usize>),
}

#[derive(Debug, PartialEq, Eq, PartialOrd, Ord, Hash)]
pub enum Event {
    Player { player: usize, event: PlayerEvent },
    Dealer(DealerEvent),
    Win(WinEvent),
}

/// A player event with hands seen as their cards.
pub enum PlayerNote {
    TurnStart,
    TurnEnd,
    ChooseDecision(Decision),
    ExecuteDecision(Decision),
    InvalidDecision(Decision, &'static str),
    Draw(Card),
    InitialHand(Seq<Card>, (u8, Option<u8>)),
    HandChange(Seq<Card>, (u8, Option<u8>)),
    Bust(u8),
    Surrender,
    Blackjack,
}

/// A dealer event with hands seen as their cards.
pub enum DealerNote {
    TurnStart,
    TurnEnd,
    Decision(Decision),
    Draw(Card),
    InitialHand(Seq<Card>, (u8, Option<u8>)),
    HandChange(Seq<Card>, (u8, Option<u8>)),
    Bust(u8),
    Blackjack,
}

/// An outcome with its players as a sequence of indices.
pub enum WinNote {
    Dealer,
    Players(Seq<usize>),
    Push(Seq<usize>),
    Lose(Seq<usize>),
}

/// An event as the round's contracts speak of it.
pub enum Note {
    Player(usize, PlayerNote),
    Dealer(DealerNote),
    Win(WinNote),
}

impl View for PlayerEvent {
    type V = PlayerNote;

    open spec fn view(&self) -> PlayerNote {
        match self {
            PlayerEvent::TurnStart => PlayerNote::TurnStart,
            PlayerEvent::TurnEnd => PlayerNote::TurnEnd,
            PlayerEvent::ChooseDecision(d) => PlayerNote::ChooseDecision(*d),
            PlayerEvent::ExecuteDecision(d) => PlayerNote::ExecuteDecision(*d),
            PlayerEvent::InvalidDecision { invalid_decision, reason } => PlayerNote::InvalidDecision(
                *invalid_decision,
                *reason,
            ),
            PlayerEvent::Draw(c) => PlayerNote::Draw(*c),
            PlayerEvent::InitialHand { hand, score } => PlayerNote::InitialHand(hand@, *score),
            PlayerEvent::HandChange { hand, score } => PlayerNote::HandChange(hand@, *score),
            PlayerEvent::Bust { score } => PlayerNote::Bust(*score),
            PlayerEvent::Surrender => PlayerNote::Surrender,
            PlayerEvent::Blackjack => PlayerNote::Blackjack,
        }
    }
}

impl View for DealerEvent {
    type V = DealerNote;

    open spec fn view(&self) -> DealerNote {
        match self {
            DealerEvent::TurnStart => DealerNote::TurnStart,
            DealerEvent::TurnEnd => DealerNote::TurnEnd,
            DealerEvent::Decision(d) => DealerNote::Decision(*d),
            DealerEvent::Draw(c) => DealerNote::Draw(*c),
            DealerEvent::InitialHand { hand, score } => DealerNote::InitialHand(hand@, *score),
            DealerEvent::HandChange { hand, score } => DealerNote::HandChange(hand@, *score),
            DealerEvent::Bust { score } => DealerNote::Bust(*score),
            DealerEvent::Blackjack => DealerNote::Blackjack,
        }
    }
}

impl View for WinEvent {
    type V = WinNote;

    open spec fn view(&self) -> WinNote {
        match self {
            WinEvent::Dealer => WinNote::Dealer,
            WinEvent::Players(p) => WinNote::Players(p@),
            WinEvent::Push(p) => WinNote::Push(p@),
            WinEvent::Lose(p) => WinNote::Lose(p@),
        }
    }
}

impl View for Event {
    type V = Note;

    open spec fn view(&self) -> Note {
        match self {
            Event::Player { player, event } => Note::Player(*player, event@),
            Event::Dealer(e) => Note::Dealer(e@),
            Event::Win(e) => Note::Win(e@),
        }
    }
}

/// The events of a sequence, each as its note.
pub open spec fn notes(events: Seq<Event>) -> Seq<Note> {
    events.map_values(|e: Event| e@)
}

pub proof fn lemma_notes_push(events: Seq<Event>, e: Event)
    ensures
        notes(events.push(e)) == notes(events).push(e@),
{
    assert(notes(events.push(e)) =~= notes(events).push(e@));
}

impl Event {
    pub fn player(player: usize, event: PlayerEvent) -> (r: Self)
        ensures
            r@ == Note::Player(player, event@),
    {
        Event::Player { player, event }
    }

    pub fn dealer(event: DealerEvent) -> (r: Self)
        ensures
            r@ == Note::Dealer(event@),
    {
        Event::Dealer(event)
    }

    pub fn win(event: WinEvent) -> (r: Self)
        ensures
            r@ == Note::Win(event@),
    {
        Event::Win(event)
    }
}

} // verus!
