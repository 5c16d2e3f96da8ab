//! One round of blackjack as a state machine: deal, resolve blackjacks, take
//! each player's decisions in turn, play the dealer, and settle.

use vstd::prelude::*;
use crate::card::Card;
use crate::deck::Deck;
use crate::event::{
    Decision, DealerEvent, DealerNote, Event, LATE_SURRENDER, Note, PlayerEvent, PlayerNote,
    WinEvent, WinNote, notes, lemma_notes_push,
};
use crate::hand::{BlackjackScore, Hand, blackjack, bust, effective, hand_score, hard_total};

verus! {

/// Why a step of the round could not be taken.
#[derive(Debug, Clone, Copy, PartialEq, Eq, Structural)]
pub enum RoundError {
    /// The deck has no card left to draw.
    DeckExhausted,
    /// Splitting a hand is not supported by this engine.
    SplitUnsupported,
}

/// Where the round stands.
#[derive(Debug, Clone, Copy, PartialEq, Eq, Structural, PartialOrd, Ord, Hash)]
pub enum Stage {
    /// No card has been dealt yet.
    Deal,
    /// The round waits for a decision of `player`; `first` tells whether it is
    /// the first decision of the turn.
    Turn { player: usize, first: bool },
    /// The dealer plays.
    Dealer,
    /// The round is over.
    Over,
}

/// The indices below `n` that satisfy `pred`, in increasing order.
pub open spec fn indices_where(n: int, pred: spec_fn(int) -> bool) -> Seq<usize>
    decreases n,
{
    if n <= 0 {
        Seq::empty()
    } else if pred(n - 1) {
        indices_where(n - 1, pred).push((n - 1) as usize)
    } else {
        indices_where(n - 1, pred)
    }
}

pub open spec fn everyone() -> spec_fn(int) -> bool {
    |i: int| true
}

pub open spec fn has_blackjack(hands: Seq<Seq<Card>>) -> spec_fn(int) -> bool {
    |i: int| blackjack(hands[i])
}

pub open spec fn lacks_blackjack(hands: Seq<Seq<Card>>) -> spec_fn(int) -> bool {
    |i: int| !blackjack(hands[i])
}

pub open spec fn still_in(out: Seq<usize>) -> spec_fn(int) -> bool {
    |i: int| !out.contains(i as usize)
}

pub open spec fn beats(hands: Seq<Seq<Card>>, dealer: u8, out: Seq<usize>) -> spec_fn(int) -> bool {
    |i: int| !out.contains(i as usize) && effective(hand_score(hands[i])) > dealer
}

pub open spec fn ties(hands: Seq<Seq<Card>>, dealer: u8, out: Seq<usize>) -> spec_fn(int) -> bool {
    |i: int| !out.contains(i as usize) && effective(hand_score(hands[i])) == dealer
}

pub open spec fn trails(hands: Seq<Seq<Card>>, dealer: u8, out: Seq<usize>) -> spec_fn(int) -> bool {
    |i: int| !out.contains(i as usize) && effective(hand_score(hands[i])) < dealer
}

/// The hands after the initial deal: player `i` gets the `2i`-th and `2i+1`-th cards from the top.
pub open spec fn dealt(hands: Seq<Seq<Card>>, deck: Seq<Card>) -> Seq<Seq<Card>> {
    Seq::new(
        hands.len(),
        |i: int| hands[i].push(deck[deck.len() - 1 - 2 * i]).push(deck[deck.len() - 2 - 2 * i]),
    )
}

/// The dealer's hand after the initial deal: the two cards after the players' ones.
pub open spec fn dealt_dealer(dealer: Seq<Card>, players: int, deck: Seq<Card>) -> Seq<Card> {
    dealer.push(deck[deck.len() - 1 - 2 * players]).push(deck[deck.len() - 2 - 2 * players])
}

/// The initial-hand events: each player in order, then the dealer.
pub open spec fn initial_notes(hands: Seq<Seq<Card>>, dealer: Seq<Card>) -> Seq<Note> {
    Seq::new(
        hands.len(),
        |i: int| Note::Player(i as usize, PlayerNote::InitialHand(hands[i], hand_score(hands[i]))),
    ).push(Note::Dealer(DealerNote::InitialHand(dealer, hand_score(dealer))))
}

pub open spec fn player_blackjack() -> spec_fn(usize) -> Note {
    |i: usize| Note::Player(i, PlayerNote::Blackjack)
}

/// A blackjack event for each player in `players`, then one for the dealer if `dealer` holds.
pub open spec fn blackjack_notes(players: Seq<usize>, dealer: bool) -> Seq<Note> {
    players.map_values(player_blackjack()) + if dealer {
        seq![Note::Dealer(DealerNote::Blackjack)]
    } else {
        Seq::empty()
    }
}

/// Where a round stands after a step, with what the step reported.
pub struct Outcome {
    pub notes: Seq<Note>,
    pub hands: Seq<Seq<Card>>,
    pub dealer: Seq<Card>,
    pub deck: Seq<Card>,
    pub out: Seq<usize>,
    pub stage: Stage,
}

/// Starting the turns at player `p`: a player whose hand is already bust has a
/// turn with no decision and is out; the first other player is asked to
/// decide; after the last player, the dealer plays unless every player is out.
pub open spec fn advance(hands: Seq<Seq<Card>>, out: Seq<usize>, p: int) -> (Seq<Note>, Stage, Seq<usize>)
    decreases hands.len() - p,
{
    if p >= hands.len() {
        if out.len() == hands.len() {
            (seq![Note::Win(WinNote::Dealer)], Stage::Over, out)
        } else {
            (seq![Note::Dealer(DealerNote::TurnStart)], Stage::Dealer, out)
        }
    } else if bust(hands[p]) {
        let rest = advance(hands, out.push(p as usize), p + 1);
        (
            seq![
                Note::Player(p as usize, PlayerNote::TurnStart),
                Note::Player(p as usize, PlayerNote::Bust(hand_score(hands[p]).0)),
                Note::Player(p as usize, PlayerNote::TurnEnd),
            ] + rest.0,
            rest.1,
            rest.2,
        )
    } else {
        (
            seq![Note::Player(p as usize, PlayerNote::TurnStart)],
            Stage::Turn { player: p as usize, first: true },
            out,
        )
    }
}

/// The round from the deal up to the first decision, or to its end when
/// blackjacks settle it. `deck` must hold the cards of the deal.
pub open spec fn opening(hands: Seq<Seq<Card>>, dealer: Seq<Card>, deck: Seq<Card>) -> Outcome {
    let n = hands.len() as int;
    let hs = dealt(hands, deck);
    let dl = dealt_dealer(dealer, n, deck);
    let rest = deck.take(deck.len() - 2 * n - 2);
    let bj = indices_where(n, has_blackjack(hs));
    let dealer_bj = blackjack(dl);
    let head = initial_notes(hs, dl) + blackjack_notes(bj, dealer_bj);
    if bj.len() == 0 && dealer_bj {
        Outcome {
            notes: head + seq![
                Note::Win(WinNote::Dealer),
                Note::Win(WinNote::Lose(indices_where(n, everyone()))),
            ],
            hands: hs,
            dealer: dl,
            deck: rest,
            out: Seq::empty(),
            stage: Stage::Over,
        }
    } else if bj.len() > 0 {
        let settled = if dealer_bj {
            WinNote::Push(bj)
        } else {
            WinNote::Players(bj)
        };
        Outcome {
            notes: head + seq![
                Note::Win(settled),
                Note::Win(WinNote::Lose(indices_where(n, lacks_blackjack(hs)))),
            ],
            hands: hs,
            dealer: dl,
            deck: rest,
            out: Seq::empty(),
            stage: Stage::Over,
        }
    } else {
        let a = advance(hs, Seq::empty(), 0);
        Outcome { notes: head + a.0, hands: hs, dealer: dl, deck: rest, out: a.2, stage: a.1 }
    }
}

/// What a decision of player `p` does; for a draw, `deck` must not be empty.
pub open spec fn play(
    hands: Seq<Seq<Card>>,
    dealer: Seq<Card>,
    deck: Seq<Card>,
    out: Seq<usize>,
    p: usize,
    first: bool,
    d: Decision,
) -> Outcome {
    let pl = |e: PlayerNote| Note::Player(p, e);
    match d {
        Decision::Hit => {
            let c = deck.last();
            let h = hands[p as int].push(c);
            let hs = hands.update(p as int, h);
            let head = seq![
                pl(PlayerNote::ChooseDecision(d)),
                pl(PlayerNote::ExecuteDecision(d)),
                pl(PlayerNote::Draw(c)),
                pl(PlayerNote::HandChange(h, hand_score(h))),
            ];
            if bust(h) {
                let a = advance(hs, out.push(p), p + 1);
                Outcome {
                    notes: head + seq![
                        pl(PlayerNote::Bust(hand_score(h).0)),
                        pl(PlayerNote::TurnEnd),
                    ] + a.0,
                    hands: hs,
                    dealer,
                    deck: deck.drop_last(),
                    out: a.2,
                    stage: a.1,
                }
            } else {
                Outcome {
                    notes: head,
                    hands: hs,
                    dealer,
                    deck: deck.drop_last(),
                    out,
                    stage: Stage::Turn { player: p, first: false },
                }
            }
        },
        Decision::DoubleDown => {
            let c = deck.last();
            let h = hands[p as int].push(c);
            let hs = hands.update(p as int, h);
            let head = seq![
                pl(PlayerNote::ChooseDecision(d)),
                pl(PlayerNote::ExecuteDecision(d)),
                pl(PlayerNote::Draw(c)),
                pl(PlayerNote::HandChange(h, hand_score(h))),
            ];
            let tail = if bust(h) {
                seq![pl(PlayerNote::Bust(hand_score(h).0)), pl(PlayerNote::TurnEnd)]
            } else {
                seq![pl(PlayerNote::TurnEnd)]
            };
            let a = advance(
                hs,
                if bust(h) {
                    out.push(p)
                } else {
                    out
                },
                p + 1,
            );
            Outcome { notes: head + tail + a.0, hands: hs, dealer, deck: deck.drop_last(), out: a.2, stage: a.1 }
        },
        Decision::Stand => {
            let a = advance(hands, out, p + 1);
            Outcome {
                notes: seq![
                    pl(PlayerNote::ChooseDecision(d)),
                    pl(PlayerNote::ExecuteDecision(d)),
                    pl(PlayerNote::TurnEnd),
                ] + a.0,
                hands,
                dealer,
                deck,
                out: a.2,
                stage: a.1,
            }
        },
        Decision::Surrender => {
            if first {
                let a = advance(hands, out.push(p), p + 1);
                Outcome {
                    notes: seq![
                        pl(PlayerNote::ChooseDecision(d)),
                        pl(PlayerNote::ExecuteDecision(d)),
                        pl(PlayerNote::Surrender),
                        pl(PlayerNote::TurnEnd),
                    ] + a.0,
                    hands,
                    dealer,
                    deck,
                    out: a.2,
                    stage: a.1,
                }
            } else {
                Outcome {
                    notes: seq![
                        pl(PlayerNote::ChooseDecision(d)),
                        pl(PlayerNote::InvalidDecision(d, LATE_SURRENDER)),
                    ],
                    hands,
                    dealer,
                    deck,
                    out,
                    stage: Stage::Turn { player: p, first: false },
                }
            }
        },
        Decision::Split => Outcome { notes: Seq::empty(), hands, dealer, deck, out, stage: Stage::Turn { player: p, first } },
    }
}

/// The dealer keeps hitting while the effective total is below 17.
pub open spec fn dealer_hits(dealer: Seq<Card>) -> bool {
    effective(hand_score(dealer)) < 17
}

/// An Ace and a Six make a soft 17, on which the dealer stands: the rule is a
/// hit below 17 only, not a hit on soft 17.
pub proof fn lemma_dealer_stands_on_soft_seventeen(ace: Card, six: Card)
    requires
        ace.1 == crate::card::Rank::Ace,
        six.1 == crate::card::Rank::Six,
    ensures
        hand_score(seq![ace, six]) == (7u8, Some(17u8)),
        !dealer_hits(seq![ace, six]),
{
    let h = seq![ace, six];
    assert(h.drop_last() =~= seq![ace]);
    assert(seq![ace].drop_last() =~= Seq::<Card>::empty());
    assert(hard_total(Seq::<Card>::empty()) == 0);
    assert(hard_total(seq![ace]) == 1);
    assert(hard_total(h) == 7);
    assert(h[0].1 == crate::card::Rank::Ace);
}

/// The outcome events once the dealer stands: winners, then pushes (or the
/// dealer's win when there are neither), then losers, out players last.
pub open spec fn settlement(hands: Seq<Seq<Card>>, dealer: Seq<Card>, out: Seq<usize>) -> Seq<Note> {
    let n = hands.len() as int;
    let d = effective(hand_score(dealer));
    let w = indices_where(n, beats(hands, d, out));
    let t = indices_where(n, ties(hands, d, out));
    let l = indices_where(n, trails(hands, d, out)) + out;
    let head = if w.len() > 0 {
        seq![Note::Win(WinNote::Players(w))] + if t.len() > 0 {
            seq![Note::Win(WinNote::Push(t))]
        } else {
            Seq::empty()
        }
    } else if t.len() > 0 {
        seq![Note::Win(WinNote::Push(t))]
    } else {
        seq![Note::Win(WinNote::Dealer)]
    };
    head + if l.len() > 0 {
        seq![Note::Win(WinNote::Lose(l))]
    } else {
        Seq::empty()
    }
}

/// Whether a decision draws a card.
pub open spec fn draws(d: Decision) -> bool {
    d == Decision::Hit || d == Decision::DoubleDown
}

/// The player whose turn it is, at a turn.
pub open spec fn turn_player(s: Stage) -> usize {
    match s {
        Stage::Turn { player, first } => player,
        _ => 0,
    }
}

/// Whether the next decision is the first of the turn, at a turn.
pub open spec fn turn_first(s: Stage) -> bool {
    match s {
        Stage::Turn { player, first } => first,
        _ => false,
    }
}

/// One step of the dealer's turn: a hit while the effective total is below 17
/// (the deck must not be empty then); otherwise a bust, which all players still
/// in win, or a stand followed by the settlement.
pub open spec fn dealer_move(
    hands: Seq<Seq<Card>>,
    dealer: Seq<Card>,
    deck: Seq<Card>,
    out: Seq<usize>,
) -> Outcome {
    if dealer_hits(dealer) {
        let c = deck.last();
        let dl = dealer.push(c);
        Outcome {
            notes: seq![
                Note::Dealer(DealerNote::Decision(Decision::Hit)),
                Note::Dealer(DealerNote::Draw(c)),
                Note::Dealer(DealerNote::HandChange(dl, hand_score(dl))),
            ],
            hands,
            dealer: dl,
            deck: deck.drop_last(),
            out,
            stage: Stage::Dealer,
        }
    } else if bust(dealer) {
        Outcome {
            notes: seq![
                Note::Dealer(DealerNote::Bust(hand_score(dealer).0)),
                Note::Win(WinNote::Players(indices_where(hands.len() as int, still_in(out)))),
                Note::Win(WinNote::Lose(out)),
            ],
            hands,
            dealer,
            deck,
            out,
            stage: Stage::Over,
        }
    } else {
        Outcome {
            notes: seq![
                Note::Dealer(DealerNote::Decision(Decision::Stand)),
                Note::Dealer(DealerNote::TurnEnd),
            ] + settlement(hands, dealer, out),
            hands,
            dealer,
            deck,
            out,
            stage: Stage::Over,
        }
    }
}

/// What a step reported, as notes; nothing for an error.
pub open spec fn emitted(r: Result<Vec<Event>, RoundError>) -> Seq<Note> {
    match r {
        Ok(events) => notes(events@),
        Err(_) => Seq::empty(),
    }
}

fn emit(events: &mut Vec<Event>, e: Event)
    ensures
        notes(final(events)@) == notes(old(events)@).push(e@),
{
    let ghost e0 = events@;
    events.push(e);
    proof {
        lemma_notes_push(e0, e);
    }
}

fn holds(v: &Vec<usize>, x: usize) -> (r: bool)
    ensures
        r == v@.contains(x),
{
    let mut i: usize = 0;
    while i < v.len()
        invariant
            i <= v@.len(),
            forall|j: int| 0 <= j < i ==> v@[j] != x,
        decreases v@.len() - i,
    {
        if v[i] == x {
            return true;
        }
        i = i + 1;
    }
    false
}

/// A turn that `advance` hands to a player belongs to one whose hand is not bust.
pub proof fn lemma_advance_stage(hands: Seq<Seq<Card>>, out: Seq<usize>, p: int)
    requires
        0 <= p,
        hands.len() <= usize::MAX,
    ensures
        match advance(hands, out, p).1 {
            Stage::Turn { player, first } => p <= player < hands.len() && !bust(hands[player as int]) && first,
            Stage::Deal => false,
            _ => true,
        },
    decreases hands.len() - p,
{
    if p < hands.len() && bust(hands[p]) {
        lemma_advance_stage(hands, out.push(p as usize), p + 1);
    }
}

/// Adding a card raises the hard total by the card's value.
pub proof fn lemma_hard_total_push(cards: Seq<Card>, c: Card)
    ensures
        hard_total(cards.push(c)) == hard_total(cards) + c.1.points(),
        c.1.points() <= 10,
{
    assert(cards.push(c).drop_last() =~= cards);
}

/// The state of one round: the dealer's hand, one hand per player, the deck,
/// the players who are out of the game, and the stage reached.
#[derive(Debug, Clone, PartialEq, Eq, Hash)]
pub struct Blackjack<D, S> {
    dealer: Hand,
    hands: Vec<Hand>,
    deck: D,
    score: S,
    out_of_the_game: Vec<usize>,
    stage: Stage,
}

impl<D: Deck> Blackjack<D, BlackjackScore> {
    pub closed spec fn hands_view(&self) -> Seq<Seq<Card>> {
        self.hands@.map_values(|h: Hand| h@)
    }

    pub closed spec fn dealer_view(&self) -> Seq<Card> {
        self.dealer@
    }

    pub closed spec fn deck_view(&self) -> Seq<Card> {
        self.deck.remaining()
    }

    pub closed spec fn out_view(&self) -> Seq<usize> {
        self.out_of_the_game@
    }

    pub closed spec fn stage_view(&self) -> Stage {
        self.stage
    }

    /// The round stands where `o` says.
    pub open spec fn reached(&self, o: Outcome) -> bool {
        &&& self.hands_view() == o.hands
        &&& self.dealer_view() == o.dealer
        &&& self.deck_view() == o.deck
        &&& self.out_view() == o.out
        &&& self.stage_view() == o.stage
    }

    /// Every hard total is at most `bound`.
    pub closed spec fn totals_within(&self, bound: nat) -> bool {
        &&& forall|i: int| 0 <= i < self.hands@.len() ==> hard_total(#[trigger] self.hands@[i]@) <= bound
        &&& hard_total(self.dealer@) <= bound
    }

    /// Hands stay small enough to score in a byte, and the stage fits the hands.
    pub closed spec fn wf(&self) -> bool {
        &&& self.totals_within(230)
        &&& match self.stage {
            Stage::Deal => self.totals_within(200) && self.out_of_the_game@.len() == 0,
            Stage::Turn { player, first } => player < self.hands@.len() && !bust(
                self.hands@[player as int]@,
            ),
            _ => true,
        }
    }

    /// A round for `players` players with empty hands; the deck is shuffled.
    pub fn with_players(players: usize, deck: D) -> (r: Self)
        ensures
            r.wf(),
            r.hands_view() == Seq::new(players as nat, |i: int| Seq::<Card>::empty()),
            r.dealer_view() == Seq::<Card>::empty(),
            r.deck_view().to_multiset() == deck.remaining().to_multiset(),
            r.deck_view().len() == deck.remaining().len(),
            r.out_view() == Seq::<usize>::empty(),
            r.stage_view() == Stage::Deal,
    {
        let mut hands: Vec<Hand> = Vec::new();
        let mut i: usize = 0;
        while i < players
            invariant
                i <= players,
                hands@.len() == i,
                forall|j: int| 0 <= j < i ==> (#[trigger] hands@[j])@ == Seq::<Card>::empty(),
            decreases players - i,
        {
            hands.push(Hand::default());
            i = i + 1;
        }
        let r = Self::with_hands(Hand::default(), hands, deck);
        assert(r.hands_view() =~= Seq::new(players as nat, |i: int| Seq::<Card>::empty()));
        r
    }

    /// A round that starts from the given hands; the deck is shuffled. Each
    /// given hand totals at most 200, so that with the cards a round can add
    /// every score still fits in a byte.
    pub fn with_hands(dealer: Hand, hands: Vec<Hand>, deck: D) -> (r: Self)
        requires
            hard_total(dealer@) <= 200,
            forall|i: int| 0 <= i < hands@.len() ==> hard_total(#[trigger] hands@[i]@) <= 200,
        ensures
            r.wf(),
            r.hands_view() == hands@.map_values(|h: Hand| h@),
            r.dealer_view() == dealer@,
            r.deck_view().to_multiset() == deck.remaining().to_multiset(),
            r.deck_view().len() == deck.remaining().len(),
            r.out_view() == Seq::<usize>::empty(),
            r.stage_view() == Stage::Deal,
    {
        let mut deck = deck;
        deck.shuffle();
        Blackjack {
            dealer,
            hands,
            deck,
            score: BlackjackScore,
            out_of_the_game: Vec::new(),
            stage: Stage::Deal,
        }
    }

    pub fn dealer(&self) -> (r: &Hand)
        ensures
            r@ == self.dealer_view(),
    {
        &self.dealer
    }

    pub fn player(&self, player: usize) -> (r: Option<&Hand>)
        ensures
            r.is_some() == (player < self.hands_view().len()),
            r.is_some() ==> r.unwrap()@ == self.hands_view()[player as int],
    {
        if player < self.hands.len() {
            Some(&self.hands[player])
        } else {
            None
        }
    }

    pub fn score(&self, player: usize) -> (r: Option<(u8, Option<u8>)>)
        requires
            self.wf(),
        ensures
            player < self.hands_view().len() ==> r == Some(hand_score(self.hands_view()[player as int])),
            player >= self.hands_view().len() ==> r.is_none(),
    {
        if player < self.hands.len() {
            Some(self.hands[player].score(&self.score))
        } else {
            None
        }
    }

    pub fn players(&self) -> (r: usize)
        ensures
            r == self.hands_view().len(),
    {
        self.hands.len()
    }

    /// Where the round stands: which call it waits for.
    pub fn stage(&self) -> (r: Stage)
        ensures
            r == self.stage_view(),
    {
        self.stage
    }

    fn draw_card(&mut self) -> (c: Card)
        requires
            old(self).deck_view().len() > 0,
        ensures
            c == old(self).deck_view().last(),
            final(self).deck_view() == old(self).deck_view().drop_last(),
            final(self).hands == old(self).hands,
            final(self).dealer == old(self).dealer,
            final(self).out_of_the_game == old(self).out_of_the_game,
            final(self).stage == old(self).stage,
    {
        self.deck.draw().unwrap()
    }

    /// Runs the turns from player `from` on until one asks for a decision or
    /// the players are done.
    fn advance_from(&mut self, from: usize, events: &mut Vec<Event>)
        requires
            old(self).totals_within(230),
            from <= old(self).hands@.len(),
        ensures
            notes(final(events)@) == notes(old(events)@) + advance(
                old(self).hands_view(),
                old(self).out_view(),
                from as int,
            ).0,
            final(self).stage == advance(old(self).hands_view(), old(self).out_view(), from as int).1,
            final(self).out_of_the_game@ == advance(
                old(self).hands_view(),
                old(self).out_view(),
                from as int,
            ).2,
            final(self).hands == old(self).hands,
            final(self).dealer == old(self).dealer,
            final(self).deck == old(self).deck,
    {
        let n = self.hands.len();
        let ghost hs = self.hands_view();
        let ghost target = advance(hs, self.out_view(), from as int);
        let ghost base = notes(events@);
        let mut p = from;
        while p < n && self.hands[p].is_bust(&self.score)
            invariant
                from <= p <= n,
                n == self.hands@.len(),
                hs == self.hands_view(),
                self.totals_within(230),
                notes(events@) + advance(hs, self.out_view(), p as int).0 == base + target.0,
                advance(hs, self.out_view(), p as int).1 == target.1,
                advance(hs, self.out_view(), p as int).2 == target.2,
                self.hands == old(self).hands,
                self.dealer == old(self).dealer,
                self.deck == old(self).deck,
            decreases n - p,
        {
            let score = self.hands[p].score(&self.score);
            let ghost before = notes(events@);
            let ghost out0 = self.out_view();
            assert(bust(hs[p as int]));
            events.push(Event::player(p, PlayerEvent::TurnStart));
            events.push(Event::player(p, PlayerEvent::Bust { score: score.0 }));
            events.push(Event::player(p, PlayerEvent::TurnEnd));
            self.out_of_the_game.push(p);
            proof {
                let e = events@;
                lemma_notes_push(e.drop_last().drop_last().drop_last(), e[e.len() - 3]);
                lemma_notes_push(e.drop_last().drop_last(), e[e.len() - 2]);
                lemma_notes_push(e.drop_last(), e[e.len() - 1]);
                assert(e.drop_last().drop_last().drop_last().push(e[e.len() - 3]) =~= e.drop_last().drop_last());
                assert(e.drop_last().drop_last().push(e[e.len() - 2]) =~= e.drop_last());
                assert(e.drop_last().push(e[e.len() - 1]) =~= e);
                let rest = advance(hs, out0.push(p), p + 1);
                assert(notes(e) + rest.0 =~= before + advance(hs, out0, p as int).0);
            }
            p = p + 1;
        }
        let ghost before = notes(events@);
        if p < n {
            events.push(Event::player(p, PlayerEvent::TurnStart));
            self.stage = Stage::Turn { player: p, first: true };
        } else if self.out_of_the_game.len() == n {
            events.push(Event::win(WinEvent::Dealer));
            self.stage = Stage::Over;
        } else {
            events.push(Event::dealer(DealerEvent::TurnStart));
            self.stage = Stage::Dealer;
        }
        proof {
            lemma_notes_push(events@.drop_last(), events@.last());
            assert(events@.drop_last().push(events@.last()) =~= events@);
            assert(notes(events@) =~= before + advance(hs, self.out_view(), p as int).0);
        }
    }

    /// Deals two cards to each player in order and two to the dealer, reports
    /// the initial hands, then resolves blackjacks: a dealer blackjack against
    /// none wins for the dealer; any player blackjack settles the round at once
    /// (a push against a dealer blackjack). Otherwise the first turn begins.
    /// Without enough cards for the deal nothing happens.
    pub fn start(&mut self) -> (r: Result<Vec<Event>, RoundError>)
        requires
            old(self).wf(),
            old(self).stage_view() == Stage::Deal,
        ensures
            final(self).wf(),
            old(self).deck_view().len() < 2 * old(self).hands_view().len() + 2 ==> r == Err::<
                Vec<Event>,
                RoundError,
            >(RoundError::DeckExhausted) && *final(self) == *old(self),
            old(self).deck_view().len() >= 2 * old(self).hands_view().len() + 2 ==> r.is_ok()
                && emitted(r) == opening(
                old(self).hands_view(),
                old(self).dealer_view(),
                old(self).deck_view(),
            ).notes && final(self).reached(
                opening(old(self).hands_view(), old(self).dealer_view(), old(self).deck_view()),
            ),
    {
        let n = self.hands.len();
        let len = self.deck.len();
        if len < 2 || (len - 2) / 2 < n {
            return Err(RoundError::DeckExhausted);
        }
        let ghost hs0 = self.hands_view();
        let ghost dl0 = self.dealer_view();
        let ghost dk0 = self.deck_view();
        let ghost hs1 = dealt(hs0, dk0);
        let ghost dl1 = dealt_dealer(dl0, n as int, dk0);
        let ghost o = opening(hs0, dl0, dk0);
        let mut events: Vec<Event> = Vec::new();
        let mut p: usize = 0;
        while p < n
            invariant
                p <= n,
                n == self.hands@.len(),
                n == hs0.len(),
                hs1 == dealt(hs0, dk0),
                dl1 == dealt_dealer(dl0, n as int, dk0),
                dk0.len() == len,
                len >= 2 * n + 2,
                self.deck_view() == dk0.take(len - 2 * p),
                self.hands_view() == Seq::new(n as nat, |i: int| if i < p { hs1[i] } else { hs0[i] }),
                notes(events@) == initial_notes(hs1, dl1).take(p as int),
                forall|i: int| 0 <= i < n ==> hard_total(#[trigger] hs0[i]) <= 200,
                forall|i: int| 0 <= i < p ==> hard_total(#[trigger] hs1[i]) <= 220,
                hard_total(dl0) <= 200,
                self.dealer@ == dl0,
                self.out_of_the_game@.len() == 0,
                self.stage == Stage::Deal,
            decreases n - p,
        {
            proof {
                assert(self.hands_view()[p as int] == hs0[p as int]);
                assert(self.hands@[p as int]@ == hs0[p as int]);
            }
            let ghost before = notes(events@);
            let ghost hands_before = self.hands@;
            let c1 = self.draw_card();
            let c2 = self.draw_card();
            self.hands[p].add(c1);
            self.hands[p].add(c2);
            proof {
                assert forall|j: int| 0 <= j < n && j != p implies self.hands@[j] == hands_before[j] by {}
                assert forall|j: int| 0 <= j < n implies #[trigger] self.hands_view()[j] == (if j < p + 1 { hs1[j] } else { hs0[j] }) by {
                    if j != p {
                        assert(hands_before.map_values(|h: Hand| h@)[j] == hands_before[j]@);
                    }
                }
                lemma_hard_total_push(hs0[p as int], c1);
                lemma_hard_total_push(hs0[p as int].push(c1), c2);
                assert(c1 == dk0[len - 1 - 2 * p]);
                assert(c2 == dk0[len - 2 - 2 * p]);
                assert(hs1[p as int] == hs0[p as int].push(c1).push(c2));
                assert(self.hands@[p as int]@ == hs1[p as int]);
                assert(self.hands_view() =~= Seq::new(n as nat, |i: int| if i < p + 1 { hs1[i] } else { hs0[i] }));
                assert(self.deck_view() =~= dk0.take(len - 2 * (p + 1)));
            }
            let hand = self.hands[p].snapshot();
            let score = self.hands[p].score(&self.score);
            events.push(Event::player(p, PlayerEvent::InitialHand { hand, score }));
            proof {
                lemma_notes_push(events@.drop_last(), events@.last());
                assert(events@.drop_last().push(events@.last()) =~= events@);
                assert(notes(events@) == before.push(events@.last()@));
                assert(events@.last()@ == initial_notes(hs1, dl1)[p as int]);
                assert(notes(events@) =~= initial_notes(hs1, dl1).take(p + 1));
            }
            p = p + 1;
        }
        let ghost before = notes(events@);
        let c1 = self.draw_card();
        let c2 = self.draw_card();
        self.dealer.add(c1);
        self.dealer.add(c2);
        proof {
            assert(c1 == dk0[len - 1 - 2 * n]);
            assert(c2 == dk0[len - 2 - 2 * n]);
            assert(self.dealer@ == dl1);
            assert(before =~= initial_notes(hs1, dl1).drop_last());
            lemma_hard_total_push(dl0, c1);
            lemma_hard_total_push(dl0.push(c1), c2);
            assert(self.hands_view() =~= hs1);
        }
        let hand = self.dealer.snapshot();
        let score = self.dealer.score(&self.score);
        events.push(Event::dealer(DealerEvent::InitialHand { hand, score }));
        proof {
            lemma_notes_push(events@.drop_last(), events@.last());
            assert(events@.drop_last().push(events@.last()) =~= events@);
            assert(notes(events@) == before.push(events@.last()@));
            assert(events@.last()@ == initial_notes(hs1, dl1).last());
            assert(notes(events@) =~= initial_notes(hs1, dl1));
            assert(self.deck_view() =~= o.deck);
        }
        let ghost head = notes(events@);
        let mut blackjacks: Vec<usize> = Vec::new();
        let mut others: Vec<usize> = Vec::new();
        let mut everybody: Vec<usize> = Vec::new();
        let mut i: usize = 0;
        while i < n
            invariant
                i <= n,
                n == self.hands@.len(),
                hs1 == self.hands_view(),
                hs1 == dealt(hs0, dk0),
                dl1 == dealt_dealer(dl0, n as int, dk0),
                self.dealer@ == dl1,
                o == opening(hs0, dl0, dk0),
                head == initial_notes(hs1, dl1),
                self.out_of_the_game@.len() == 0,
                self.stage == Stage::Deal,
                forall|j: int| 0 <= j < n ==> hard_total(#[trigger] hs1[j]) <= 220,
                blackjacks@ == indices_where(i as int, has_blackjack(hs1)),
                others@ == indices_where(i as int, lacks_blackjack(hs1)),
                everybody@ == indices_where(i as int, everyone()),
                notes(events@) == head + blackjacks@.map_values(player_blackjack()),
            decreases n - i,
        {
            proof {
                assert(self.hands@[i as int]@ == hs1[i as int]);
            }
            let ghost bj0 = blackjacks@;
            let ghost ev0 = notes(events@);
            if self.is_blackjack(&self.hands[i]) {
                blackjacks.push(i);
                assert(blackjacks@.map_values(player_blackjack()) =~= bj0.map_values(player_blackjack()).push(Note::Player(i, PlayerNote::Blackjack)));
                events.push(Event::player(i, PlayerEvent::Blackjack));
                proof {
                    lemma_notes_push(events@.drop_last(), events@.last());
                    assert(events@.drop_last().push(events@.last()) =~= events@);
                    assert(notes(events@) == ev0.push(events@.last()@));
                    assert(notes(events@) =~= head + blackjacks@.map_values(player_blackjack()));
                }
            } else {
                others.push(i);
            }
            everybody.push(i);
            i = i + 1;
        }
        let dealer_blackjack = self.is_blackjack(&self.dealer);
        let ghost ev1 = notes(events@);
        if dealer_blackjack {
            events.push(Event::dealer(DealerEvent::Blackjack));
            proof {
                lemma_notes_push(events@.drop_last(), events@.last());
                assert(events@.drop_last().push(events@.last()) =~= events@);
                assert(notes(events@) == ev1.push(Note::Dealer(DealerNote::Blackjack)));
            }
        }
        proof {
            assert(notes(events@) =~= initial_notes(hs1, dl1) + blackjack_notes(blackjacks@, dealer_blackjack));
        }
        proof {
            assert forall|j: int| 0 <= j < self.hands@.len() implies hard_total(#[trigger] self.hands@[j]@) <= 230 by {
                assert(self.hands_view()[j] == hs1[j]);
            }
        }
        if blackjacks.len() == 0 && dealer_blackjack {
            events.push(Event::win(WinEvent::Dealer));
            events.push(Event::win(WinEvent::Lose(everybody)));
            self.stage = Stage::Over;
            proof {
                let e = events@;
                lemma_notes_push(e.drop_last().drop_last(), e[e.len() - 2]);
                lemma_notes_push(e.drop_last(), e[e.len() - 1]);
                assert(e.drop_last().drop_last().push(e[e.len() - 2]) =~= e.drop_last());
                assert(e.drop_last().push(e[e.len() - 1]) =~= e);
                assert(notes(e) =~= o.notes);
            }
        } else if blackjacks.len() > 0 {
            let settled = if dealer_blackjack {
                WinEvent::Push(blackjacks)
            } else {
                WinEvent::Players(blackjacks)
            };
            events.push(Event::win(settled));
            events.push(Event::win(WinEvent::Lose(others)));
            self.stage = Stage::Over;
            proof {
                let e = events@;
                lemma_notes_push(e.drop_last().drop_last(), e[e.len() - 2]);
                lemma_notes_push(e.drop_last(), e[e.len() - 1]);
                assert(e.drop_last().drop_last().push(e[e.len() - 2]) =~= e.drop_last());
                assert(e.drop_last().push(e[e.len() - 1]) =~= e);
                assert(notes(e) =~= o.notes);
            }
        } else {
            proof {
                assert(self.out_view() =~= Seq::<usize>::empty());
            }
            self.advance_from(0, &mut events);
            proof {
                lemma_advance_stage(hs1, Seq::empty(), 0);
                assert(notes(events@) =~= o.notes);
            }
        }
        proof {
            assert(self.dealer_view() == o.dealer);
            assert(self.deck_view() == o.deck);
            assert(self.out_view() =~= o.out);
            assert(self.reached(o));
        }
        Ok(events)
    }

    fn add_to_hand(&mut self, p: usize, c: Card)
        requires
            p < old(self).hands@.len(),
            old(self).totals_within(230),
            !bust(old(self).hands_view()[p as int]),
        ensures
            final(self).hands_view() == old(self).hands_view().update(
                p as int,
                old(self).hands_view()[p as int].push(c),
            ),
            final(self).hands@.len() == old(self).hands@.len(),
            final(self).totals_within(230),
            final(self).dealer == old(self).dealer,
            final(self).deck == old(self).deck,
            final(self).out_of_the_game == old(self).out_of_the_game,
            final(self).stage == old(self).stage,
    {
        let ghost before = self.hands@;
        proof {
            assert(self.hands_view()[p as int] == before[p as int]@);
            lemma_hard_total_push(before[p as int]@, c);
        }
        self.hands[p].add(c);
        proof {
            assert forall|j: int| 0 <= j < before.len() && j != p implies self.hands@[j] == before[j] by {}
            assert(self.hands_view() =~= old(self).hands_view().update(
                p as int,
                old(self).hands_view()[p as int].push(c),
            ));
            assert forall|j: int| 0 <= j < self.hands@.len() implies hard_total(#[trigger] self.hands@[j]@) <= 230 by {
                if j != p {
                    assert(self.hands@[j] == before[j]);
                }
            }
        }
    }

    /// Applies the decision of the player whose turn it is. A hit draws a card
    /// and the turn goes on unless the hand is bust; a double down draws one
    /// card and ends the turn; a stand ends it; a surrender ends it and puts the
    /// player out, but only as the turn's first decision, else it is reported as
    /// invalid and another decision is awaited. A split is refused, and so is a
    /// draw from an empty deck: then nothing changes.
    pub fn decide(&mut self, decision: Decision) -> (r: Result<Vec<Event>, RoundError>)
        requires
            old(self).wf(),
            old(self).stage_view() is Turn,
        ensures
            final(self).wf(),
            decision == Decision::Split ==> r == Err::<Vec<Event>, RoundError>(
                RoundError::SplitUnsupported,
            ) && *final(self) == *old(self),
            draws(decision) && old(self).deck_view().len() == 0 ==> r == Err::<
                Vec<Event>,
                RoundError,
            >(RoundError::DeckExhausted) && *final(self) == *old(self),
            decision != Decision::Split && (draws(decision) ==> old(self).deck_view().len() > 0)
                ==> r.is_ok() && emitted(r) == play(
                old(self).hands_view(),
                old(self).dealer_view(),
                old(self).deck_view(),
                old(self).out_view(),
                turn_player(old(self).stage_view()),
                turn_first(old(self).stage_view()),
                decision,
            ).notes && final(self).reached(
                play(
                    old(self).hands_view(),
                    old(self).dealer_view(),
                    old(self).deck_view(),
                    old(self).out_view(),
                    turn_player(old(self).stage_view()),
                    turn_first(old(self).stage_view()),
                    decision,
                ),
            ),
    {
        let (p, first) = match self.stage {
            Stage::Turn { player, first } => (player, first),
            _ => (0, false),
        };
        let n = self.hands.len();
        let ghost hs = self.hands_view();
        let ghost o = play(hs, self.dealer_view(), self.deck_view(), self.out_view(), p, first, decision);
        assert(p < n && !bust(hs[p as int]));
        if decision == Decision::Split {
            return Err(RoundError::SplitUnsupported);
        }
        if (decision == Decision::Hit || decision == Decision::DoubleDown) && self.deck.is_empty() {
            return Err(RoundError::DeckExhausted);
        }
        let ghost out0 = self.out_view();
        let ghost dk0 = self.deck_view();
        let mut events: Vec<Event> = Vec::new();
        emit(&mut events, Event::player(p, PlayerEvent::ChooseDecision(decision)));
        if decision == Decision::Hit || decision == Decision::DoubleDown {
            emit(&mut events, Event::player(p, PlayerEvent::ExecuteDecision(decision)));
            let c = self.draw_card();
            emit(&mut events, Event::player(p, PlayerEvent::Draw(c)));
            self.add_to_hand(p, c);
            let hand = self.hands[p].snapshot();
            let score = self.hands[p].score(&self.score);
            emit(&mut events, Event::player(p, PlayerEvent::HandChange { hand, score }));
            let ghost h = hs[p as int].push(c);
            let ghost hs1 = hs.update(p as int, h);
            proof {
                assert(c == dk0.last());
                assert(self.hands_view() == hs1);
                assert(self.hands_view()[p as int] == self.hands@[p as int]@);
                assert(self.hands@[p as int]@ == h);
                assert(score == hand_score(h));
            }
            let busted = score.0 > 21;
            if busted {
                emit(&mut events, Event::player(p, PlayerEvent::Bust { score: score.0 }));
                self.out_of_the_game.push(p);
            }
            if busted || decision == Decision::DoubleDown {
                emit(&mut events, Event::player(p, PlayerEvent::TurnEnd));
                let ghost before = notes(events@);
                let ghost out1 = self.out_view();
                self.advance_from(p + 1, &mut events);
                proof {
                    lemma_advance_stage(hs1, out1, p + 1);
                    assert(notes(events@) == before + advance(hs1, out1, p + 1).0);
                    if busted {
                        assert(out1 =~= out0.push(p));
                    } else {
                        assert(out1 =~= out0);
                    }
                    assert(notes(events@) =~= o.notes);
                }
            } else {
                self.stage = Stage::Turn { player: p, first: false };
                proof {
                    assert(notes(events@) =~= o.notes);
                }
            }
        } else if decision == Decision::Stand {
            emit(&mut events, Event::player(p, PlayerEvent::ExecuteDecision(decision)));
            emit(&mut events, Event::player(p, PlayerEvent::TurnEnd));
            self.advance_from(p + 1, &mut events);
            proof {
                lemma_advance_stage(hs, out0, p + 1);
                assert(notes(events@) =~= o.notes);
            }
        } else if first {
            emit(&mut events, Event::player(p, PlayerEvent::ExecuteDecision(decision)));
            emit(&mut events, Event::player(p, PlayerEvent::Surrender));
            self.out_of_the_game.push(p);
            emit(&mut events, Event::player(p, PlayerEvent::TurnEnd));
            let ghost out1 = self.out_view();
            self.advance_from(p + 1, &mut events);
            proof {
                assert(out1 =~= out0.push(p));
                lemma_advance_stage(hs, out1, p + 1);
                assert(notes(events@) =~= o.notes);
            }
        } else {
            emit(
                &mut events,
                Event::player(
                    p,
                    PlayerEvent::InvalidDecision { invalid_decision: decision, reason: LATE_SURRENDER },
                ),
            );
            self.stage = Stage::Turn { player: p, first: false };
            proof {
                assert(notes(events@) =~= o.notes);
            }
        }
        Ok(events)
    }

    /// The players still in whose effective total beats, ties and trails the
    /// dealer's `d`, in index order.
    fn compare(&self, d: u8) -> (r: (Vec<usize>, Vec<usize>, Vec<usize>))
        requires
            self.totals_within(230),
        ensures
            r.0@ == indices_where(self.hands@.len() as int, beats(self.hands_view(), d, self.out_view())),
            r.1@ == indices_where(self.hands@.len() as int, ties(self.hands_view(), d, self.out_view())),
            r.2@ == indices_where(self.hands@.len() as int, trails(self.hands_view(), d, self.out_view())),
    {
        let ghost hs = self.hands_view();
        let ghost out = self.out_view();
        let n = self.hands.len();
        let mut w: Vec<usize> = Vec::new();
        let mut t: Vec<usize> = Vec::new();
        let mut l: Vec<usize> = Vec::new();
        let mut i: usize = 0;
        while i < n
            invariant
                i <= n,
                n == self.hands@.len(),
                hs == self.hands_view(),
                out == self.out_view(),
                self.totals_within(230),
                w@ == indices_where(i as int, beats(hs, d, out)),
                t@ == indices_where(i as int, ties(hs, d, out)),
                l@ == indices_where(i as int, trails(hs, d, out)),
            decreases n - i,
        {
            if !holds(&self.out_of_the_game, i) {
                proof {
                    assert(hs[i as int] == self.hands@[i as int]@);
                }
                let score = self.hands[i].score(&self.score);
                let e = match score.1 {
                    Some(soft) => soft,
                    None => score.0,
                };
                if e > d {
                    w.push(i);
                } else if e == d {
                    t.push(i);
                } else {
                    l.push(i);
                }
            }
            i = i + 1;
        }
        (w, t, l)
    }

    /// One step of the dealer's automatic turn: a hit while the effective
    /// total is below 17, else the end of the round, by the dealer's bust or
    /// stand. A hit from an empty deck is refused and nothing changes.
    pub fn dealer_step(&mut self) -> (r: Result<Vec<Event>, RoundError>)
        requires
            old(self).wf(),
            old(self).stage_view() == Stage::Dealer,
        ensures
            final(self).wf(),
            dealer_hits(old(self).dealer_view()) && old(self).deck_view().len() == 0 ==> r == Err::<
                Vec<Event>,
                RoundError,
            >(RoundError::DeckExhausted) && *final(self) == *old(self),
            !(dealer_hits(old(self).dealer_view()) && old(self).deck_view().len() == 0) ==> r.is_ok()
                && emitted(r) == dealer_move(
                old(self).hands_view(),
                old(self).dealer_view(),
                old(self).deck_view(),
                old(self).out_view(),
            ).notes && final(self).reached(
                dealer_move(
                    old(self).hands_view(),
                    old(self).dealer_view(),
                    old(self).deck_view(),
                    old(self).out_view(),
                ),
            ),
    {
        let ghost o = dealer_move(self.hands_view(), self.dealer_view(), self.deck_view(), self.out_view());
        let ghost dl0 = self.dealer_view();
        let ghost dk0 = self.deck_view();
        let score = self.dealer.score(&self.score);
        let e = match score.1 {
            Some(soft) => soft,
            None => score.0,
        };
        let mut events: Vec<Event> = Vec::new();
        if e < 17 {
            if self.deck.is_empty() {
                return Err(RoundError::DeckExhausted);
            }
            emit(&mut events, Event::dealer(DealerEvent::Decision(Decision::Hit)));
            let c = self.draw_card();
            emit(&mut events, Event::dealer(DealerEvent::Draw(c)));
            proof {
                lemma_hard_total_push(dl0, c);
            }
            self.dealer.add(c);
            let hand = self.dealer.snapshot();
            let score = self.dealer.score(&self.score);
            emit(&mut events, Event::dealer(DealerEvent::HandChange { hand, score }));
            proof {
                assert(c == dk0.last());
                assert(notes(events@) =~= o.notes);
            }
        } else if score.0 > 21 {
            emit(&mut events, Event::dealer(DealerEvent::Bust { score: score.0 }));
            let n = self.hands.len();
            let mut still: Vec<usize> = Vec::new();
            let mut i: usize = 0;
            while i < n
                invariant
                    i <= n,
                    n == self.hands@.len(),
                    still@ == indices_where(i as int, still_in(self.out_view())),
                decreases n - i,
            {
                if !holds(&self.out_of_the_game, i) {
                    still.push(i);
                }
                i = i + 1;
            }
            emit(&mut events, Event::win(WinEvent::Players(still)));
            let out = self.out_of_the_game.clone();
            proof {
                assert(out@ =~= self.out_view());
            }
            emit(&mut events, Event::win(WinEvent::Lose(out)));
            self.stage = Stage::Over;
            proof {
                assert(notes(events@) =~= o.notes);
            }
        } else {
            emit(&mut events, Event::dealer(DealerEvent::Decision(Decision::Stand)));
            emit(&mut events, Event::dealer(DealerEvent::TurnEnd));
            let (w, t, l) = self.compare(e);
            let mut losers = l;
            let mut i: usize = 0;
            while i < self.out_of_the_game.len()
                invariant
                    i <= self.out_of_the_game@.len(),
                    losers@ == l@ + self.out_view().take(i as int),
                decreases self.out_of_the_game@.len() - i,
            {
                losers.push(self.out_of_the_game[i]);
                i = i + 1;
                proof {
                    assert(losers@ =~= l@ + self.out_view().take(i as int));
                }
            }
            proof {
                assert(self.out_view().take(i as int) =~= self.out_view());
            }
            if w.len() > 0 {
                emit(&mut events, Event::win(WinEvent::Players(w)));
                if t.len() > 0 {
                    emit(&mut events, Event::win(WinEvent::Push(t)));
                }
            } else if t.len() > 0 {
                emit(&mut events, Event::win(WinEvent::Push(t)));
            } else {
                emit(&mut events, Event::win(WinEvent::Dealer));
            }
            if losers.len() > 0 {
                emit(&mut events, Event::win(WinEvent::Lose(losers)));
            }
            self.stage = Stage::Over;
            proof {
                assert(notes(events@) =~= o.notes);
            }
        }
        Ok(events)
    }

    fn is_blackjack(&self, hand: &Hand) -> (r: bool)
        requires
            hard_total(hand@) <= 255,
        ensures
            r == blackjack(hand@),
    {
        let score = hand.score(&self.score);
        hand.cards().len() == 2 && match score.1 {
            Some(soft) => soft == 21,
            None => false,
        }
    }
}

} // verus!
