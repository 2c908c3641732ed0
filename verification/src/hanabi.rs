//! The cards, the actions and the state of a game, with the functions that deal a game,
//! carry out actions, show a game as one player sees it, and give faces to unseen cards.

use vstd::prelude::*;
use std::collections::HashMap;
use crate::model::{
    clue_at, dealt_hands, known_faces, lemma_filled_inv, lemma_filled_within_deck,
    lemma_seen_by_inv, lemma_seen_by_within_deck, lemma_step_held, lemma_step_progress, Completed,
    FingerprintView, GameView, Outcome,
};
use crate::conservation::{lemma_start_holds_deck, lemma_step_keeps_cards};
use crate::deck::{is_full_deck, lemma_dealt_from_full_deck};
use crate::places::lemma_start_placed;
use crate::seq_facts::{lemma_take_all, lemma_take_contains};
use crate::card_counts::{occurrences, CardCounts};
use crate::counting::{
    lemma_enough_cards, lemma_fifty_cards, lemma_full_deck_total, lemma_no_priors_are_usable,
};
use crate::determinization::{
    check_priors, determinize, has_enough, has_prior, has_unusable_prior, lemma_numbers_finite,
    numbers, DeterminizeError,
};
use crate::priors::{agrees_with_all, deck_prior, lemma_restricted, restrict_prior};
use crate::random::{offers_card, usable, WeightedCard};
use rand::StdRng;
use crate::holders::{below, holders, lemma_holders_empty, lemma_holders_step};

verus! {

/// A seat at the table. Turns pass round the table in seat order.
#[derive(Debug, Clone, Copy, Hash, PartialEq, Eq, PartialOrd, Ord, Structural)]
pub enum Player {
    Alice,
    Bob,
    Cathy,
    Dave,
}

impl Player {
    /// The seat number, counted from Alice.
    pub open spec fn seat(self) -> int {
        match self {
            Player::Alice => 0,
            Player::Bob => 1,
            Player::Cathy => 2,
            Player::Dave => 3,
        }
    }

    /// The player whose turn follows this player's.
    pub open spec fn successor(self) -> Player {
        match self {
            Player::Alice => Player::Bob,
            Player::Bob => Player::Cathy,
            Player::Cathy => Player::Dave,
            Player::Dave => Player::Alice,
        }
    }

    /// The player in a given seat; seats past Dave's count as Dave's.
    pub open spec fn at_seat(seat: int) -> Player {
        if seat == 0 {
            Player::Alice
        } else if seat == 1 {
            Player::Bob
        } else if seat == 2 {
            Player::Cathy
        } else {
            Player::Dave
        }
    }

    #[verifier::when_used_as_spec(successor)]
    pub fn next(self) -> (p: Player)
        ensures
            p == self.successor(),
            p.seat() == (self.seat() + 1) % 4,
    {
        match self {
            Player::Alice => Player::Bob,
            Player::Bob => Player::Cathy,
            Player::Cathy => Player::Dave,
            Player::Dave => Player::Alice,
        }
    }

    /// The seat number as an index into per-seat tables.
    pub fn index(self) -> (i: usize)
        ensures
            i == self.seat(),
            i < 4,
    {
        match self {
            Player::Alice => 0,
            Player::Bob => 1,
            Player::Cathy => 2,
            Player::Dave => 3,
        }
    }

    /// The player in seat `seat`.
    pub fn from_index(seat: usize) -> (p: Player)
        requires
            seat < 4,
        ensures
            p == Player::at_seat(seat as int),
            p.seat() == seat,
    {
        if seat == 0 {
            Player::Alice
        } else if seat == 1 {
            Player::Bob
        } else if seat == 2 {
            Player::Cathy
        } else {
            Player::Dave
        }
    }
}

#[derive(Debug, Clone, Copy, Hash, PartialEq, Eq, PartialOrd, Ord, Structural)]
pub enum Suit {
    Red,
    Green,
    Blue,
    Yellow,
    Purple,
}

impl Suit {
    /// The position of the suit in the order Red, Green, Blue, Yellow, Purple.
    pub open spec fn ordinal(self) -> int {
        match self {
            Suit::Red => 0,
            Suit::Green => 1,
            Suit::Blue => 2,
            Suit::Yellow => 3,
            Suit::Purple => 4,
        }
    }

    /// The suit at a given position; positions past Purple's count as Purple's.
    pub open spec fn at(ordinal: int) -> Suit {
        if ordinal == 0 {
            Suit::Red
        } else if ordinal == 1 {
            Suit::Green
        } else if ordinal == 2 {
            Suit::Blue
        } else if ordinal == 3 {
            Suit::Yellow
        } else {
            Suit::Purple
        }
    }

    pub fn index(self) -> (i: usize)
        ensures
            i == self.ordinal(),
            i < 5,
    {
        match self {
            Suit::Red => 0,
            Suit::Green => 1,
            Suit::Blue => 2,
            Suit::Yellow => 3,
            Suit::Purple => 4,
        }
    }

    pub fn from_index(ordinal: usize) -> (s: Suit)
        requires
            ordinal < 5,
        ensures
            s == Suit::at(ordinal as int),
            s.ordinal() == ordinal,
    {
        if ordinal == 0 {
            Suit::Red
        } else if ordinal == 1 {
            Suit::Green
        } else if ordinal == 2 {
            Suit::Blue
        } else if ordinal == 3 {
            Suit::Yellow
        } else {
            Suit::Purple
        }
    }
}

#[derive(Debug, Clone, Copy, Hash, PartialEq, Eq, PartialOrd, Ord, Structural)]
pub enum Rank {
    One,
    Two,
    Three,
    Four,
    Five,
}

/// The height of a pile: the value of its top rank, or 0 while nothing has been played on it.
pub open spec fn pile_height(pile: Option<Rank>) -> int {
    match pile {
        None => 0,
        Some(r) => r.value(),
    }
}

impl Rank {
    /// The number printed on the card, from 1 to 5.
    pub open spec fn value(self) -> int {
        match self {
            Rank::One => 1,
            Rank::Two => 2,
            Rank::Three => 3,
            Rank::Four => 4,
            Rank::Five => 5,
        }
    }

    /// The rank with a given value; values past 5 count as 5.
    pub open spec fn of_value(value: int) -> Rank {
        if value <= 1 {
            Rank::One
        } else if value == 2 {
            Rank::Two
        } else if value == 3 {
            Rank::Three
        } else if value == 4 {
            Rank::Four
        } else {
            Rank::Five
        }
    }

    /// How many copies of each card of this rank a suit holds.
    pub open spec fn copies(self) -> nat {
        match self {
            Rank::One => 3,
            Rank::Two => 2,
            Rank::Three => 2,
            Rank::Four => 2,
            Rank::Five => 1,
        }
    }

    /// Whether a card of this rank may be played on a pile: it must be the next one up.
    pub open spec fn fits(self, pile: Option<Rank>) -> bool {
        self.value() == pile_height(pile) + 1
    }

    #[verifier::when_used_as_spec(fits)]
    pub fn playable_on(self, pile: Option<Rank>) -> (b: bool)
        ensures
            b == self.fits(pile),
    {
        match pile {
            None => self == Rank::One,
            Some(Rank::One) => self == Rank::Two,
            Some(Rank::Two) => self == Rank::Three,
            Some(Rank::Three) => self == Rank::Four,
            Some(Rank::Four) => self == Rank::Five,
            Some(Rank::Five) => false,
        }
    }

    /// The value as a machine integer.
    pub fn number(self) -> (n: u8)
        ensures
            n == self.value(),
            1 <= n <= 5,
    {
        match self {
            Rank::One => 1,
            Rank::Two => 2,
            Rank::Three => 3,
            Rank::Four => 4,
            Rank::Five => 5,
        }
    }

    pub fn from_number(value: u8) -> (r: Rank)
        requires
            1 <= value <= 5,
        ensures
            r == Rank::of_value(value as int),
            r.value() == value,
    {
        if value == 1 {
            Rank::One
        } else if value == 2 {
            Rank::Two
        } else if value == 3 {
            Rank::Three
        } else if value == 4 {
            Rank::Four
        } else {
            Rank::Five
        }
    }
}

/// The face of a card.
#[derive(Debug, Clone, Copy, Hash, PartialEq, Eq, PartialOrd, Ord, Structural)]
pub struct Card {
    pub suit: Suit,
    pub rank: Rank,
}

/// The number of distinct faces: five suits of five ranks.
pub const FACES: usize = 25;

impl Card {
    /// The position of the face among all faces, suits first.
    pub open spec fn ordinal(self) -> int {
        self.suit.ordinal() * 5 + self.rank.value() - 1
    }

    /// The face at a given position.
    pub open spec fn at(ordinal: int) -> Card {
        Card { suit: Suit::at(ordinal / 5), rank: Rank::of_value(ordinal % 5 + 1) }
    }

    pub fn index(self) -> (i: usize)
        ensures
            i == self.ordinal(),
            i < FACES,
            Card::at(i as int) == self,
    {
        self.suit.index() * 5 + (self.rank.number() - 1) as usize
    }

    pub fn from_index(ordinal: usize) -> (c: Card)
        requires
            ordinal < FACES,
        ensures
            c == Card::at(ordinal as int),
            c.ordinal() == ordinal,
    {
        Card {
            suit: Suit::from_index(ordinal / 5),
            rank: Rank::from_number((ordinal % 5) as u8 + 1),
        }
    }
}

/// Every face has a position below `FACES`, and the face at that position is the face itself.
pub proof fn lemma_card_ordinal(c: Card)
    ensures
        0 <= c.ordinal() < FACES,
        Card::at(c.ordinal()) == c,
{
}

/// Every position below `FACES` is the position of the face found there.
pub proof fn lemma_card_at(i: int)
    requires
        0 <= i < FACES,
    ensures
        Card::at(i).ordinal() == i,
{
}

/// The cards of a full deck: of every suit three 1s, two each of 2, 3 and 4, and one 5.
pub fn deck_distribution() -> (deck: CardCounts)
    ensures
        forall|c: Card| deck.count(c) == c.rank.copies(),
        deck.total() == 50,
{
    let mut deck = CardCounts::new();
    let mut i: usize = 0;
    while i < FACES
        invariant
            i <= FACES,
            forall|c: Card|
                deck.count(c) == (if c.ordinal() < i {
                    c.rank.copies()
                } else {
                    0
                }),
        decreases FACES - i,
    {
        let c = Card::from_index(i);
        let count: usize = match c.rank {
            Rank::One => 3,
            Rank::Two => 2,
            Rank::Three => 2,
            Rank::Four => 2,
            Rank::Five => 1,
        };
        deck.set(c, count);
        i = i + 1;
    }
    proof {
        assert forall|c: Card| deck.count(c) == c.rank.copies() by {
            lemma_card_ordinal(c);
        }
        lemma_full_deck_total(&deck, FACES as int);
        lemma_fifty_cards();
    }
    deck
}

#[derive(Debug, Copy, Clone, Hash, PartialEq, Eq, PartialOrd, Ord, Structural)]
pub enum Clue {
    Suit(Suit),
    Rank(Rank),
}

impl Clue {
    /// A clue matches a card that has the suit or the rank it names.
    pub open spec fn touches(&self, card: Card) -> bool {
        match *self {
            Clue::Suit(s) => s == card.suit,
            Clue::Rank(r) => r == card.rank,
        }
    }

    #[verifier::when_used_as_spec(touches)]
    pub fn matches(&self, card: Card) -> (b: bool)
        ensures
            b == self.touches(card),
    {
        match *self {
            Clue::Suit(s) => s == card.suit,
            Clue::Rank(r) => r == card.rank,
        }
    }
}

/// The handle of a physical card: its position in the deck order.
#[derive(Debug, Clone, Copy, Hash, PartialEq, Eq, Ord, PartialOrd, Structural)]
pub struct CardId(pub usize);

impl CardId {
    pub fn increment(&mut self)
        requires
            old(self).0 < usize::MAX,
        ensures
            final(self).0 == old(self).0 + 1,
    {
        self.0 = self.0 + 1;
    }
}

#[derive(Debug, Copy, Clone, Hash, PartialEq, Eq, PartialOrd, Ord, Structural)]
pub enum Action {
    Discard(usize),
    Play(usize),
    Clue(Player, Clue),
}

/// What one clue disclosed about one card: the clue, and whether it matched the card.
#[derive(Debug, Copy, Clone, Hash, PartialEq, Eq, PartialOrd, Ord, Structural)]
pub struct Information(pub Clue, pub bool);

impl Information {
    /// A face agrees with a disclosure when the clue matches it exactly if the disclosure says so.
    pub open spec fn agrees_with(self, card: Card) -> bool {
        self.1 == self.0.touches(card)
    }

    #[verifier::when_used_as_spec(agrees_with)]
    pub fn consistent_with(self, card: Card) -> (b: bool)
        ensures
            b == self.agrees_with(card),
    {
        let Information(clue, matches) = self;
        matches == clue.matches(card)
    }
}

/// A description of an action that was carried out, with what it revealed: the face of a
/// card that was discarded or played, or the cards that a clue matched.
#[derive(Debug, Hash, PartialEq, Eq)]
pub enum CompletedAction {
    Discarded(usize, Card),
    Played(usize, Card),
    Clued(Player, Clue, Vec<CardId>),
}

impl View for CompletedAction {
    type V = Completed;

    open spec fn view(&self) -> Completed {
        match *self {
            CompletedAction::Discarded(i, c) => Completed::Discarded(i, c),
            CompletedAction::Played(i, c) => Completed::Played(i, c),
            CompletedAction::Clued(p, clue, ids) => Completed::Clued(p, clue, ids@),
        }
    }
}

impl Clone for CompletedAction {
    fn clone(&self) -> (copy: CompletedAction)
        ensures
            copy@ == self@,
    {
        match self {
            CompletedAction::Discarded(i, c) => CompletedAction::Discarded(*i, *c),
            CompletedAction::Played(i, c) => CompletedAction::Played(*i, *c),
            CompletedAction::Clued(p, clue, ids) => CompletedAction::Clued(*p, *clue, ids.clone()),
        }
    }
}

/// A copy of a record of actions.
fn clone_actions(actions: &Vec<CompletedAction>) -> (copy: Vec<CompletedAction>)
    ensures
        copy@.map_values(|done: CompletedAction| done@) == actions@.map_values(
            |done: CompletedAction| done@,
        ),
{
    let mut copy: Vec<CompletedAction> = Vec::new();
    let mut i: usize = 0;
    while i < actions.len()
        invariant
            i <= actions.len(),
            copy.len() == i,
            forall|k: int| 0 <= k < i ==> (#[trigger] copy[k])@ == actions[k]@,
        decreases actions.len() - i,
    {
        copy.push(actions[i].clone());
        i = i + 1;
    }
    assert(copy@.map_values(|done: CompletedAction| done@) =~= actions@.map_values(
        |done: CompletedAction| done@,
    ));
    copy
}

/// What identifies a game to one observer: the faces that the observer knows, in the order
/// of the card numbers, and the record of the actions. Games are told apart by nothing else.
#[derive(Debug, Hash, PartialEq, Eq)]
pub struct Fingerprint {
    pub(crate) known_cards: Vec<(CardId, Card)>,
    pub(crate) actions: Vec<CompletedAction>,
}

impl View for Fingerprint {
    type V = FingerprintView;

    closed spec fn view(&self) -> FingerprintView {
        FingerprintView {
            known_cards: self.known_cards@,
            actions: self.actions@.map_values(|done: CompletedAction| done@),
        }
    }
}

impl Clone for Fingerprint {
    fn clone(&self) -> (copy: Fingerprint)
        ensures
            copy@ == self@,
    {
        let mut known_cards: Vec<(CardId, Card)> = Vec::new();
        let mut i: usize = 0;
        while i < self.known_cards.len()
            invariant
                i <= self.known_cards.len(),
                known_cards@ == self.known_cards@.take(i as int),
            decreases self.known_cards.len() - i,
        {
            known_cards.push(self.known_cards[i]);
            assert(self.known_cards@.take(i as int + 1) == self.known_cards@.take(i as int).push(
                self.known_cards@[i as int],
            ));
            i = i + 1;
        }
        proof {
            lemma_take_all(self.known_cards@);
        }
        Fingerprint { known_cards, actions: clone_actions(&self.actions) }
    }
}

impl Fingerprint {
    /// The view of a fingerprint is what its two lists hold.
    pub(crate) proof fn lemma_view(&self)
        ensures
            self@.known_cards == self.known_cards@,
            self@.actions == self.actions@.map_values(|done: CompletedAction| done@),
    {
    }
}

#[derive(Debug, Clone, Copy, PartialEq, Eq, Structural)]
pub enum IllegalAction {
    NoSuchCard,
    NoMatchingCards,
    CluedSelf,
    NoClues,
    TooManyClues,
}

#[derive(Debug, Clone, Copy, PartialEq, Eq, Structural)]
pub enum ActionError {
    UnknownCard,
}

#[derive(Debug, PartialEq, Eq)]
pub enum ActionResult {
    Acted(CompletedAction),
    Illegal(IllegalAction),
    Error(ActionError),
    Finished(i8),
}

impl Clone for ActionResult {
    fn clone(&self) -> (copy: ActionResult)
        ensures
            copy@ == self@,
    {
        match self {
            ActionResult::Acted(done) => ActionResult::Acted(done.clone()),
            ActionResult::Illegal(kind) => ActionResult::Illegal(*kind),
            ActionResult::Error(kind) => ActionResult::Error(*kind),
            ActionResult::Finished(score) => ActionResult::Finished(*score),
        }
    }
}

impl View for ActionResult {
    type V = Outcome;

    open spec fn view(&self) -> Outcome {
        match *self {
            ActionResult::Acted(done) => Outcome::Acted(done@),
            ActionResult::Illegal(kind) => Outcome::Illegal(kind),
            ActionResult::Error(kind) => Outcome::Error(kind),
            ActionResult::Finished(score) => Outcome::Finished(score),
        }
    }
}

/// Copies from `from` into `into` the faces of those cards of `ids` that `from` knows.
fn copy_known(from: &HashMap<usize, Card>, ids: &Vec<CardId>, into: &mut HashMap<usize, Card>)
    ensures
        forall|k: usize| #[trigger]
            final(into)@.contains_key(k) <==> old(into)@.contains_key(k) || (from@.contains_key(k)
                && ids@.contains(CardId(k))),
        forall|k: usize| #[trigger]
            final(into)@.contains_key(k) ==> final(into)@[k] == (if from@.contains_key(k)
                && ids@.contains(CardId(k)) {
                from@[k]
            } else {
                old(into)@[k]
            }),
{
    let mut j: usize = 0;
    proof {
        lemma_take_all(ids@);
    }
    while j < ids.len()
        invariant
            j <= ids.len(),
            forall|k: usize| #[trigger]
                into@.contains_key(k) <==> old(into)@.contains_key(k) || (from@.contains_key(k)
                    && ids@.take(j as int).contains(CardId(k))),
            forall|k: usize| #[trigger]
                into@.contains_key(k) ==> into@[k] == (if from@.contains_key(k) && ids@.take(
                    j as int,
                ).contains(CardId(k)) {
                    from@[k]
                } else {
                    old(into)@[k]
                }),
        decreases ids.len() - j,
    {
        let c_id: CardId = ids[j];
        let ghost prev = into@;
        match from.get(&c_id.0) {
            Some(c) => {
                into.insert(c_id.0, *c);
            },
            None => {},
        }
        proof {
            assert forall|k: usize| #[trigger]
                into@.contains_key(k) <==> old(into)@.contains_key(k) || (from@.contains_key(k)
                    && ids@.take(j as int + 1).contains(CardId(k))) by {
                lemma_take_contains(ids@, j as int, CardId(k));
                assert(prev.contains_key(k) <==> old(into)@.contains_key(k) || (from@.contains_key(
                    k,
                ) && ids@.take(j as int).contains(CardId(k))));
            }
            assert forall|k: usize| #[trigger] into@.contains_key(k) implies into@[k] == (if from@.contains_key(
                k,
            ) && ids@.take(j as int + 1).contains(CardId(k)) {
                from@[k]
            } else {
                old(into)@[k]
            }) by {
                lemma_take_contains(ids@, j as int, CardId(k));
                assert(prev.contains_key(k) <==> old(into)@.contains_key(k) || (from@.contains_key(
                    k,
                ) && ids@.take(j as int).contains(CardId(k))));
            }
        }
        j = j + 1;
    }
    proof {
        lemma_take_all(ids@);
    }
}

/// The state of a game, for the table as a whole or as one player sees it: the two differ
/// only in which faces are known.
#[derive(Debug)]
pub struct GameState {
    card_map: HashMap<usize, Card>,
    deck_size: usize,
    next_card_id: CardId,
    current_turn: Player,
    final_turn: Option<Player>,
    hands: Vec<Vec<CardId>>,
    played_cards: Vec<CardId>,
    discarded_cards: Vec<CardId>,
    piles: Vec<Option<Rank>>,
    clues: u8,
    strikes: u8,
    information: HashMap<usize, Vec<Information>>,
    action_log: Vec<CompletedAction>,
}

impl View for GameState {
    type V = GameView;

    closed spec fn view(&self) -> GameView {
        GameView {
            card_map: self.card_map@,
            deck_size: self.deck_size as nat,
            next_card_id: self.next_card_id.0 as nat,
            current_turn: self.current_turn,
            final_turn: self.final_turn,
            hands: self.hands@.map_values(|h: Vec<CardId>| h@),
            played_cards: self.played_cards@,
            discarded_cards: self.discarded_cards@,
            piles: self.piles@,
            clues: self.clues as nat,
            strikes: self.strikes as nat,
            information: self.information@.map_values(|log: Vec<Information>| log@),
            action_log: self.action_log@.map_values(|done: CompletedAction| done@),
        }
    }
}

impl Clone for GameState {
    fn clone(&self) -> (copy: GameState)
        ensures
            copy@ == self@,
    {
        let mut hands: Vec<Vec<CardId>> = Vec::new();
        let mut seat: usize = 0;
        while seat < self.hands.len()
            invariant
                seat <= self.hands.len(),
                hands.len() == seat,
                forall|p: int| 0 <= p < seat ==> (#[trigger] hands[p])@ == self.hands[p]@,
            decreases self.hands.len() - seat,
        {
            hands.push(self.hands[seat].clone());
            seat = seat + 1;
        }
        let copy = GameState {
            card_map: self.card_map.clone(),
            deck_size: self.deck_size,
            next_card_id: self.next_card_id,
            current_turn: self.current_turn,
            final_turn: self.final_turn,
            hands,
            played_cards: self.played_cards.clone(),
            discarded_cards: self.discarded_cards.clone(),
            piles: self.piles.clone(),
            clues: self.clues,
            strikes: self.strikes,
            information: self.information.clone(),
            action_log: clone_actions(&self.action_log),
        };
        assert(copy@.hands =~= self@.hands);
        assert(copy@.piles =~= self@.piles);
        copy
    }
}

impl GameState {
    /// Deals a game from a deck in the given order: the first sixteen cards go to the four
    /// players in turn, the rest wait to be drawn. Every face is known.
    pub fn initial(deck_order: &[Card]) -> (state: GameState)
        requires
            deck_order.len() >= 16,
        ensures
            state@ == GameView::start(deck_order@),
            state@.in_play(),
            forall|c: Card| #[trigger] state@.cards_of(c) == occurrences(deck_order@, c),
            is_full_deck(deck_order@) ==> state@.within_deck() && state@.total_cards() == 50,
            state@.hands_held(),
    {
        let mut card_map: HashMap<usize, Card> = HashMap::new();
        let mut i: usize = 0;
        while i < deck_order.len()
            invariant
                i <= deck_order.len(),
                forall|k: usize| card_map@.contains_key(k) <==> k < i,
                forall|k: usize| k < i ==> card_map@[k] == deck_order@[k as int],
            decreases deck_order.len() - i,
        {
            card_map.insert(i, deck_order[i]);
            i = i + 1;
        }
        let mut hands: Vec<Vec<CardId>> = Vec::new();
        let mut seat: usize = 0;
        while seat < 4
            invariant
                seat <= 4,
                hands.len() == seat,
                forall|p: int| 0 <= p < seat ==> (#[trigger] hands[p])@ == dealt_hands()[p],
            decreases 4 - seat,
        {
            let mut hand: Vec<CardId> = Vec::new();
            hand.push(CardId(seat));
            hand.push(CardId(seat + 4));
            hand.push(CardId(seat + 8));
            hand.push(CardId(seat + 12));
            assert(hand@ == dealt_hands()[seat as int]);
            hands.push(hand);
            seat = seat + 1;
        }
        let mut piles: Vec<Option<Rank>> = Vec::new();
        let mut s: usize = 0;
        while s < 5
            invariant
                s <= 5,
                piles.len() == s,
                forall|k: int| 0 <= k < s ==> piles[k] is None,
            decreases 5 - s,
        {
            piles.push(None);
            s = s + 1;
        }
        let state = GameState {
            card_map,
            deck_size: deck_order.len() - 16,
            next_card_id: CardId(16),
            current_turn: Player::Alice,
            final_turn: None,
            hands,
            played_cards: Vec::new(),
            discarded_cards: Vec::new(),
            piles,
            clues: 8,
            strikes: 0,
            information: HashMap::new(),
            action_log: Vec::new(),
        };
        proof {
            let v = state@;
            let w = GameView::start(deck_order@);
            assert(v.card_map =~= w.card_map);
            assert(v.hands =~= w.hands);
            assert(v.piles =~= w.piles);
            assert(v.information =~= w.information);
            assert(v.action_log =~= w.action_log);
            assert(v.played_cards =~= w.played_cards);
            assert(v.discarded_cards =~= w.discarded_cards);
            assert forall|c: Card| #[trigger] w.cards_of(c) == occurrences(deck_order@, c) by {
                lemma_start_holds_deck(deck_order@, c);
            }
            lemma_start_placed(deck_order@);
            if is_full_deck(deck_order@) {
                lemma_dealt_from_full_deck(deck_order@);
            }
        }
        state
    }

    /// Forgets the faces that `player` cannot see: those of the player's own hand and of the
    /// undrawn cards. The faces in the other hands and of the played and discarded cards stay,
    /// as far as they were known.
    pub fn reduce_to_player_view(&mut self, player: Player)
        ensures
            final(self)@ == old(self)@.seen_by(player),
            old(self)@.inv() ==> final(self)@.inv(),
            old(self)@.inv() && old(self)@.within_deck() ==> final(self)@.within_deck(),
            (forall|id: CardId| #[trigger]
                old(self)@.visible_to(player, id) ==> old(self)@.knows(id)) ==> (forall|id: CardId|
                final(self)@.knows(id) <==> #[trigger] final(self)@.visible_to(player, id)),
    {
        let ghost before = self@;
        let mut viewed: HashMap<usize, Card> = HashMap::new();
        let own = player.index();
        let mut seat: usize = 0;
        while seat < self.hands.len()
            invariant
                seat <= self.hands.len(),
                *self == *old(self),
                before == self@,
                self.hands.len() == before.hands.len(),
                own == player.seat(),
                forall|k: usize| #[trigger]
                    viewed@.contains_key(k) <==> self.card_map@.contains_key(k) && exists|q: int|
                        0 <= q < seat && q != own && (#[trigger] before.hands[q]).contains(
                            CardId(k),
                        ),
                forall|k: usize| #[trigger]
                    viewed@.contains_key(k) ==> viewed@[k] == self.card_map@[k],
            decreases self.hands.len() - seat,
        {
            let ghost prev = viewed@;
            if seat != own {
                copy_known(&self.card_map, &self.hands[seat], &mut viewed);
            }
            proof {
                assert(self.hands[seat as int]@ == before.hands[seat as int]);
                assert forall|k: usize| #[trigger]
                    viewed@.contains_key(k) <==> self.card_map@.contains_key(k) && exists|q: int|
                        0 <= q < seat + 1 && q != own && (#[trigger] before.hands[q]).contains(
                            CardId(k),
                        ) by {
                    assert(prev.contains_key(k) <==> self.card_map@.contains_key(k) && exists|
                        q: int,
                    |
                        0 <= q < seat && q != own && (#[trigger] before.hands[q]).contains(
                            CardId(k),
                        ));
                    if self.card_map@.contains_key(k) && exists|q: int|
                        0 <= q < seat + 1 && q != own && (#[trigger] before.hands[q]).contains(
                            CardId(k),
                        ) {
                        let q = choose|q: int|
                            0 <= q < seat + 1 && q != own && (#[trigger] before.hands[q]).contains(
                                CardId(k),
                            );
                        if q < seat {
                            assert(prev.contains_key(k));
                        }
                    }
                }
                assert forall|k: usize| #[trigger] viewed@.contains_key(k) implies viewed@[k]
                    == self.card_map@[k] by {
                    if prev.contains_key(k) {
                        assert(prev[k] == self.card_map@[k]);
                    }
                }
            }
            seat = seat + 1;
        }
        let ghost from_hands = viewed@;
        copy_known(&self.card_map, &self.played_cards, &mut viewed);
        let ghost from_played = viewed@;
        copy_known(&self.card_map, &self.discarded_cards, &mut viewed);
        proof {
            let target = before.seen_by(player).card_map;
            assert forall|k: usize| viewed@.contains_key(k) <==> target.contains_key(k) by {
                assert(from_played.contains_key(k) <==> from_hands.contains_key(k) || (
                self.card_map@.contains_key(k) && before.played_cards.contains(CardId(k))));
                assert(from_hands.contains_key(k) <==> self.card_map@.contains_key(k) && exists|
                    q: int,
                |
                    0 <= q < before.hands.len() && q != own && (
                    #[trigger] before.hands[q]).contains(CardId(k)));
            }
            assert forall|k: usize| viewed@.contains_key(k) implies viewed@[k] == target[k] by {
                assert(from_played.contains_key(k) <==> from_hands.contains_key(k) || (
                self.card_map@.contains_key(k) && before.played_cards.contains(CardId(k))));
                if from_played.contains_key(k) {
                    if from_hands.contains_key(k) {
                        assert(from_hands[k] == self.card_map@[k]);
                    }
                    assert(from_played[k] == self.card_map@[k]);
                }
            }
            assert(viewed@ =~= target);
        }
        self.card_map = viewed;
        proof {
            assert(self@ == before.seen_by(player));
            if before.inv() {
                lemma_seen_by_inv(before, player);
                if before.within_deck() {
                    lemma_seen_by_within_deck(before, player);
                }
            }
            if forall|id: CardId| #[trigger] before.visible_to(player, id) ==> before.knows(id) {
                let after = before.seen_by(player);
                assert forall|id: CardId|
                    after.knows(id) <==> #[trigger] after.visible_to(player, id) by {
                    assert(CardId(id.0) == id);
                    assert(after.hands == before.hands);
                    if after.visible_to(player, id) {
                        assert(before.visible_to(player, id));
                        assert(before.knows(id));
                    }
                }
            }
        }
    }

    pub fn reduce_to_current_view(&mut self)
        ensures
            final(self)@ == old(self)@.seen_by(old(self)@.current_turn),
            old(self)@.inv() ==> final(self)@.inv(),
            old(self)@.inv() && old(self)@.within_deck() ==> final(self)@.within_deck(),
    {
        let player = self.current_turn;
        self.reduce_to_player_view(player);
    }

    /// The game as `player` sees it.
    pub fn player_view(&self, player: Player) -> (view: GameState)
        ensures
            view@ == self@.seen_by(player),
            self@.inv() ==> view@.inv(),
            self@.inv() && self@.within_deck() ==> view@.within_deck(),
    {
        let mut view = self.clone();
        view.reduce_to_player_view(player);
        view
    }

    /// The game as the player sees it whose turn it is.
    pub fn current_view(&self) -> (view: GameState)
        ensures
            view@ == self@.seen_by(self@.current_turn),
            self@.inv() ==> view@.inv(),
            self@.inv() && self@.within_deck() ==> view@.within_deck(),
    {
        self.player_view(self.current_turn)
    }

    /// The cards whose face is not known: those of the hands, seat by seat, then those of
    /// the deck.
    pub fn unknown_cards(&self) -> (unknowns: Vec<CardId>)
        requires
            self@.inv(),
        ensures
            unknowns@ == self@.unknown_cards(),
    {
        let mut unknowns: Vec<CardId> = Vec::new();
        let mut seat: usize = 0;
        while seat < self.hands.len()
            invariant
                seat <= self.hands.len(),
                self.hands.len() == self@.hands.len(),
                unknowns@ == self@.missing_in_hands(seat as int),
            decreases self.hands.len() - seat,
        {
            let ghost hand = self@.hands[seat as int];
            let ghost start = unknowns@;
            let n: usize = self.hands[seat].len();
            let mut j: usize = 0;
            while j < n
                invariant
                    j <= n,
                    seat < self.hands.len(),
                    n == hand.len(),
                    hand == self.hands[seat as int]@,
                    unknowns@ == start + self@.missing(hand.take(j as int)),
                decreases n - j,
            {
                let c_id: CardId = self.hands[seat][j];
                assert(hand.take(j as int + 1).drop_last() == hand.take(j as int));
                if !self.card_map.contains_key(&c_id.0) {
                    unknowns.push(c_id);
                }
                j = j + 1;
            }
            assert(hand.take(n as int) == hand);
            seat = seat + 1;
        }
        let ghost start = unknowns@;
        let ghost deck = self@.undrawn();
        let base: usize = self.next_card_id.0;
        let mut i: usize = 0;
        while i < self.deck_size
            invariant
                i <= self.deck_size,
                self@.inv(),
                base == self@.next_card_id,
                self.deck_size == self@.deck_size,
                deck == self@.undrawn(),
                unknowns@ == start + self@.missing(deck.take(i as int)),
            decreases self.deck_size - i,
        {
            let c_id = CardId(base + i);
            assert(deck.take(i as int + 1).drop_last() == deck.take(i as int));
            assert(deck.take(i as int + 1).last() == c_id);
            if !self.card_map.contains_key(&c_id.0) {
                unknowns.push(c_id);
            }
            i = i + 1;
        }
        assert(deck.take(self.deck_size as int) == deck);
        unknowns
    }

    /// The actions open to the current player, in a fixed order: for each card of the hand
    /// a discard (unless all clue tokens are there) and a play; then, if a clue token is left,
    /// for each other player in seat order the suit clues and the rank clues that match a
    /// card of known face in that player's hand.
    pub fn legal_actions(&self) -> (actions: Vec<Action>)
        requires
            self@.inv(),
        ensures
            actions@ == self@.legal_actions(),
    {
        let current_player = self.current_turn;
        let mut actions: Vec<Action> = Vec::new();
        let n: usize = self.hands[current_player.index()].len();
        let mut i: usize = 0;
        while i < n
            invariant
                i <= n,
                actions@ == self@.card_moves(i as int),
            decreases n - i,
        {
            if self.clues < 8 {
                actions.push(Action::Discard(i));
            }
            actions.push(Action::Play(i));
            i = i + 1;
        }
        if self.clues > 0 {
            let ghost cards = actions@;
            let mut seat: usize = 0;
            while seat < 4
                invariant
                    seat <= 4,
                    self@.inv(),
                    current_player == self@.current_turn,
                    actions@ == cards + self@.clue_moves(seat as int),
                decreases 4 - seat,
            {
                let target = Player::from_index(seat);
                if target != current_player {
                    let ghost start = actions@;
                    let mut k: u8 = 0;
                    while k < 10
                        invariant
                            k <= 10,
                            self@.inv(),
                            seat < 4,
                            target == Player::at_seat(seat as int),
                            actions@ == start + self@.clue_moves_to(target, k as int),
                        decreases 10 - k,
                    {
                        let clue = if k < 5 {
                            Clue::Suit(Suit::from_index(k as usize))
                        } else {
                            Clue::Rank(Rank::from_number(k - 4))
                        };
                        assert(clue == clue_at(k as int));
                        if self.clue_applies(target, clue) {
                            actions.push(Action::Clue(target, clue));
                        }
                        k = k + 1;
                    }
                }
                seat = seat + 1;
            }
        }
        actions
    }

    /// Whether `clue` matches a card of known face in the hand of `target`.
    fn clue_applies(&self, target: Player, clue: Clue) -> (found: bool)
        requires
            self@.inv(),
        ensures
            found == self@.clue_applies(self@.hand(target), clue),
    {
        let seat = target.index();
        let ghost hand = self@.hand(target);
        let n: usize = self.hands[seat].len();
        let mut j: usize = 0;
        while j < n
            invariant
                j <= n,
                n == hand.len(),
                seat < self.hands.len(),
                hand == self.hands[seat as int]@,
                hand == self@.hand(target),
                forall|i: int|
                    0 <= i < j ==> !(self@.knows(#[trigger] hand[i]) && clue.touches(
                        self@.face(hand[i]),
                    )),
            decreases n - j,
        {
            let c_id: CardId = self.hands[seat][j];
            match self.card_map.get(&c_id.0) {
                Some(c) => {
                    if clue.matches(*c) {
                        assert(self@.knows(hand[j as int]) && clue.touches(
                            self@.face(hand[j as int]),
                        ));
                        return true;
                    }
                },
                None => {},
            }
            j = j + 1;
        }
        false
    }

    /// Whether no face is known of more cards than a full deck holds of it.
    pub fn faces_within_deck(&self) -> (ok: bool)
        requires
            self@.inv(),
        ensures
            ok == self@.within_deck(),
    {
        let seen_counts = self.seen_card_counts();
        let all_counts = deck_distribution();
        let ok = seen_counts.within(&all_counts);
        proof {
            if ok {
                assert forall|c: Card| #[trigger] self@.seen(c) <= c.rank.copies() by {
                    assert(seen_counts.count(c) <= all_counts.count(c));
                }
            } else {
                let c = choose|c: Card| !(seen_counts.count(c) <= all_counts.count(c));
                assert(!(self@.seen(c) <= c.rank.copies()));
            }
        }
        ok
    }

    /// The cards of a full deck that are not among the known faces.
    pub fn remaining_card_counts(&self) -> (remaining: CardCounts)
        requires
            self@.inv(),
            self@.within_deck(),
        ensures
            forall|c: Card| remaining.count(c) == c.rank.copies() - self@.seen(c),
            remaining.total() == self@.remaining_total(),
    {
        let seen_counts = self.seen_card_counts();
        let all_counts = deck_distribution();
        let mut remaining_counts = CardCounts::new();
        let mut i: usize = 0;
        while i < FACES
            invariant
                i <= FACES,
                self@.within_deck(),
                forall|c: Card| seen_counts.count(c) == self@.seen(c),
                forall|c: Card| all_counts.count(c) == c.rank.copies(),
                forall|c: Card|
                    remaining_counts.count(c) == (if c.ordinal() < i {
                        c.rank.copies() - self@.seen(c)
                    } else {
                        0
                    }),
            decreases FACES - i,
        {
            let c = Card::from_index(i);
            let n = all_counts.get(c);
            let seen = seen_counts.get(c);
            assert(self@.seen(c) <= c.rank.copies());
            remaining_counts.set(c, n - seen);
            i = i + 1;
        }
        proof {
            assert forall|c: Card|
                remaining_counts.count(c) == c.rank.copies() - self@.seen(c) by {
                lemma_card_ordinal(c);
            }
            lemma_remaining_counted(self@, &remaining_counts, FACES as int);
        }
        remaining_counts
    }

    /// How often each face is among the known faces.
    pub fn seen_card_counts(&self) -> (seen: CardCounts)
        requires
            self@.inv(),
        ensures
            forall|c: Card| seen.count(c) == self@.seen(c),
    {
        let total: usize = self.next_card_id.0 + self.deck_size;
        let mut seen = CardCounts::new();
        let mut k: usize = 0;
        proof {
            assert forall|c: Card|
                holders(self.card_map@.restrict(below(0)), c).len() == 0 by {
                assert(self.card_map@.restrict(below(0)) =~= Map::<usize, Card>::empty());
                lemma_holders_empty(c);
            }
        }
        while k < total
            invariant
                k <= total,
                total == self@.total_cards(),
                self.card_map@ == self@.card_map,
                forall|c: Card|
                    seen.count(c) == holders(self.card_map@.restrict(below(k as int)), c).len(),
                forall|c: Card| seen.count(c) <= k,
            decreases total - k,
        {
            proof {
                assert forall|c: Card|
                    holders(self.card_map@.restrict(below(k + 1)), c).len() == holders(
                        self.card_map@.restrict(below(k as int)),
                        c,
                    ).len() + (if self.card_map@.contains_key(k) && self.card_map@[k] == c {
                        1nat
                    } else {
                        0nat
                    }) by {
                    lemma_holders_step(self.card_map@, k, c);
                }
            }
            match self.card_map.get(&k) {
                Some(c) => {
                    let n = seen.get(*c);
                    seen.set(*c, n + 1);
                },
                None => {},
            }
            k = k + 1;
        }
        proof {
            assert(self.card_map@.restrict(below(total as int)) =~= self.card_map@);
        }
        seen
    }

    /// Gives every card of unknown face, in the hands and in the deck, a face that the
    /// observer cannot rule out.
    ///
    /// A card about which clues have disclosed something draws its face from its prior in
    /// `priors`, or from the faces of a full deck if it has none, restricted to the faces
    /// that agree with every disclosure. A card about which nothing was disclosed draws from
    /// its prior as it stands. The other cards share out, at random, what a full deck holds
    /// beyond the known faces and those just drawn. Where a full deck holds fewer cards beyond
    /// the known faces than there are cards of unknown face, nothing is drawn and the answer is
    /// `NotEnoughCards`; that does not happen in a game of at most fifty cards. On an error the
    /// game is as it was.
    pub fn determinize(&mut self, priors: &HashMap<usize, Vec<WeightedCard>>, rng: &mut StdRng) -> (result:
        Result<(), DeterminizeError>)
        requires
            old(self)@.inv(),
            old(self)@.within_deck(),
        ensures
            final(self)@.inv(),
            final(self)@.within_deck(),
            final(self)@ == (GameView { card_map: final(self)@.card_map, ..old(self)@ }),
            match result {
                Ok(()) => {
                    &&& old(self)@.card_map.submap_of(final(self)@.card_map)
                    &&& forall|k: usize|
                        final(self)@.card_map.contains_key(k) <==> old(self)@.card_map.contains_key(
                            k,
                        ) || old(self)@.unknown_cards().contains(CardId(k))
                    &&& forall|p: Player| final(self)@.all_known(#[trigger] final(self)@.hand(p))
                    &&& final(self)@.all_known(final(self)@.undrawn())
                    &&& forall|k: usize|
                        !old(self)@.card_map.contains_key(k) && #[trigger] final(self)@.card_map.contains_key(k) ==> (match old(self)@.prior_for(priors@, k) {
                            Some(choices) => offers_card(choices, final(self)@.card_map[k]),
                            None => true,
                        })
                    &&& forall|id: CardId|
                        final(self)@.knows(id) ==> agrees_with_all(
                            #[trigger] final(self)@.disclosed(id),
                            final(self)@.face(id),
                        )
                    &&& numbers(old(self)@.unknown_cards()).len() <= old(self)@.remaining_total()
                },
                Err(DeterminizeError::UnusablePrior) => {
                    &&& final(self)@ == old(self)@
                    &&& old(self)@.has_unusable_prior(priors@)
                },
                Err(DeterminizeError::NotEnoughCards) => {
                    &&& final(self)@ == old(self)@
                    &&& !old(self)@.has_unusable_prior(priors@)
                    &&& numbers(old(self)@.unknown_cards()).len() > old(self)@.remaining_total()
                },
                Err(DeterminizeError::Exhausted) => {
                    &&& final(self)@ == old(self)@
                    &&& !old(self)@.has_unusable_prior(priors@)
                    &&& old(self)@.has_prior(priors@)
                },
            },
            old(self)@.has_unusable_prior(priors@) ==> result == Err::<(), DeterminizeError>(
                DeterminizeError::UnusablePrior,
            ),
            priors@.dom() == Set::<usize>::empty() ==> result != Err::<(), DeterminizeError>(
                DeterminizeError::UnusablePrior,
            ),
            old(self)@.total_cards() <= 50 ==> result != Err::<(), DeterminizeError>(
                DeterminizeError::NotEnoughCards,
            ),
            !old(self)@.has_unusable_prior(priors@) && numbers(old(self)@.unknown_cards()).len()
                > old(self)@.remaining_total() ==> result == Err::<(), DeterminizeError>(
                DeterminizeError::NotEnoughCards,
            ),
            !old(self)@.has_prior(priors@) && numbers(old(self)@.unknown_cards()).len() <= old(self)@.remaining_total() ==> result is Ok,
    {
        let ghost before = self@;
        let unknowns = self.unknown_cards();
        let remaining_counts = self.remaining_card_counts();
        let restricted_priors = self.restricted_priors(&unknowns, priors);
        proof {
            lemma_priors_agree(before, priors@, restricted_priors@);
            if priors@.dom() == Set::<usize>::empty() {
                assert(priors@ =~= Map::<usize, Vec<WeightedCard>>::empty());
                lemma_no_priors_are_usable(before);
            }
            if before.total_cards() <= 50 {
                lemma_enough_cards(before);
            }
        }
        if !has_enough(unknowns.as_slice(), &remaining_counts) {
            let (all_usable, _) = check_priors(unknowns.as_slice(), &restricted_priors);
            if all_usable {
                return Err(DeterminizeError::NotEnoughCards);
            } else {
                return Err(DeterminizeError::UnusablePrior);
            }
        }
        let assignment = match determinize(
            unknowns.as_slice(),
            &remaining_counts,
            &restricted_priors,
            rng,
        ) {
            Ok(assignment) => assignment,
            Err(e) => {
                return Err(e);
            },
        };
        let mut j: usize = 0;
        proof {
            lemma_take_all(unknowns@);
            assert(self.card_map@ =~= before.card_map.union_prefer_right(
                assignment@.restrict(numbers(unknowns@.take(0))),
            ));
        }
        while j < unknowns.len()
            invariant
                j <= unknowns.len(),
                assignment@.dom() == numbers(unknowns@),
                self@ == (GameView {
                    card_map: before.card_map.union_prefer_right(
                        assignment@.restrict(numbers(unknowns@.take(j as int))),
                    ),
                    ..before
                }),
            decreases unknowns.len() - j,
        {
            let c_id: CardId = unknowns[j];
            assert(unknowns@.contains(c_id));
            assert(assignment@.contains_key(c_id.0));
            let ghost prev = self@.card_map;
            match assignment.get(&c_id.0) {
                Some(c) => {
                    self.card_map.insert(c_id.0, *c);
                },
                None => {},
            }
            proof {
                let shorter = assignment@.restrict(numbers(unknowns@.take(j as int)));
                let longer = assignment@.restrict(numbers(unknowns@.take(j as int + 1)));
                assert forall|k: usize| longer.contains_key(k) <==> shorter.contains_key(k) || k
                    == c_id.0 by {
                    lemma_take_contains(unknowns@, j as int, CardId(k));
                }
                assert(self@.card_map =~= before.card_map.union_prefer_right(longer));
            }
            j = j + 1;
        }
        proof {
            lemma_take_all(unknowns@);
            lemma_numbers_finite(unknowns@);
            assert(assignment@.restrict(numbers(unknowns@)) =~= assignment@);
            assert forall|k: usize| #[trigger]
                assignment@.contains_key(k) && before.information.contains_key(k)
                implies agrees_with_all(before.information[k], assignment@[k]) by {
                assert(restricted_priors@.contains_key(k));
                lemma_restricted(
                    if priors@.contains_key(k) {
                        priors@[k]@
                    } else {
                        crate::priors::deck_choices(25)
                    },
                    before.information[k],
                    assignment@[k],
                );
            }
            lemma_filled_inv(before, assignment@);
            assert forall|c: Card|
                holders(assignment@, c).len() <= c.rank.copies() - #[trigger] before.seen(c) by {
                assert(holders(assignment@, c).len() <= remaining_counts.count(c));
            }
            lemma_filled_within_deck(before, assignment@);
            let after = self@;
            assert forall|p: Player| after.all_known(#[trigger] after.hand(p)) by {
                assert(after.all_known(before.hand(p)));
            }
            assert forall|k: usize|
                after.card_map.contains_key(k) <==> before.card_map.contains_key(k)
                    || before.unknown_cards().contains(CardId(k)) by {}
            assert forall|k: usize|
                !before.card_map.contains_key(k) && #[trigger] after.card_map.contains_key(k)
                implies (match before.prior_for(priors@, k) {
                Some(choices) => offers_card(choices, after.card_map[k]),
                None => true,
            }) by {
                assert(assignment@.contains_key(k));
                if before.prior_for(priors@, k) is Some {
                    assert(restricted_priors@.contains_key(k));
                    assert(offers_card(restricted_priors@[k]@, assignment@[k]));
                }
            }
            assert forall|id: CardId| after.knows(id) implies agrees_with_all(
                #[trigger] after.disclosed(id),
                after.face(id),
            ) by {
                assert(after.disclosures_hold());
                assert forall|i: int| 0 <= i < after.disclosed(id).len() implies (
                #[trigger] after.disclosed(id)[i]).agrees_with(after.face(id)) by {
                    assert(after.information[id.0][i].agrees_with(after.card_map[id.0]));
                }
            }
        }
        Ok(())
    }

    /// The choices to draw from for every card of `unknowns` that has any.
    fn restricted_priors(
        &self,
        unknowns: &Vec<CardId>,
        priors: &HashMap<usize, Vec<WeightedCard>>,
    ) -> (restricted_priors: HashMap<usize, Vec<WeightedCard>>)
        ensures
            forall|k: usize| #[trigger]
                restricted_priors@.contains_key(k) <==> unknowns@.contains(CardId(k))
                    && self@.prior_for(priors@, k) is Some,
            forall|k: usize| #[trigger]
                restricted_priors@.contains_key(k) ==> Some(restricted_priors@[k]@)
                    == self@.prior_for(priors@, k),
    {
        let mut restricted_priors: HashMap<usize, Vec<WeightedCard>> = HashMap::new();
        let mut j: usize = 0;
        proof {
            lemma_take_all(unknowns@);
        }
        while j < unknowns.len()
            invariant
                j <= unknowns.len(),
                forall|k: usize| #[trigger]
                    restricted_priors@.contains_key(k) <==> unknowns@.take(j as int).contains(
                        CardId(k),
                    ) && self@.prior_for(priors@, k) is Some,
                forall|k: usize| #[trigger]
                    restricted_priors@.contains_key(k) ==> Some(restricted_priors@[k]@)
                        == self@.prior_for(priors@, k),
            decreases unknowns.len() - j,
        {
            let c_id: CardId = unknowns[j];
            let ghost prev = restricted_priors@;
            match self.information.get(&c_id.0) {
                Some(card_info) => {
                    let restricted_prior = match priors.get(&c_id.0) {
                        Some(given_prior) => restrict_prior(given_prior, card_info),
                        None => {
                            let deck = deck_prior();
                            restrict_prior(&deck, card_info)
                        },
                    };
                    restricted_priors.insert(c_id.0, restricted_prior);
                },
                None => {
                    match priors.get(&c_id.0) {
                        Some(existing_prior) => {
                            restricted_priors.insert(c_id.0, existing_prior.clone());
                        },
                        None => {},
                    }
                },
            }
            proof {
                assert forall|k: usize| #[trigger]
                    restricted_priors@.contains_key(k) <==> unknowns@.take(j as int + 1).contains(
                        CardId(k),
                    ) && self@.prior_for(priors@, k) is Some by {
                    lemma_take_contains(unknowns@, j as int, CardId(k));
                    assert(prev.contains_key(k) <==> unknowns@.take(j as int).contains(CardId(k))
                        && self@.prior_for(priors@, k) is Some);
                }
                assert forall|k: usize| #[trigger]
                    restricted_priors@.contains_key(k) implies Some(restricted_priors@[k]@)
                    == self@.prior_for(priors@, k) by {
                    if k != c_id.0 {
                        assert(prev.contains_key(k));
                    }
                }
            }
            j = j + 1;
        }
        proof {
            lemma_take_all(unknowns@);
        }
        restricted_priors
    }

    /// What identifies the game to the observer whose view it is.
    pub fn fingerprint(&self) -> (fp: Fingerprint)
        requires
            self@.inv(),
        ensures
            fp@ == self@.fingerprint(),
    {
        let total: usize = self.next_card_id.0 + self.deck_size;
        let mut known_cards: Vec<(CardId, Card)> = Vec::new();
        let mut k: usize = 0;
        while k < total
            invariant
                k <= total,
                known_cards@ == known_faces(self.card_map@, k as int),
            decreases total - k,
        {
            match self.card_map.get(&k) {
                Some(c) => {
                    known_cards.push((CardId(k), *c));
                },
                None => {},
            }
            k = k + 1;
        }
        Fingerprint { known_cards, actions: clone_actions(&self.action_log) }
    }

    pub fn current_player(&self) -> (p: Player)
        ensures
            p == self@.current_turn,
    {
        self.current_turn
    }

    /// The clue tokens that are left.
    pub fn clues(&self) -> (n: u8)
        ensures
            n == self@.clues,
    {
        self.clues
    }

    /// The strikes so far.
    pub fn strikes(&self) -> (n: u8)
        ensures
            n == self@.strikes,
    {
        self.strikes
    }

    /// How many cards are still undrawn.
    pub fn deck_size(&self) -> (n: usize)
        ensures
            n == self@.deck_size,
    {
        self.deck_size
    }

    /// The player whose action emptied the deck, once it is empty.
    pub fn final_turn(&self) -> (p: Option<Player>)
        ensures
            p == self@.final_turn,
    {
        self.final_turn
    }

    /// The face of a card, if it is known.
    pub fn card(&self, id: CardId) -> (face: Option<Card>)
        ensures
            face is Some <==> self@.knows(id),
            face is Some ==> face.unwrap() == self@.face(id),
    {
        match self.card_map.get(&id.0) {
            Some(c) => Some(*c),
            None => None,
        }
    }

    /// The cards in a player's hand, oldest first.
    pub fn hand(&self, player: Player) -> (cards: Vec<CardId>)
        requires
            self@.inv(),
        ensures
            cards@ == self@.hand(player),
    {
        self.hands[player.index()].clone()
    }

    /// The top rank of a suit's pile.
    pub fn pile(&self, suit: Suit) -> (top: Option<Rank>)
        requires
            self@.inv(),
        ensures
            top == self@.pile(suit),
    {
        self.piles[suit.index()]
    }

    /// The cards that were played on a pile, in the order in which they were played.
    pub fn played_cards(&self) -> (cards: Vec<CardId>)
        ensures
            cards@ == self@.played_cards,
    {
        self.played_cards.clone()
    }

    /// The cards that were discarded or misplayed, in the order in which they fell.
    pub fn discarded_cards(&self) -> (cards: Vec<CardId>)
        ensures
            cards@ == self@.discarded_cards,
    {
        self.discarded_cards.clone()
    }

    /// What the clues have disclosed about a card, oldest first.
    pub fn disclosures(&self, id: CardId) -> (log: Vec<Information>)
        ensures
            log@ == self@.disclosed(id),
    {
        match self.information.get(&id.0) {
            Some(log) => log.clone(),
            None => Vec::new(),
        }
    }

    /// The record of the actions so far.
    pub fn action_log(&self) -> (log: Vec<CompletedAction>)
        ensures
            log@.map_values(|done: CompletedAction| done@) == self@.action_log,
    {
        clone_actions(&self.action_log)
    }

    /// Carries out an action of the current player by the rules, or refuses it and leaves
    /// the game as it was.
    pub fn act(&mut self, action: Action) -> (result: ActionResult)
        requires
            old(self)@.in_play(),
        ensures
            (final(self)@, result@) == old(self)@.step(action),
            final(self)@.inv(),
            result is Acted ==> final(self)@.in_play(),
            result is Acted && old(self)@.hands_held() ==> final(self)@.hands_held(),
            forall|c: Card| #[trigger] final(self)@.cards_of(c) == old(self)@.cards_of(c),
    {
        proof {
            lemma_step_progress(self@, action);
            if self@.step(action).1 is Acted && self@.hands_held() {
                lemma_step_held(self@, action);
            }
            assert forall|c: Card| #[trigger]
                self@.step(action).0.cards_of(c) == self@.cards_of(c) by {
                lemma_step_keeps_cards(self@, action, c);
            }
        }
        match action {
            Action::Discard(i) => self.discard(i),
            Action::Play(i) => self.play(i),
            Action::Clue(target, clue) => self.clue(target, clue),
        }
    }

    fn discard(&mut self, i: usize) -> (result: ActionResult)
        requires
            old(self)@.in_play(),
        ensures
            (final(self)@, result@) == old(self)@.discard(i),
    {
        let seat = self.current_turn.index();
        if i >= self.hands[seat].len() {
            return ActionResult::Illegal(IllegalAction::NoSuchCard);
        }
        if self.clues == 8 {
            return ActionResult::Illegal(IllegalAction::TooManyClues);
        }
        let c_id: CardId = self.hands[seat][i];
        let c = match self.card_map.get(&c_id.0) {
            Some(c) => *c,
            None => return ActionResult::Error(ActionError::UnknownCard),
        };
        self.take_card(i);
        self.discarded_cards.push(c_id);
        self.clues = self.clues + 1;
        self.conclude(CompletedAction::Discarded(i, c), true)
    }

    fn play(&mut self, i: usize) -> (result: ActionResult)
        requires
            old(self)@.in_play(),
        ensures
            (final(self)@, result@) == old(self)@.play(i),
    {
        let seat = self.current_turn.index();
        if i >= self.hands[seat].len() {
            return ActionResult::Illegal(IllegalAction::NoSuchCard);
        }
        let c_id: CardId = self.hands[seat][i];
        let c = match self.card_map.get(&c_id.0) {
            Some(c) => *c,
            None => return ActionResult::Error(ActionError::UnknownCard),
        };
        self.take_card(i);
        let suit_pile: Option<Rank> = self.piles[c.suit.index()];
        if c.rank.playable_on(suit_pile) {
            self.piles[c.suit.index()] = Some(c.rank);
            self.played_cards.push(c_id);
            if c.rank == Rank::Five && self.clues < 8 {
                self.clues = self.clues + 1;
            }
        } else {
            self.discarded_cards.push(c_id);
            self.strikes = self.strikes + 1;
            if self.strikes == 3 {
                return ActionResult::Finished(0);
            }
        }
        self.conclude(CompletedAction::Played(i, c), true)
    }

    fn clue(&mut self, target: Player, clue: Clue) -> (result: ActionResult)
        requires
            old(self)@.in_play(),
        ensures
            (final(self)@, result@) == old(self)@.clue(target, clue),
    {
        if target == self.current_turn {
            return ActionResult::Illegal(IllegalAction::CluedSelf);
        }
        if self.clues == 0 {
            return ActionResult::Illegal(IllegalAction::NoClues);
        }
        let seat = target.index();
        let ghost hand = self@.hand(target);
        let n: usize = self.hands[seat].len();
        let mut matching_cards: Vec<CardId> = Vec::new();
        let mut touched: Vec<bool> = Vec::new();
        let mut j: usize = 0;
        while j < n
            invariant
                j <= n,
                n == hand.len(),
                *self == *old(self),
                hand == self@.hand(target),
                target != self.current_turn,
                self.clues != 0,
                seat < self.hands.len(),
                self.hands[seat as int]@ == hand,
                touched.len() == j,
                self@.all_known(hand.take(j as int)),
                matching_cards@ == self@.matching(hand.take(j as int), clue),
                forall|k: int| 0 <= k < j ==> touched[k] == clue.touches(self@.face(hand[k])),
            decreases n - j,
        {
            let c_id: CardId = self.hands[seat][j];
            assert(hand.take(j as int + 1).drop_last() == hand.take(j as int));
            match self.card_map.get(&c_id.0) {
                Some(c) => {
                    let m = clue.matches(*c);
                    if m {
                        matching_cards.push(c_id);
                    }
                    touched.push(m);
                },
                None => {
                    assert(!self@.knows(hand[j as int]));
                    return ActionResult::Error(ActionError::UnknownCard);
                },
            }
            j = j + 1;
        }
        assert(hand.take(n as int) == hand);
        if matching_cards.len() == 0 {
            return ActionResult::Illegal(IllegalAction::NoMatchingCards);
        }
        let ghost before = self@;
        j = 0;
        while j < n
            invariant
                j <= n,
                n == hand.len(),
                touched.len() == n,
                seat < self.hands.len(),
                self.hands[seat as int]@ == hand,
                forall|k: int| 0 <= k < n ==> touched[k] == clue.touches(before.face(hand[k])),
                self@ == (GameView {
                    information: before.disclose(hand.take(j as int), clue),
                    ..before
                }),
            decreases n - j,
        {
            let c_id: CardId = self.hands[seat][j];
            assert(hand.take(j as int + 1).drop_last() == hand.take(j as int));
            let mut log: Vec<Information> = match self.information.remove(&c_id.0) {
                Some(log) => log,
                None => Vec::new(),
            };
            log.push(Information(clue, touched[j]));
            self.information.insert(c_id.0, log);
            assert(self@.information =~= before.disclose(hand.take(j as int + 1), clue));
            j = j + 1;
        }
        self.clues = self.clues - 1;
        self.conclude(CompletedAction::Clued(target, clue, matching_cards), false)
    }

    /// Takes the current player's card at position `i` out of the hand and forgets what was
    /// disclosed about it.
    fn take_card(&mut self, i: usize)
        requires
            old(self)@.hands.len() == 4,
            i < old(self)@.hand(old(self)@.current_turn).len(),
        ensures
            final(self)@ == old(self)@.take_card(i as int),
    {
        let seat = self.current_turn.index();
        let c_id: CardId = self.hands[seat].remove(i);
        self.information.remove(&c_id.0);
        assert(self@.hands =~= old(self)@.take_card(i as int).hands);
        assert(self@.information =~= old(self)@.take_card(i as int).information);
    }

    /// Ends the game if this was the final turn; else lets the player draw, where the action
    /// calls for it, passes the turn on and records the action.
    fn conclude(&mut self, done: CompletedAction, draws: bool) -> (result: ActionResult)
        requires
            old(self)@.hands.len() == 4,
            old(self)@.piles.len() == 5,
            old(self)@.next_card_id + old(self)@.deck_size <= usize::MAX,
        ensures
            (final(self)@, result@) == old(self)@.conclude(done@, draws),
    {
        if self.final_turn == Some(self.current_turn) {
            return ActionResult::Finished(self.total_score());
        }
        if draws && self.deck_size > 0 {
            let seat = self.current_turn.index();
            self.hands[seat].push(self.next_card_id);
            self.next_card_id.increment();
            self.deck_size = self.deck_size - 1;
            if self.deck_size == 0 {
                self.final_turn = Some(self.current_turn);
            }
            assert(self@.hands =~= old(self)@.draw().hands);
        }
        self.current_turn = self.current_turn.next();
        let record = done.clone();
        self.action_log.push(record);
        assert(self@.action_log =~= old(self)@.action_log.push(done@));
        ActionResult::Acted(done)
    }

    /// The sum of the pile heights.
    fn total_score(&self) -> (score: i8)
        requires
            self@.piles.len() == 5,
        ensures
            score == self@.score(),
            0 <= score <= 25,
    {
        let mut total: i8 = 0;
        let mut s: usize = 0;
        while s < 5
            invariant
                s <= 5,
                self.piles.len() == 5,
                0 <= total <= 5 * s,
                total == (if s > 0 { pile_height(self.piles[0]) } else { 0 })
                    + (if s > 1 { pile_height(self.piles[1]) } else { 0 })
                    + (if s > 2 { pile_height(self.piles[2]) } else { 0 })
                    + (if s > 3 { pile_height(self.piles[3]) } else { 0 })
                    + (if s > 4 { pile_height(self.piles[4]) } else { 0 }),
            decreases 5 - s,
        {
            total = total + match self.piles[s] {
                None => 0,
                Some(r) => r.number() as i8,
            };
            s = s + 1;
        }
        total
    }
}

/// The cards that `remaining_card_counts` counts are as many as the game's model says.
proof fn lemma_remaining_counted(s: GameView, remaining: &CardCounts, k: int)
    requires
        s.within_deck(),
        forall|c: Card| remaining.count(c) == c.rank.copies() - s.seen(c),
    ensures
        remaining.total_below(k) == s.remaining_below(k),
    decreases k,
{
    if k > 0 {
        lemma_remaining_counted(s, remaining, k - 1);
    }
}

/// The choices that were put together for the cards of unknown face are usable, and there,
/// exactly as the game's model says.
proof fn lemma_priors_agree(
    s: GameView,
    priors: Map<usize, Vec<WeightedCard>>,
    restricted_priors: Map<usize, Vec<WeightedCard>>,
)
    requires
        forall|k: usize| #[trigger]
            restricted_priors.contains_key(k) <==> s.unknown_cards().contains(CardId(k))
                && s.prior_for(priors, k) is Some,
        forall|k: usize| #[trigger]
            restricted_priors.contains_key(k) ==> Some(restricted_priors[k]@) == s.prior_for(
                priors,
                k,
            ),
    ensures
        has_prior(s.unknown_cards(), restricted_priors) == s.has_prior(priors),
        has_unusable_prior(s.unknown_cards(), restricted_priors) == s.has_unusable_prior(priors),
{
    let unknowns = s.unknown_cards();
    if has_prior(unknowns, restricted_priors) {
        let j = choose|j: int|
            0 <= j < unknowns.len() && restricted_priors.contains_key((#[trigger] unknowns[j]).0);
        assert(s.prior_for(priors, unknowns[j].0) is Some);
    }
    if s.has_prior(priors) {
        let j = choose|j: int|
            0 <= j < unknowns.len() && s.prior_for(priors, (#[trigger] unknowns[j]).0) is Some;
        assert(unknowns.contains(unknowns[j]));
        assert(CardId(unknowns[j].0) == unknowns[j]);
        assert(restricted_priors.contains_key(unknowns[j].0));
    }
    if has_unusable_prior(unknowns, restricted_priors) {
        let j = choose|j: int|
            0 <= j < unknowns.len() && restricted_priors.contains_key((#[trigger] unknowns[j]).0)
                && !usable(restricted_priors[unknowns[j].0]@);
        assert(Some(restricted_priors[unknowns[j].0]@) == s.prior_for(priors, unknowns[j].0));
    }
    if s.has_unusable_prior(priors) {
        let j = choose|j: int|
            0 <= j < unknowns.len() && (match s.prior_for(priors, (#[trigger] unknowns[j]).0) {
                Some(choices) => !usable(choices),
                None => false,
            });
        assert(unknowns.contains(unknowns[j]));
        assert(CardId(unknowns[j].0) == unknowns[j]);
        assert(restricted_priors.contains_key(unknowns[j].0));
        assert(Some(restricted_priors[unknowns[j].0]@) == s.prior_for(priors, unknowns[j].0));
    }
}

} // verus!
