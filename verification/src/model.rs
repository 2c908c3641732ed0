//! The mathematical model of a game and the rules as functions on it, with what the rules
//! keep true.

use vstd::prelude::*;
use crate::conservation::{face_count, pile_count};
use crate::holders::{holders, lemma_holders_submap, lemma_holders_union};
use crate::places::{
    lemma_same_places, lemma_step_keeps_piles, lemma_step_keeps_places, piles_match, placed,
    places_of,
};
use crate::priors::{agrees_with_all, deck_choices, restricted};
use crate::random::{usable, WeightedCard};
use crate::seq_facts::{lemma_concat_contains, lemma_push_contains};
use crate::hanabi::{
    pile_height, Action, ActionError, Card, CardId, Clue, IllegalAction, Information, Player, Rank,
    Suit,
};

verus! {

/// The record of an action that was carried out, with what it revealed.
pub enum Completed {
    Discarded(usize, Card),
    Played(usize, Card),
    Clued(Player, Clue, Seq<CardId>),
}

/// What an action led to.
pub enum Outcome {
    Acted(Completed),
    Illegal(IllegalAction),
    Error(ActionError),
    Finished(i8),
}

/// The game as one observer holds it: every face the observer knows, where each card lies,
/// the counters, what the clues have disclosed, and the record of the actions so far.
pub struct GameView {
    /// The known faces, by card number.
    pub card_map: Map<usize, Card>,
    /// How many cards are still undrawn.
    pub deck_size: nat,
    /// The number of the card that is drawn next.
    pub next_card_id: nat,
    pub current_turn: Player,
    /// The player whose action emptied the deck, once it is empty.
    pub final_turn: Option<Player>,
    /// The hands by seat, oldest card first.
    pub hands: Seq<Seq<CardId>>,
    pub played_cards: Seq<CardId>,
    pub discarded_cards: Seq<CardId>,
    /// The top rank of each suit's pile, by the suit's position.
    pub piles: Seq<Option<Rank>>,
    pub clues: nat,
    pub strikes: nat,
    /// What the clues have disclosed about each card in hand, by card number, oldest first.
    pub information: Map<usize, Seq<Information>>,
    pub action_log: Seq<Completed>,
}

/// What identifies a game to one observer: the faces that the observer knows, in the order
/// of the card numbers, and the record of the actions.
pub struct FingerprintView {
    pub known_cards: Seq<(CardId, Card)>,
    pub actions: Seq<Completed>,
}

/// The known faces of the cards numbered below `n`, each with its card, in the order of the
/// card numbers.
pub open spec fn known_faces(faces: Map<usize, Card>, n: int) -> Seq<(CardId, Card)>
    decreases n,
{
    if n <= 0 {
        Seq::empty()
    } else {
        let rest = known_faces(faces, n - 1);
        let k = (n - 1) as usize;
        if faces.contains_key(k) {
            rest.push((CardId(k), faces[k]))
        } else {
            rest
        }
    }
}

/// The clue with a given number: the five suits come first, then the five ranks.
pub open spec fn clue_at(k: int) -> Clue {
    if k < 5 {
        Clue::Suit(Suit::at(k))
    } else {
        Clue::Rank(Rank::of_value(k - 4))
    }
}

/// The number of a clue.
pub open spec fn clue_number(clue: Clue) -> int {
    match clue {
        Clue::Suit(s) => s.ordinal(),
        Clue::Rank(r) => r.value() + 4,
    }
}

/// The four hands that are dealt from the top of the deck, round the table.
pub open spec fn dealt_hands() -> Seq<Seq<CardId>> {
    seq![
        seq![CardId(0), CardId(4), CardId(8), CardId(12)],
        seq![CardId(1), CardId(5), CardId(9), CardId(13)],
        seq![CardId(2), CardId(6), CardId(10), CardId(14)],
        seq![CardId(3), CardId(7), CardId(11), CardId(15)],
    ]
}

impl GameView {
    /// The game before the first action, with every face of `deck` known.
    pub open spec fn start(deck: Seq<Card>) -> GameView {
        GameView {
            card_map: Map::new(|k: usize| k < deck.len(), |k: usize| deck[k as int]),
            deck_size: (deck.len() - 16) as nat,
            next_card_id: 16,
            current_turn: Player::Alice,
            final_turn: None,
            hands: dealt_hands(),
            played_cards: Seq::empty(),
            discarded_cards: Seq::empty(),
            piles: Seq::new(5, |s: int| None),
            clues: 8,
            strikes: 0,
            information: Map::empty(),
            action_log: Seq::empty(),
        }
    }

    pub open spec fn hand(self, p: Player) -> Seq<CardId> {
        self.hands[p.seat()]
    }

    pub open spec fn pile(self, s: Suit) -> Option<Rank> {
        self.piles[s.ordinal()]
    }

    pub open spec fn knows(self, id: CardId) -> bool {
        self.card_map.contains_key(id.0)
    }

    pub open spec fn face(self, id: CardId) -> Card {
        self.card_map[id.0]
    }

    /// How many card numbers the game has: those given out and those still undrawn.
    pub open spec fn total_cards(self) -> nat {
        self.next_card_id + self.deck_size
    }

    /// The sum of the pile heights.
    pub open spec fn score(self) -> int {
        pile_height(self.piles[0]) + pile_height(self.piles[1]) + pile_height(self.piles[2])
            + pile_height(self.piles[3]) + pile_height(self.piles[4])
    }

    /// What has been disclosed about a card; nothing if no clue ever touched its hand.
    pub open spec fn disclosed(self, id: CardId) -> Seq<Information> {
        if self.information.contains_key(id.0) {
            self.information[id.0]
        } else {
            Seq::empty()
        }
    }

    pub open spec fn all_known(self, ids: Seq<CardId>) -> bool {
        forall|j: int| 0 <= j < ids.len() ==> self.knows(#[trigger] ids[j])
    }

    /// The cards among `ids` that `clue` matches, in their order.
    pub open spec fn matching(self, ids: Seq<CardId>, clue: Clue) -> Seq<CardId>
        decreases ids.len(),
    {
        if ids.len() == 0 {
            Seq::empty()
        } else {
            let rest = self.matching(ids.drop_last(), clue);
            if clue.touches(self.face(ids.last())) {
                rest.push(ids.last())
            } else {
                rest
            }
        }
    }

    /// The disclosures after `clue` was given to the cards `ids`: each of them, matched or
    /// not, has one more entry.
    pub open spec fn disclose(self, ids: Seq<CardId>, clue: Clue) -> Map<usize, Seq<Information>>
        decreases ids.len(),
    {
        if ids.len() == 0 {
            self.information
        } else {
            let rest = self.disclose(ids.drop_last(), clue);
            let id = ids.last();
            let before = if rest.contains_key(id.0) {
                rest[id.0]
            } else {
                Seq::empty()
            };
            rest.insert(id.0, before.push(Information(clue, clue.touches(self.face(id)))))
        }
    }

    /// The current player's card at position `i` leaves the hand, and with it what was
    /// disclosed about it.
    pub open spec fn take_card(self, i: int) -> GameView {
        let seat = self.current_turn.seat();
        let id = self.hands[seat][i];
        GameView {
            hands: self.hands.update(seat, self.hands[seat].remove(i)),
            information: self.information.remove(id.0),
            ..self
        }
    }

    /// The current player draws the next card, if one is left. The draw that empties the deck
    /// marks the current player as the one whose next turn ends the game.
    pub open spec fn draw(self) -> GameView {
        if self.deck_size > 0 {
            let seat = self.current_turn.seat();
            GameView {
                hands: self.hands.update(
                    seat,
                    self.hands[seat].push(CardId(self.next_card_id as usize)),
                ),
                next_card_id: self.next_card_id + 1,
                deck_size: (self.deck_size - 1) as nat,
                final_turn: if self.deck_size == 1 {
                    Some(self.current_turn)
                } else {
                    self.final_turn
                },
                ..self
            }
        } else {
            self
        }
    }

    /// The turn passes on and the action is recorded.
    pub open spec fn end_turn(self, done: Completed) -> GameView {
        GameView {
            current_turn: self.current_turn.successor(),
            action_log: self.action_log.push(done),
            ..self
        }
    }

    /// What follows once an action has taken its effect `self`: the end of the game if the
    /// current player is the one marked for the final turn, else a draw where `draws` says so,
    /// and the next player's turn.
    pub open spec fn conclude(self, done: Completed, draws: bool) -> (GameView, Outcome) {
        if self.final_turn == Some(self.current_turn) {
            (self, Outcome::Finished(self.score() as i8))
        } else if draws {
            (self.draw().end_turn(done), Outcome::Acted(done))
        } else {
            (self.end_turn(done), Outcome::Acted(done))
        }
    }

    pub open spec fn discard(self, i: usize) -> (GameView, Outcome) {
        let hand = self.hand(self.current_turn);
        if i >= hand.len() {
            (self, Outcome::Illegal(IllegalAction::NoSuchCard))
        } else if self.clues == 8 {
            (self, Outcome::Illegal(IllegalAction::TooManyClues))
        } else if !self.knows(hand[i as int]) {
            (self, Outcome::Error(ActionError::UnknownCard))
        } else {
            let id = hand[i as int];
            let after = GameView {
                discarded_cards: self.discarded_cards.push(id),
                clues: self.clues + 1,
                ..self.take_card(i as int)
            };
            after.conclude(Completed::Discarded(i, self.face(id)), true)
        }
    }

    pub open spec fn play(self, i: usize) -> (GameView, Outcome) {
        let hand = self.hand(self.current_turn);
        if i >= hand.len() {
            (self, Outcome::Illegal(IllegalAction::NoSuchCard))
        } else if !self.knows(hand[i as int]) {
            (self, Outcome::Error(ActionError::UnknownCard))
        } else {
            let id = hand[i as int];
            let c = self.face(id);
            let taken = self.take_card(i as int);
            if c.rank.fits(self.pile(c.suit)) {
                let after = GameView {
                    piles: self.piles.update(c.suit.ordinal(), Some(c.rank)),
                    played_cards: self.played_cards.push(id),
                    clues: if c.rank == Rank::Five && self.clues < 8 {
                        self.clues + 1
                    } else {
                        self.clues
                    },
                    ..taken
                };
                after.conclude(Completed::Played(i, c), true)
            } else {
                let after = GameView {
                    discarded_cards: self.discarded_cards.push(id),
                    strikes: self.strikes + 1,
                    ..taken
                };
                if after.strikes == 3 {
                    (after, Outcome::Finished(0))
                } else {
                    after.conclude(Completed::Played(i, c), true)
                }
            }
        }
    }

    pub open spec fn clue(self, target: Player, clue: Clue) -> (GameView, Outcome) {
        let hand = self.hand(target);
        if target == self.current_turn {
            (self, Outcome::Illegal(IllegalAction::CluedSelf))
        } else if self.clues == 0 {
            (self, Outcome::Illegal(IllegalAction::NoClues))
        } else if !self.all_known(hand) {
            (self, Outcome::Error(ActionError::UnknownCard))
        } else if self.matching(hand, clue).len() == 0 {
            (self, Outcome::Illegal(IllegalAction::NoMatchingCards))
        } else {
            let after = GameView {
                information: self.disclose(hand, clue),
                clues: (self.clues - 1) as nat,
                ..self
            };
            after.conclude(Completed::Clued(target, clue, self.matching(hand, clue)), false)
        }
    }

    /// The rules: the game after `action`, and what the action led to. An action that is
    /// refused, as illegal or because a face it needs is not known, leaves the game as it was.
    pub open spec fn step(self, action: Action) -> (GameView, Outcome) {
        match action {
            Action::Discard(i) => self.discard(i),
            Action::Play(i) => self.play(i),
            Action::Clue(target, clue) => self.clue(target, clue),
        }
    }

    /// Whether a card lies face up to `p`: in another player's hand, or among the played or
    /// the discarded cards.
    pub open spec fn visible_to(self, p: Player, id: CardId) -> bool {
        ||| exists|q: int|
            0 <= q < self.hands.len() && q != p.seat() && (#[trigger] self.hands[q]).contains(id)
        ||| self.played_cards.contains(id)
        ||| self.discarded_cards.contains(id)
    }

    /// The game as `p` sees it: the same in all but the faces, of which those remain that
    /// were known and lie face up to `p`.
    pub open spec fn seen_by(self, p: Player) -> GameView {
        GameView {
            card_map: self.card_map.restrict(Set::new(|k: usize| self.visible_to(p, CardId(k)))),
            ..self
        }
    }

    /// The cards among `ids` whose face is not known, in their order.
    pub open spec fn missing(self, ids: Seq<CardId>) -> Seq<CardId>
        decreases ids.len(),
    {
        if ids.len() == 0 {
            Seq::empty()
        } else {
            let rest = self.missing(ids.drop_last());
            if self.knows(ids.last()) {
                rest
            } else {
                rest.push(ids.last())
            }
        }
    }

    /// The cards that are still to be drawn, in the order in which they will be drawn.
    pub open spec fn undrawn(self) -> Seq<CardId> {
        Seq::new(self.deck_size, |j: int| CardId((self.next_card_id + j) as usize))
    }

    /// The cards of unknown face in the hands of the first `seats` seats, seat by seat.
    pub open spec fn missing_in_hands(self, seats: int) -> Seq<CardId>
        decreases seats,
    {
        if seats <= 0 {
            Seq::empty()
        } else {
            self.missing_in_hands(seats - 1) + self.missing(self.hands[seats - 1])
        }
    }

    /// Every card of unknown face that is in a hand or still to be drawn: the hands seat by
    /// seat, then the deck.
    pub open spec fn unknown_cards(self) -> Seq<CardId> {
        self.missing_in_hands(self.hands.len() as int) + self.missing(self.undrawn())
    }

    /// The moves with the cards at the first `n` positions of the current player's hand: for
    /// each position a discard, unless all clue tokens are there, and a play.
    pub open spec fn card_moves(self, n: int) -> Seq<Action>
        decreases n,
    {
        if n <= 0 {
            Seq::empty()
        } else {
            let rest = self.card_moves(n - 1);
            let i = (n - 1) as usize;
            if self.clues < 8 {
                rest.push(Action::Discard(i)).push(Action::Play(i))
            } else {
                rest.push(Action::Play(i))
            }
        }
    }

    /// Whether `clue` matches a card of known face among `ids`.
    pub open spec fn clue_applies(self, ids: Seq<CardId>, clue: Clue) -> bool {
        exists|j: int|
            0 <= j < ids.len() && self.knows(#[trigger] ids[j]) && clue.touches(self.face(ids[j]))
    }

    /// Those of the first `k` clues, given to `target`, that match a card of known face in
    /// the target's hand.
    pub open spec fn clue_moves_to(self, target: Player, k: int) -> Seq<Action>
        decreases k,
    {
        if k <= 0 {
            Seq::empty()
        } else {
            let rest = self.clue_moves_to(target, k - 1);
            if self.clue_applies(self.hand(target), clue_at(k - 1)) {
                rest.push(Action::Clue(target, clue_at(k - 1)))
            } else {
                rest
            }
        }
    }

    /// The clues that the current player can give to the players in the first `seats` seats.
    pub open spec fn clue_moves(self, seats: int) -> Seq<Action>
        decreases seats,
    {
        if seats <= 0 {
            Seq::empty()
        } else {
            let rest = self.clue_moves(seats - 1);
            let target = Player::at_seat(seats - 1);
            if target == self.current_turn {
                rest
            } else {
                rest + self.clue_moves_to(target, 10)
            }
        }
    }

    /// The actions open to the current player: the moves with each card of the hand, then,
    /// if a clue token is left, the clues to the other players, seat by seat.
    pub open spec fn legal_actions(self) -> Seq<Action> {
        let cards = self.card_moves(self.hand(self.current_turn).len() as int);
        if self.clues > 0 {
            cards + self.clue_moves(4)
        } else {
            cards
        }
    }

    /// Whether the rules offer `action`: a play of a card of the hand; a discard of one,
    /// unless all clue tokens are there; or, if a token is left, a clue to another player
    /// that matches a card of known face in that player's hand.
    pub open spec fn offers(self, action: Action) -> bool {
        match action {
            Action::Discard(i) => i < self.hand(self.current_turn).len() && self.clues < 8,
            Action::Play(i) => i < self.hand(self.current_turn).len(),
            Action::Clue(target, clue) => self.clues > 0 && target != self.current_turn
                && self.clue_applies(self.hand(target), clue),
        }
    }

    /// What identifies the game to its observer.
    pub open spec fn fingerprint(self) -> FingerprintView {
        FingerprintView {
            known_cards: known_faces(self.card_map, self.total_cards() as int),
            actions: self.action_log,
        }
    }

    /// The choices from which the face of the card `k` is drawn: what the card's prior offers,
    /// or the faces of a full deck if the card has no prior, as far as it agrees with what
    /// was disclosed about the card. A card about which nothing was disclosed has the choices
    /// of its prior, and none without a prior.
    pub open spec fn prior_for(self, priors: Map<usize, Vec<WeightedCard>>, k: usize) -> Option<
        Seq<WeightedCard>,
    > {
        if self.information.contains_key(k) {
            Some(
                restricted(
                    if priors.contains_key(k) {
                        priors[k]@
                    } else {
                        deck_choices(25)
                    },
                    self.information[k],
                ),
            )
        } else if priors.contains_key(k) {
            Some(priors[k]@)
        } else {
            None
        }
    }

    /// Whether some card of unknown face has choices to draw its face from.
    pub open spec fn has_prior(self, priors: Map<usize, Vec<WeightedCard>>) -> bool {
        exists|j: int|
            0 <= j < self.unknown_cards().len() && self.prior_for(
                priors,
                (#[trigger] self.unknown_cards()[j]).0,
            ) is Some
    }

    /// Whether some card of unknown face has choices from which nothing can be drawn.
    pub open spec fn has_unusable_prior(self, priors: Map<usize, Vec<WeightedCard>>) -> bool {
        exists|j: int|
            0 <= j < self.unknown_cards().len() && (match self.prior_for(
                priors,
                (#[trigger] self.unknown_cards()[j]).0,
            ) {
                Some(choices) => !usable(choices),
                None => false,
            })
    }

    /// How many cards of a full deck are not among the known faces, counting the first `k`
    /// faces only.
    pub open spec fn remaining_below(self, k: int) -> int
        decreases k,
    {
        if k <= 0 {
            0
        } else {
            self.remaining_below(k - 1) + Card::at(k - 1).rank.copies() - self.seen(Card::at(k - 1))
        }
    }

    /// How many cards of a full deck are not among the known faces.
    pub open spec fn remaining_total(self) -> int {
        self.remaining_below(25)
    }

    /// How many cards are known to have the face `c`.
    pub open spec fn seen(self, c: Card) -> nat {
        holders(self.card_map, c).len()
    }

    /// No face is known of more cards than a deck holds of it.
    pub open spec fn within_deck(self) -> bool {
        forall|c: Card| #[trigger] self.seen(c) <= c.rank.copies()
    }

    /// Every disclosure about a card whose face is known is true of that face.
    pub open spec fn disclosures_hold(self) -> bool {
        forall|k: usize, j: int|
            self.information.contains_key(k) && self.card_map.contains_key(k) && 0 <= j
                < self.information[k].len() ==> (#[trigger] self.information[k][j]).agrees_with(
                self.card_map[k],
            )
    }

    /// What was disclosed about a card, of known face or not, is true of some face.
    pub open spec fn disclosures_possible(self) -> bool {
        forall|k: usize| #[trigger]
            self.information.contains_key(k) ==> exists|c: Card|
                agrees_with_all(self.information[k], c)
    }

    /// What holds of every game that was started by dealing and continued by the rules:
    /// the counters are in their bounds, every card is in exactly one place, the played
    /// cards are those on the piles, and what was disclosed is true.
    pub open spec fn inv(self) -> bool {
        &&& self.bounds()
        &&& placed(self)
        &&& piles_match(self)
    }

    /// The bounds of the counters and of the card numbers, and the truth of what was
    /// disclosed.
    pub open spec fn bounds(self) -> bool {
        &&& self.hands.len() == 4
        &&& self.piles.len() == 5
        &&& forall|p: int| 0 <= p < 4 ==> (#[trigger] self.hands[p]).len() <= 4
        &&& self.clues <= 8
        &&& self.strikes <= 3
        &&& self.next_card_id + self.deck_size <= usize::MAX
        &&& (self.final_turn is Some ==> self.deck_size == 0)
        &&& self.hands[0].len() + self.hands[1].len() + self.hands[2].len() + self.hands[3].len()
            + self.played_cards.len() + self.discarded_cards.len() == self.next_card_id
        &&& forall|p: int, j: int|
            0 <= p < 4 && 0 <= j < self.hands[p].len() ==> (#[trigger] self.hands[p][j]).0
                < self.next_card_id
        &&& forall|j: int|
            0 <= j < self.played_cards.len() ==> (#[trigger] self.played_cards[j]).0
                < self.next_card_id && self.knows(self.played_cards[j])
        &&& forall|j: int|
            0 <= j < self.discarded_cards.len() ==> (#[trigger] self.discarded_cards[j]).0
                < self.next_card_id && self.knows(self.discarded_cards[j])
        &&& self.card_map.dom().finite()
        &&& forall|k: usize| #[trigger] self.card_map.contains_key(k) ==> k < self.total_cards()
        &&& self.disclosures_hold()
        &&& self.disclosures_possible()
    }

    /// How many cards the hands hold together.
    pub open spec fn cards_in_hands(self) -> nat {
        self.hands[0].len() + self.hands[1].len() + self.hands[2].len() + self.hands[3].len()
    }

    /// A bound on the actions that can still be carried out: every discard and every play
    /// takes a card out of the hands and the deck together and gives back at most one clue
    /// token; every clue spends a token.
    pub open spec fn moves_left(self) -> nat {
        2 * (self.deck_size + self.cards_in_hands()) + self.clues
    }

    /// A game that is still going: no third strike has fallen.
    pub open spec fn in_play(self) -> bool {
        self.inv() && self.strikes < 3
    }

    /// Whether a player holds what a player of a game that was dealt four cards each holds:
    /// four cards while the deck lasts; and once it is empty and the final round has begun,
    /// four cards until the player's last turn and three at least after it.
    pub open spec fn holds_cards(self, p: Player) -> bool {
        &&& self.deck_size > 0 ==> self.hand(p).len() == 4
        &&& self.final_turn matches Some(marked) ==> self.hand(p).len() >= 3 && (seats_after(
            marked,
            p,
        ) == 0 || (seats_after(marked, self.current_turn) != 0 && seats_after(marked, p)
            >= seats_after(marked, self.current_turn)) ==> self.hand(p).len() == 4)
    }

    /// Whether every player holds what a player of a game that was dealt four cards each
    /// holds.
    pub open spec fn hands_held(self) -> bool {
        &&& self.holds_cards(Player::Alice)
        &&& self.holds_cards(Player::Bob)
        &&& self.holds_cards(Player::Cathy)
        &&& self.holds_cards(Player::Dave)
    }

    /// Whether the game will end by its final round: cards are left to draw, or the last was
    /// drawn.
    pub open spec fn ends_by_final_round(self) -> bool {
        self.deck_size > 0 || self.final_turn is Some
    }
}

/// How many seats after the seat of `from` the seat of `p` comes, round the table.
pub open spec fn seats_after(from: Player, p: Player) -> int {
    (p.seat() - from.seat() + 4) % 4
}

/// Whether an action moves a card: whether it is a discard or a play.
pub open spec fn moves_card(action: Action) -> bool {
    !(action is Clue)
}

/// What an action that is carried out does to the hands, the deck and the turn: the turn
/// passes on; the other hands stay; the hand of the player who acted loses a card to a
/// discard or a play and gains one while the deck lasts; and the draw of the last card marks
/// the final round.
proof fn lemma_step_summary(s: GameView, action: Action)
    requires
        s.in_play(),
        s.step(action).1 is Acted,
    ensures
        s.step(action).0.current_turn == s.current_turn.successor(),
        forall|p: Player| p != s.current_turn ==> #[trigger] s.step(action).0.hand(p) == s.hand(p),
        s.step(action).0.hand(s.current_turn).len() == s.hand(s.current_turn).len() - (if moves_card(
            action,
        ) && s.deck_size == 0 {
            1int
        } else {
            0int
        }),
        s.step(action).0.deck_size == s.deck_size - (if moves_card(action) && s.deck_size > 0 {
            1int
        } else {
            0int
        }),
        s.step(action).0.final_turn == (if moves_card(action) && s.deck_size == 1 {
            Some(s.current_turn)
        } else {
            s.final_turn
        }),
        s.final_turn != Some(s.current_turn),
{
    match action {
        Action::Discard(i) => {},
        Action::Play(i) => {},
        Action::Clue(_, _) => {},
    }
}

proof fn lemma_step_holds(s: GameView, action: Action, p: Player)
    requires
        s.in_play(),
        s.hands_held(),
        s.step(action).1 is Acted,
    ensures
        s.step(action).0.holds_cards(p),
{
    lemma_step_summary(s, action);
    assert(s.holds_cards(p));
    assert(s.holds_cards(s.current_turn));
}

/// An action that is carried out leaves the hands as the hands of a game that was dealt four
/// cards each are, and a game that will end by its final round will still do so.
pub proof fn lemma_step_held(s: GameView, action: Action)
    requires
        s.in_play(),
        s.hands_held(),
        s.step(action).1 is Acted,
    ensures
        s.step(action).0.hands_held(),
        s.ends_by_final_round() ==> s.step(action).0.ends_by_final_round(),
{
    lemma_step_summary(s, action);
    lemma_step_holds(s, action, Player::Alice);
    lemma_step_holds(s, action, Player::Bob);
    lemma_step_holds(s, action, Player::Cathy);
    lemma_step_holds(s, action, Player::Dave);
}

/// The player to move in a game that will end by its final round holds four cards and so
/// has an action to choose.
pub proof fn lemma_held_can_act(s: GameView)
    requires
        s.inv(),
        s.hands_held(),
        s.ends_by_final_round(),
    ensures
        s.hand(s.current_turn).len() == 4,
        s.legal_actions().len() > 0,
{
    assert(s.holds_cards(s.current_turn));
    lemma_legal_actions(s, Action::Play(0));
}

/// No action changes a face. An action that is carried out leaves the game going and
/// brings its end nearer; the score of a game that ends is between 0 and 25.
pub proof fn lemma_step_progress(s: GameView, action: Action)
    requires
        s.in_play(),
    ensures
        s.step(action).0.inv(),
        s.step(action).0.card_map == s.card_map,
        s.step(action).0.total_cards() == s.total_cards(),
        s.within_deck() ==> s.step(action).0.within_deck(),
        s.step(action).1 is Acted ==> s.step(action).0.in_play() && s.step(action).0.moves_left()
            < s.moves_left(),
        s.step(action).1 matches Outcome::Finished(score) ==> 0 <= score <= 25,
{
    lemma_step_inv(s, action);
    if s.within_deck() {
        assert forall|c: Card| #[trigger] s.step(action).0.seen(c) <= c.rank.copies() by {
            assert(s.seen(c) <= c.rank.copies());
        }
    }
}

/// The rules keep what holds of every game.
pub proof fn lemma_step_inv(s: GameView, action: Action)
    requires
        s.in_play(),
    ensures
        s.step(action).0.inv(),
{
    let t = s.step(action).0;
    lemma_step_bounds(s, action);
    assert forall|id: CardId| #[trigger]
        places_of(t, id) == (if id.0 < t.total_cards() {
            1nat
        } else {
            0nat
        }) by {
        lemma_step_keeps_places(s, action, id);
        assert(places_of(s, id) == (if id.0 < s.total_cards() {
            1nat
        } else {
            0nat
        }));
    }
    assert forall|c: Card| #[trigger]
        face_count(t.card_map, t.played_cards, c) == pile_count(t.piles, c) by {
        lemma_step_keeps_piles(s, action, c);
    }
}

proof fn lemma_step_bounds(s: GameView, action: Action)
    requires
        s.bounds(),
        s.strikes < 3,
    ensures
        s.step(action).0.bounds(),
        s.step(action).0.total_cards() == s.total_cards(),
{
    match action {
        Action::Discard(i) => lemma_discard_inv(s, i),
        Action::Play(i) => lemma_play_inv(s, i),
        Action::Clue(target, clue) => lemma_clue_inv(s, target, clue),
    }
}

/// Where less was disclosed, what was disclosed is still true of some face.
proof fn lemma_possible_kept(s: GameView, t: GameView)
    requires
        s.disclosures_possible(),
        t.information.submap_of(s.information),
    ensures
        t.disclosures_possible(),
{
    assert forall|k: usize| #[trigger] t.information.contains_key(k) implies exists|c: Card|
        agrees_with_all(t.information[k], c) by {
        assert(s.information.contains_key(k));
        let c = choose|c: Card| agrees_with_all(s.information[k], c);
        assert(agrees_with_all(t.information[k], c));
    }
}

/// What follows an action's effect keeps what holds of every game, if the hand has room
/// for the card that is drawn.
proof fn lemma_conclude_inv(s: GameView, done: Completed, draws: bool)
    requires
        s.bounds(),
        draws && s.deck_size > 0 ==> s.hand(s.current_turn).len() < 4,
    ensures
        s.conclude(done, draws).0.bounds(),
{
    if s.final_turn == Some(s.current_turn) {
    } else if draws {
        let drawn = s.draw();
        assert(drawn.bounds()) by {
            lemma_possible_kept(s, drawn);
        }
        lemma_possible_kept(drawn, drawn.end_turn(done));
    } else {
        lemma_possible_kept(s, s.end_turn(done));
    }
}

/// A card that has left the current player's hand for the played or the discarded cards
/// leaves a game as the rules make them, with room in the hand.
proof fn lemma_moved_inv(s: GameView, i: int, t: GameView)
    requires
        s.bounds(),
        0 <= i < s.hand(s.current_turn).len(),
        s.knows(s.hand(s.current_turn)[i]),
        t.clues <= 8,
        t.strikes <= 3,
        t.piles.len() == 5,
        ({
            ||| t == (GameView {
                discarded_cards: s.discarded_cards.push(s.hand(s.current_turn)[i]),
                clues: t.clues,
                strikes: t.strikes,
                ..s.take_card(i)
            })
            ||| t == (GameView {
                played_cards: s.played_cards.push(s.hand(s.current_turn)[i]),
                clues: t.clues,
                piles: t.piles,
                ..s.take_card(i)
            })
        }),
    ensures
        t.bounds(),
        t.hand(t.current_turn).len() < 4,
{
    lemma_possible_kept(s, t);
    let seat = s.current_turn.seat();
    assert forall|p: int, j: int| 0 <= p < 4 && 0 <= j < t.hands[p].len() implies (
    #[trigger] t.hands[p][j]).0 < t.next_card_id by {
        if p == seat {
            if j < i {
                assert(t.hands[p][j] == s.hands[p][j]);
            } else {
                assert(t.hands[p][j] == s.hands[p][j + 1]);
            }
        } else {
            assert(t.hands[p][j] == s.hands[p][j]);
        }
    }
}

proof fn lemma_discard_inv(s: GameView, i: usize)
    requires
        s.bounds(),
        s.strikes < 3,
    ensures
        s.discard(i).0.bounds(),
{
    let hand = s.hand(s.current_turn);
    if i < hand.len() && s.clues != 8 && s.knows(hand[i as int]) {
        let id = hand[i as int];
        let after = GameView {
            discarded_cards: s.discarded_cards.push(id),
            clues: s.clues + 1,
            ..s.take_card(i as int)
        };
        lemma_moved_inv(s, i as int, after);
        lemma_conclude_inv(after, Completed::Discarded(i, s.face(id)), true);
    }
}

proof fn lemma_play_inv(s: GameView, i: usize)
    requires
        s.bounds(),
        s.strikes < 3,
    ensures
        s.play(i).0.bounds(),
{
    let hand = s.hand(s.current_turn);
    if i < hand.len() && s.knows(hand[i as int]) {
        let id = hand[i as int];
        let c = s.face(id);
        let taken = s.take_card(i as int);
        if c.rank.fits(s.pile(c.suit)) {
            let after = GameView {
                piles: s.piles.update(c.suit.ordinal(), Some(c.rank)),
                played_cards: s.played_cards.push(id),
                clues: if c.rank == Rank::Five && s.clues < 8 {
                    s.clues + 1
                } else {
                    s.clues
                },
                ..taken
            };
            lemma_moved_inv(s, i as int, after);
            lemma_conclude_inv(after, Completed::Played(i, c), true);
        } else {
            let after = GameView {
                discarded_cards: s.discarded_cards.push(id),
                strikes: s.strikes + 1,
                ..taken
            };
            lemma_moved_inv(s, i as int, after);
            lemma_conclude_inv(after, Completed::Played(i, c), true);
        }
    }
}

/// Every entry that a clue leaves in the disclosures was there before, at the same place, or
/// says of its card whether the clue matches the card's face.
pub proof fn lemma_disclose_entries(s: GameView, ids: Seq<CardId>, clue: Clue)
    ensures
        forall|k: usize, j: int|
            #![trigger s.disclose(ids, clue)[k][j]]
            s.disclose(ids, clue).contains_key(k) && 0 <= j < s.disclose(ids, clue)[k].len() ==> {
                ||| s.information.contains_key(k) && j < s.information[k].len() && s.disclose(
                    ids,
                    clue,
                )[k][j] == s.information[k][j]
                ||| s.disclose(ids, clue)[k][j] == Information(clue, clue.touches(s.card_map[k]))
            },
    decreases ids.len(),
{
    if ids.len() > 0 {
        lemma_disclose_entries(s, ids.drop_last(), clue);
    }
}

/// A clue leaves what was disclosed about the cards that it was not given to as it was.
pub proof fn lemma_disclose_others(s: GameView, ids: Seq<CardId>, clue: Clue, k: usize)
    requires
        !ids.contains(CardId(k)),
    ensures
        s.disclose(ids, clue).contains_key(k) == s.information.contains_key(k),
        s.information.contains_key(k) ==> s.disclose(ids, clue)[k] == s.information[k],
    decreases ids.len(),
{
    if ids.len() > 0 {
        let init = ids.drop_last();
        assert(ids[ids.len() - 1] == ids.last());
        assert(ids.last() != CardId(k));
        if init.contains(CardId(k)) {
            let j = choose|j: int| 0 <= j < init.len() && init[j] == CardId(k);
            assert(ids[j] == CardId(k));
        }
        lemma_disclose_others(s, init, clue, k);
    }
}

proof fn lemma_clue_inv(s: GameView, target: Player, clue: Clue)
    requires
        s.bounds(),
        s.strikes < 3,
    ensures
        s.clue(target, clue).0.bounds(),
{
    let hand = s.hand(target);
    lemma_disclose_entries(s, hand, clue);
    let t = s.clue(target, clue).0;
    if t != s {
        assert(t.information == s.disclose(hand, clue));
        assert forall|k: usize| #[trigger] t.information.contains_key(k) implies exists|c: Card|
            agrees_with_all(t.information[k], c) by {
            if hand.contains(CardId(k)) {
                let j = choose|j: int| 0 <= j < hand.len() && hand[j] == CardId(k);
                assert(s.knows(hand[j]));
                let face = s.card_map[k];
                assert forall|i: int| 0 <= i < t.information[k].len() implies (
                #[trigger] t.information[k][i]).agrees_with(face) by {
                    let entry = s.disclose(hand, clue)[k][i];
                    if s.information.contains_key(k) && i < s.information[k].len() && entry
                        == s.information[k][i] {
                        assert(s.information[k][i].agrees_with(face));
                    }
                }
                assert(agrees_with_all(t.information[k], face));
            } else {
                lemma_disclose_others(s, hand, clue, k);
                assert(s.information.contains_key(k));
            }
        }
    }
}

/// A player's view of a game keeps what holds of every game.
pub proof fn lemma_seen_by_inv(s: GameView, p: Player)
    requires
        s.inv(),
    ensures
        s.seen_by(p).inv(),
{
    let t = s.seen_by(p);
    assert(t.card_map.dom().subset_of(s.card_map.dom()));
    vstd::set_lib::lemma_len_subset(t.card_map.dom(), s.card_map.dom());
    assert forall|j: int| 0 <= j < s.played_cards.len() implies t.card_map[(
    #[trigger] s.played_cards[j]).0] == s.card_map[s.played_cards[j].0] by {
        assert(s.played_cards.contains(s.played_cards[j]));
        assert(s.visible_to(p, s.played_cards[j]));
        assert(CardId(s.played_cards[j].0) == s.played_cards[j]);
    }
    lemma_same_places(s, t);
    assert forall|j: int| 0 <= j < t.played_cards.len() implies t.knows(
        #[trigger] t.played_cards[j],
    ) by {
        assert(s.played_cards.contains(s.played_cards[j]));
    }
    assert forall|j: int| 0 <= j < t.discarded_cards.len() implies t.knows(
        #[trigger] t.discarded_cards[j],
    ) by {
        assert(s.discarded_cards.contains(s.discarded_cards[j]));
    }
}

/// The cards that `missing` keeps are those of `ids` whose face is not known.
pub proof fn lemma_missing(s: GameView, ids: Seq<CardId>, id: CardId)
    ensures
        s.missing(ids).contains(id) <==> ids.contains(id) && !s.knows(id),
    decreases ids.len(),
{
    if ids.len() > 0 {
        let init = ids.drop_last();
        lemma_missing(s, init, id);
        assert(init.push(ids.last()) =~= ids);
        lemma_push_contains(init, ids.last(), id);
        lemma_push_contains(s.missing(init), ids.last(), id);
    }
}

/// The cards of unknown face in the first hands are the cards of those hands whose face is
/// not known.
pub proof fn lemma_missing_in_hands(s: GameView, seats: int, id: CardId)
    requires
        0 <= seats <= s.hands.len(),
    ensures
        s.missing_in_hands(seats).contains(id) <==> !s.knows(id) && exists|q: int|
            0 <= q < seats && (#[trigger] s.hands[q]).contains(id),
    decreases seats,
{
    if seats > 0 {
        lemma_missing_in_hands(s, seats - 1, id);
        lemma_missing(s, s.hands[seats - 1], id);
        lemma_concat_contains(s.missing_in_hands(seats - 1), s.missing(s.hands[seats - 1]), id);
        if !s.knows(id) && exists|q: int| 0 <= q < seats && (#[trigger] s.hands[q]).contains(id) {
            let q = choose|q: int| 0 <= q < seats && (#[trigger] s.hands[q]).contains(id);
            if q < seats - 1 {
                assert(s.missing_in_hands(seats - 1).contains(id));
            }
        }
    }
}

/// The unknown cards are the cards in a hand or still in the deck whose face is not known.
pub proof fn lemma_unknown_cards(s: GameView, id: CardId)
    ensures
        s.unknown_cards().contains(id) <==> !s.knows(id) && ({
            ||| exists|q: int| 0 <= q < s.hands.len() && (#[trigger] s.hands[q]).contains(id)
            ||| s.undrawn().contains(id)
        }),
{
    lemma_missing_in_hands(s, s.hands.len() as int, id);
    lemma_missing(s, s.undrawn(), id);
    lemma_concat_contains(s.missing_in_hands(s.hands.len() as int), s.missing(s.undrawn()), id);
}

proof fn lemma_card_moves(s: GameView, n: int, a: Action)
    requires
        0 <= n <= usize::MAX,
    ensures
        s.card_moves(n).contains(a) <==> match a {
            Action::Discard(i) => i < n && s.clues < 8,
            Action::Play(i) => i < n,
            Action::Clue(_, _) => false,
        },
    decreases n,
{
    if n > 0 {
        lemma_card_moves(s, n - 1, a);
        let rest = s.card_moves(n - 1);
        let i = (n - 1) as usize;
        if s.clues < 8 {
            lemma_push_contains(rest, Action::Discard(i), a);
            lemma_push_contains(rest.push(Action::Discard(i)), Action::Play(i), a);
        } else {
            lemma_push_contains(rest, Action::Play(i), a);
        }
    }
}

proof fn lemma_clue_moves_to(s: GameView, target: Player, k: int, a: Action)
    requires
        0 <= k <= 10,
    ensures
        s.clue_moves_to(target, k).contains(a) <==> match a {
            Action::Clue(t, clue) => t == target && clue_number(clue) < k && s.clue_applies(
                s.hand(target),
                clue,
            ),
            _ => false,
        },
    decreases k,
{
    if k > 0 {
        lemma_clue_moves_to(s, target, k - 1, a);
        let rest = s.clue_moves_to(target, k - 1);
        if s.clue_applies(s.hand(target), clue_at(k - 1)) {
            lemma_push_contains(rest, Action::Clue(target, clue_at(k - 1)), a);
        }
        match a {
            Action::Clue(t, clue) => {
                assert(clue_at(clue_number(clue)) == clue);
                assert(clue_number(clue_at(k - 1)) == k - 1);
            },
            _ => {},
        }
    }
}

proof fn lemma_clue_moves(s: GameView, seats: int, a: Action)
    requires
        0 <= seats <= 4,
    ensures
        s.clue_moves(seats).contains(a) <==> match a {
            Action::Clue(t, clue) => t.seat() < seats && t != s.current_turn && s.clue_applies(
                s.hand(t),
                clue,
            ),
            _ => false,
        },
    decreases seats,
{
    if seats > 0 {
        lemma_clue_moves(s, seats - 1, a);
        let target = Player::at_seat(seats - 1);
        lemma_clue_moves_to(s, target, 10, a);
        lemma_concat_contains(s.clue_moves(seats - 1), s.clue_moves_to(target, 10), a);
        match a {
            Action::Clue(t, clue) => {
                assert(Player::at_seat(t.seat()) == t);
                assert(clue_number(clue) < 10);
            },
            _ => {},
        }
    }
}

/// The legal actions are the actions that the rules offer.
pub proof fn lemma_legal_actions(s: GameView, a: Action)
    requires
        s.inv(),
    ensures
        s.legal_actions().contains(a) <==> s.offers(a),
{
    let n = s.hand(s.current_turn).len() as int;
    lemma_card_moves(s, n, a);
    lemma_clue_moves(s, 4, a);
    lemma_concat_contains(s.card_moves(n), s.clue_moves(4), a);
}

/// A clue that matches a card of known face among `ids` has a card to name.
pub proof fn lemma_matching_nonempty(s: GameView, ids: Seq<CardId>, clue: Clue)
    requires
        s.clue_applies(ids, clue),
    ensures
        s.matching(ids, clue).len() > 0,
    decreases ids.len(),
{
    let j = choose|j: int|
        0 <= j < ids.len() && s.knows(#[trigger] ids[j]) && clue.touches(s.face(ids[j]));
    if j < ids.len() - 1 {
        assert(ids.drop_last()[j] == ids[j]);
        lemma_matching_nonempty(s, ids.drop_last(), clue);
    }
}

/// No action that the rules offer is refused as illegal.
pub proof fn lemma_offered_is_legal(s: GameView, a: Action)
    requires
        s.inv(),
        s.offers(a),
    ensures
        !(s.step(a).1 is Illegal),
{
    match a {
        Action::Clue(target, clue) => {
            lemma_matching_nonempty(s, s.hand(target), clue);
        },
        _ => {},
    }
}

/// An action that the rules offered stays on offer when more faces become known, and is
/// carried out once the faces of all cards in hand are known.
pub proof fn lemma_offered_is_carried_out(s: GameView, t: GameView, a: Action)
    requires
        s.inv(),
        s.offers(a),
        t == (GameView { card_map: t.card_map, ..s }),
        s.card_map.submap_of(t.card_map),
        forall|p: Player| #[trigger] t.all_known(t.hand(p)),
    ensures
        t.offers(a),
        t.step(a).1 is Acted || t.step(a).1 is Finished,
{
    match a {
        Action::Clue(target, clue) => {
            let ids = s.hand(target);
            let j = choose|j: int|
                0 <= j < ids.len() && s.knows(#[trigger] ids[j]) && clue.touches(s.face(ids[j]));
            assert(t.knows(ids[j]) && clue.touches(t.face(ids[j])));
            lemma_matching_nonempty(t, t.hand(target), clue);
            assert(t.all_known(t.hand(target)));
        },
        Action::Discard(i) => {
            assert(t.all_known(t.hand(t.current_turn)));
        },
        Action::Play(i) => {
            assert(t.all_known(t.hand(t.current_turn)));
        },
    }
}

/// A player's view of a game that knows no face too often knows no face too often.
pub proof fn lemma_seen_by_within_deck(s: GameView, p: Player)
    requires
        s.inv(),
        s.within_deck(),
    ensures
        s.seen_by(p).within_deck(),
{
    assert forall|c: Card| #[trigger] s.seen_by(p).seen(c) <= c.rank.copies() by {
        lemma_holders_submap(s.seen_by(p).card_map, s.card_map, c);
        assert(s.seen(c) <= c.rank.copies());
    }
}

/// The list of known faces holds a card with a face exactly if the card is numbered below
/// the bound and has that face.
pub proof fn lemma_known_faces_entries(faces: Map<usize, Card>, n: int, id: CardId, c: Card)
    requires
        0 <= n <= usize::MAX + 1,
    ensures
        known_faces(faces, n).contains((id, c)) <==> id.0 < n && faces.contains_key(id.0)
            && faces[id.0] == c,
    decreases n,
{
    if n > 0 {
        lemma_known_faces_entries(faces, n - 1, id, c);
        let k = (n - 1) as usize;
        if faces.contains_key(k) {
            lemma_push_contains(known_faces(faces, n - 1), (CardId(k), faces[k]), (id, c));
        }
    }
}

/// The list of known faces is in the strict order of the card numbers.
pub proof fn lemma_known_faces_sorted(faces: Map<usize, Card>, n: int)
    requires
        0 <= n <= usize::MAX + 1,
    ensures
        forall|i: int|
            0 <= i < known_faces(faces, n).len() ==> (#[trigger] known_faces(faces, n)[i]).0.0 < n,
        forall|i: int, j: int|
            0 <= i < j < known_faces(faces, n).len() ==> (#[trigger] known_faces(faces, n)[i]).0.0
                < (#[trigger] known_faces(faces, n)[j]).0.0,
    decreases n,
{
    if n > 0 {
        lemma_known_faces_sorted(faces, n - 1);
        let rest = known_faces(faces, n - 1);
        let all = known_faces(faces, n);
        assert forall|i: int| 0 <= i < all.len() implies (#[trigger] all[i]).0.0 < n by {
            if i < rest.len() {
                assert(all[i] == rest[i]);
            }
        }
        assert forall|i: int, j: int| 0 <= i < j < all.len() implies (#[trigger] all[i]).0.0 < (
        #[trigger] all[j]).0.0 by {
            assert(all[i] == rest[i]);
            if j < rest.len() {
                assert(all[j] == rest[j]);
            }
        }
    }
}

/// Beyond the last card that has a face the list of known faces does not grow.
pub proof fn lemma_known_faces_beyond(faces: Map<usize, Card>, n: int, m: int)
    requires
        0 <= n <= m <= usize::MAX + 1,
        forall|k: usize| #[trigger] faces.contains_key(k) ==> k < n,
    ensures
        known_faces(faces, m) == known_faces(faces, n),
    decreases m - n,
{
    if n < m {
        lemma_known_faces_beyond(faces, n, m - 1);
    }
}

/// Games in which the same faces are known and the same actions are on record have the same
/// fingerprint, whatever else differs between them.
pub proof fn lemma_fingerprint_determined(a: GameView, b: GameView)
    requires
        a.inv(),
        b.inv(),
        a.card_map == b.card_map,
        a.action_log == b.action_log,
    ensures
        a.fingerprint() == b.fingerprint(),
{
    if a.total_cards() <= b.total_cards() {
        lemma_known_faces_beyond(a.card_map, a.total_cards() as int, b.total_cards() as int);
    } else {
        lemma_known_faces_beyond(a.card_map, b.total_cards() as int, a.total_cards() as int);
    }
}

/// Games with the same fingerprint know the same faces and have the same actions on record.
pub proof fn lemma_fingerprint_distinguishes(a: GameView, b: GameView)
    requires
        a.inv(),
        b.inv(),
        a.fingerprint() == b.fingerprint(),
    ensures
        a.card_map == b.card_map,
        a.action_log == b.action_log,
{
    let n = a.total_cards() as int;
    let m = b.total_cards() as int;
    assert forall|k: usize| #[trigger]
        a.card_map.contains_key(k) implies b.card_map.contains_key(k) && a.card_map[k]
        == b.card_map[k] by {
        lemma_known_faces_entries(a.card_map, n, CardId(k), a.card_map[k]);
        lemma_known_faces_entries(b.card_map, m, CardId(k), a.card_map[k]);
    }
    assert forall|k: usize| #[trigger] b.card_map.contains_key(k) implies a.card_map.contains_key(
        k,
    ) by {
        lemma_known_faces_entries(a.card_map, n, CardId(k), b.card_map[k]);
        lemma_known_faces_entries(b.card_map, m, CardId(k), b.card_map[k]);
    }
    assert(a.card_map.dom() =~= b.card_map.dom());
    assert(a.card_map =~= b.card_map);
}

/// A game in which every card of unknown face got a face stays a game as the rules make
/// them, if each face agrees with what was disclosed about its card; and no face is known too
/// often, if the new faces are among those that were left.
pub proof fn lemma_filled_inv(s: GameView, faces: Map<usize, Card>)
    requires
        s.inv(),
        faces.dom().finite(),
        forall|k: usize| faces.contains_key(k) <==> s.unknown_cards().contains(CardId(k)),
        forall|k: usize| #[trigger]
            faces.contains_key(k) && s.information.contains_key(k) ==> agrees_with_all(
                s.information[k],
                faces[k],
            ),
    ensures
        (GameView { card_map: s.card_map.union_prefer_right(faces), ..s }).inv(),
        forall|p: Player|
            (GameView { card_map: s.card_map.union_prefer_right(faces), ..s }).all_known(
                #[trigger] s.hand(p),
            ),
        (GameView { card_map: s.card_map.union_prefer_right(faces), ..s }).all_known(s.undrawn()),
        s.card_map.submap_of(s.card_map.union_prefer_right(faces)),
{
    let t = GameView { card_map: s.card_map.union_prefer_right(faces), ..s };
    assert(t.card_map.dom() =~= s.card_map.dom().union(faces.dom()));
    assert forall|j: int| 0 <= j < s.played_cards.len() implies t.card_map[(
    #[trigger] s.played_cards[j]).0] == s.card_map[s.played_cards[j].0] by {
        lemma_unknown_cards(s, CardId(s.played_cards[j].0));
        assert(s.knows(s.played_cards[j]));
    }
    lemma_same_places(s, t);
    assert forall|k: usize| #[trigger] t.card_map.contains_key(k) implies k < t.total_cards() by {
        if !s.card_map.contains_key(k) {
            lemma_unknown_cards(s, CardId(k));
            if s.undrawn().contains(CardId(k)) {
                let j = choose|j: int| 0 <= j < s.undrawn().len() && s.undrawn()[j] == CardId(k);
            } else {
                let q = choose|q: int|
                    0 <= q < s.hands.len() && (#[trigger] s.hands[q]).contains(CardId(k));
                let j = choose|j: int| 0 <= j < s.hands[q].len() && s.hands[q][j] == CardId(k);
            }
        }
    }
    assert forall|k: usize| #[trigger] faces.contains_key(k) implies !s.card_map.contains_key(
        k,
    ) by {
        lemma_unknown_cards(s, CardId(k));
    }
    assert(s.card_map.submap_of(t.card_map));
    assert forall|p: Player| t.all_known(#[trigger] s.hand(p)) by {
        assert forall|j: int| 0 <= j < s.hand(p).len() implies t.knows(
            #[trigger] s.hand(p)[j],
        ) by {
            let id = s.hand(p)[j];
            lemma_unknown_cards(s, id);
            assert(s.hands[p.seat()].contains(id));
            assert(CardId(id.0) == id);
        }
    }
    assert forall|j: int| 0 <= j < s.undrawn().len() implies t.knows(
        #[trigger] s.undrawn()[j],
    ) by {
        let id = s.undrawn()[j];
        lemma_unknown_cards(s, id);
        assert(s.undrawn().contains(id));
        assert(CardId(id.0) == id);
    }
    assert(t.disclosures_hold()) by {
        assert forall|k: usize, j: int|
            t.information.contains_key(k) && t.card_map.contains_key(k) && 0 <= j
                < t.information[k].len() implies (#[trigger] t.information[k][j]).agrees_with(
            t.card_map[k],
        ) by {
            if faces.contains_key(k) {
                assert(agrees_with_all(s.information[k], faces[k]));
            }
        }
    }
}

/// Faces added from among those that are left leave no face known too often.
pub proof fn lemma_filled_within_deck(s: GameView, faces: Map<usize, Card>)
    requires
        s.inv(),
        faces.dom().finite(),
        s.within_deck(),
        forall|c: Card| holders(faces, c).len() <= c.rank.copies() - #[trigger] s.seen(c),
    ensures
        (GameView { card_map: s.card_map.union_prefer_right(faces), ..s }).within_deck(),
{
    let t = GameView { card_map: s.card_map.union_prefer_right(faces), ..s };
    assert forall|c: Card| #[trigger] t.seen(c) <= c.rank.copies() by {
        lemma_holders_union(s.card_map, faces, c);
        assert(holders(faces, c).len() <= c.rank.copies() - s.seen(c));
    }
}

} // verus!
