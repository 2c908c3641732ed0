//! No action loses or makes a card.

use vstd::prelude::*;
use crate::card_counts::occurrences;
use crate::counting::lemma_below_len;
use crate::holders::below;
use crate::hanabi::{pile_height, Action, Card, CardId, Rank};
use crate::model::{lemma_step_progress, GameView};

verus! {

/// How many of the cards `ids` have the face `c`.
pub open spec fn face_count(faces: Map<usize, Card>, ids: Seq<CardId>, c: Card) -> nat
    decreases ids.len(),
{
    if ids.len() == 0 {
        0
    } else {
        face_count(faces, ids.drop_last(), c) + (if faces[ids.last().0] == c {
            1nat
        } else {
            0nat
        })
    }
}

/// How many cards of the face `c` lie on the piles: one, if the pile of its suit has reached
/// its rank.
pub open spec fn pile_count(piles: Seq<Option<Rank>>, c: Card) -> nat {
    if c.rank.value() <= pile_height(piles[c.suit.ordinal()]) {
        1
    } else {
        0
    }
}

impl GameView {
    /// How many cards of the face `c` the game holds: in the hands, on the piles, among the
    /// discarded cards and in the deck.
    pub open spec fn cards_of(self, c: Card) -> nat {
        hands_count(self.card_map, self.hands, c) + pile_count(self.piles, c) + face_count(
            self.card_map,
            self.discarded_cards,
            c,
        ) + face_count(self.card_map, self.undrawn(), c)
    }

    /// The game after some actions, one after the other, up to the first that was not
    /// carried out or that ended the game.
    pub open spec fn after(self, actions: Seq<Action>) -> GameView
        decreases actions.len(),
    {
        if actions.len() == 0 {
            self
        } else if self.step(actions.first()).1 is Acted {
            self.step(actions.first()).0.after(actions.drop_first())
        } else {
            self.step(actions.first()).0
        }
    }
}

pub proof fn lemma_face_count_push(faces: Map<usize, Card>, ids: Seq<CardId>, id: CardId, c: Card)
    ensures
        face_count(faces, ids.push(id), c) == face_count(faces, ids, c) + (if faces[id.0] == c {
            1nat
        } else {
            0nat
        }),
{
    assert(ids.push(id).drop_last() =~= ids);
}

proof fn lemma_face_count_remove(faces: Map<usize, Card>, ids: Seq<CardId>, i: int, c: Card)
    requires
        0 <= i < ids.len(),
    ensures
        face_count(faces, ids.remove(i), c) + (if faces[ids[i].0] == c {
            1nat
        } else {
            0nat
        }) == face_count(faces, ids, c),
    decreases ids.len(),
{
    if i == ids.len() - 1 {
        assert(ids.remove(i) =~= ids.drop_last());
    } else {
        lemma_face_count_remove(faces, ids.drop_last(), i, c);
        assert(ids.remove(i).drop_last() =~= ids.drop_last().remove(i));
        assert(ids.remove(i).last() == ids.last());
    }
}

proof fn lemma_face_count_drop_first(faces: Map<usize, Card>, ids: Seq<CardId>, c: Card)
    requires
        ids.len() > 0,
    ensures
        face_count(faces, ids.drop_first(), c) + (if faces[ids[0].0] == c {
            1nat
        } else {
            0nat
        }) == face_count(faces, ids, c),
{
    lemma_face_count_remove(faces, ids, 0, c);
    assert(ids.remove(0) =~= ids.drop_first());
}

/// The cards of a deck in their order have the faces of the deck.
proof fn lemma_face_count_deck(deck: Seq<Card>, from: int, n: int, c: Card)
    requires
        0 <= from,
        0 <= n,
        from + n <= deck.len() <= usize::MAX,
    ensures
        face_count(
            Map::new(|k: usize| k < deck.len(), |k: usize| deck[k as int]),
            Seq::new(n as nat, |j: int| CardId((from + j) as usize)),
            c,
        ) == occurrences(deck.subrange(from, from + n), c),
    decreases n,
{
    let faces = Map::new(|k: usize| k < deck.len(), |k: usize| deck[k as int]);
    let ids = Seq::new(n as nat, |j: int| CardId((from + j) as usize));
    if n > 0 {
        lemma_face_count_deck(deck, from, n - 1, c);
        assert(ids.drop_last() =~= Seq::new((n - 1) as nat, |j: int| CardId((from + j) as usize)));
        assert(deck.subrange(from, from + n).drop_last() =~= deck.subrange(from, from + n - 1));
        assert(faces[ids.last().0] == deck[from + n - 1]);
    }
}

proof fn lemma_occurrences_concat(a: Seq<Card>, b: Seq<Card>, c: Card)
    ensures
        occurrences(a + b, c) == occurrences(a, c) + occurrences(b, c),
    decreases b.len(),
{
    if b.len() == 0 {
        assert(a + b =~= a);
    } else {
        lemma_occurrences_concat(a, b.drop_last(), c);
        assert((a + b).drop_last() =~= a + b.drop_last());
    }
}

/// Whether a card has a face, as a number.
spec fn hit(faces: Map<usize, Card>, id: CardId, c: Card) -> nat {
    if faces[id.0] == c {
        1
    } else {
        0
    }
}

proof fn lemma_face_count_four(
    faces: Map<usize, Card>,
    first: CardId,
    second: CardId,
    third: CardId,
    fourth: CardId,
    c: Card,
)
    ensures
        face_count(faces, seq![first, second, third, fourth], c) == hit(faces, first, c) + hit(
            faces,
            second,
            c,
        ) + hit(faces, third, c) + hit(faces, fourth, c),
{
    let h = seq![first, second, third, fourth];
    lemma_face_count_push(faces, seq![first, second, third], fourth, c);
    lemma_face_count_push(faces, seq![first, second], third, c);
    lemma_face_count_push(faces, seq![first], second, c);
    lemma_face_count_push(faces, Seq::<CardId>::empty(), first, c);
    assert(seq![first, second, third].push(fourth) =~= h);
    assert(seq![first, second].push(third) =~= seq![first, second, third]);
    assert(seq![first].push(second) =~= seq![first, second]);
    assert(Seq::<CardId>::empty().push(first) =~= seq![first]);
}

proof fn lemma_hits_sixteen(cards: Seq<Card>, c: Card)
    ensures
        hits(cards, 16, c) == hits(cards, 12, c) + hits_at(cards, 12, c) + hits_at(cards, 13, c)
            + hits_at(cards, 14, c) + hits_at(cards, 15, c),
        hits(cards, 12, c) == hits(cards, 8, c) + hits_at(cards, 8, c) + hits_at(cards, 9, c)
            + hits_at(cards, 10, c) + hits_at(cards, 11, c),
        hits(cards, 8, c) == hits(cards, 4, c) + hits_at(cards, 4, c) + hits_at(cards, 5, c)
            + hits_at(cards, 6, c) + hits_at(cards, 7, c),
        hits(cards, 4, c) == hits_at(cards, 0, c) + hits_at(cards, 1, c) + hits_at(cards, 2, c)
            + hits_at(cards, 3, c),
{
    reveal_with_fuel(hits, 5);
}

/// Whether the face at a position is `c`, as a number.
spec fn hits_at(cards: Seq<Card>, i: int, c: Card) -> nat {
    if cards[i] == c {
        1
    } else {
        0
    }
}

/// The sixteen cards of the four dealt hands, taken in the order of the hands, have the
/// faces of the first sixteen cards of the deck.
proof fn lemma_dealt_faces(deck: Seq<Card>, c: Card)
    requires
        16 <= deck.len() <= usize::MAX,
    ensures
        ({
            let s = GameView::start(deck);
            face_count(s.card_map, s.hands[0], c) + face_count(s.card_map, s.hands[1], c)
                + face_count(s.card_map, s.hands[2], c) + face_count(s.card_map, s.hands[3], c)
                == occurrences(deck.subrange(0, 16), c)
        }),
{
    let s = GameView::start(deck);
    let faces = s.card_map;
    lemma_face_count_four(faces, CardId(0), CardId(4), CardId(8), CardId(12), c);
    lemma_face_count_four(faces, CardId(1), CardId(5), CardId(9), CardId(13), c);
    lemma_face_count_four(faces, CardId(2), CardId(6), CardId(10), CardId(14), c);
    lemma_face_count_four(faces, CardId(3), CardId(7), CardId(11), CardId(15), c);
    assert(s.hands[0] =~= seq![CardId(0), CardId(4), CardId(8), CardId(12)]);
    assert(s.hands[1] =~= seq![CardId(1), CardId(5), CardId(9), CardId(13)]);
    assert(s.hands[2] =~= seq![CardId(2), CardId(6), CardId(10), CardId(14)]);
    assert(s.hands[3] =~= seq![CardId(3), CardId(7), CardId(11), CardId(15)]);
    lemma_occurrences_prefix(deck, 16, c);
    assert(deck.take(16) =~= deck.subrange(0, 16));
    lemma_hits_sixteen(deck, c);
    assert forall|i: int| 0 <= i < 16 implies hit(faces, CardId(i as usize), c) == hits_at(
        deck,
        i,
        c,
    ) by {}
    assert(hit(faces, CardId(0), c) == hits_at(deck, 0, c));
    assert(hit(faces, CardId(1), c) == hits_at(deck, 1, c));
    assert(hit(faces, CardId(2), c) == hits_at(deck, 2, c));
    assert(hit(faces, CardId(3), c) == hits_at(deck, 3, c));
    assert(hit(faces, CardId(4), c) == hits_at(deck, 4, c));
    assert(hit(faces, CardId(5), c) == hits_at(deck, 5, c));
    assert(hit(faces, CardId(6), c) == hits_at(deck, 6, c));
    assert(hit(faces, CardId(7), c) == hits_at(deck, 7, c));
    assert(hit(faces, CardId(8), c) == hits_at(deck, 8, c));
    assert(hit(faces, CardId(9), c) == hits_at(deck, 9, c));
    assert(hit(faces, CardId(10), c) == hits_at(deck, 10, c));
    assert(hit(faces, CardId(11), c) == hits_at(deck, 11, c));
    assert(hit(faces, CardId(12), c) == hits_at(deck, 12, c));
    assert(hit(faces, CardId(13), c) == hits_at(deck, 13, c));
    assert(hit(faces, CardId(14), c) == hits_at(deck, 14, c));
    assert(hit(faces, CardId(15), c) == hits_at(deck, 15, c));
}

/// How often the first `n` faces of a list hold `c`, position by position.
spec fn hits(cards: Seq<Card>, n: int, c: Card) -> nat
    decreases n,
{
    if n <= 0 {
        0
    } else {
        hits(cards, n - 1, c) + (if cards[n - 1] == c {
            1nat
        } else {
            0nat
        })
    }
}

proof fn lemma_occurrences_prefix(cards: Seq<Card>, n: int, c: Card)
    requires
        0 <= n <= cards.len(),
    ensures
        occurrences(cards.take(n), c) == hits(cards, n, c),
    decreases n,
{
    if n > 0 {
        lemma_occurrences_prefix(cards, n - 1, c);
        assert(cards.take(n).drop_last() =~= cards.take(n - 1));
    }
}

/// A game that was just dealt holds the cards of its deck: of every face as many as the
/// deck does.
pub proof fn lemma_start_holds_deck(deck: Seq<Card>, c: Card)
    requires
        16 <= deck.len() <= usize::MAX,
    ensures
        GameView::start(deck).cards_of(c) == occurrences(deck, c),
{
    let s = GameView::start(deck);
    lemma_dealt_faces(deck, c);
    lemma_face_count_deck(deck, 16, deck.len() - 16, c);
    assert(s.undrawn() =~= Seq::new((deck.len() - 16) as nat, |j: int| CardId((16 + j) as usize)));
    lemma_occurrences_concat(deck.subrange(0, 16), deck.subrange(16, deck.len() as int), c);
    assert(deck.subrange(0, 16) + deck.subrange(16, deck.len() as int) =~= deck);
    assert(face_count(s.card_map, s.discarded_cards, c) == 0);
    assert(pile_count(s.piles, c) == 0);
}

/// How many cards of the face `c` four hands hold.
pub open spec fn hands_count(faces: Map<usize, Card>, hands: Seq<Seq<CardId>>, c: Card) -> nat {
    face_count(faces, hands[0], c) + face_count(faces, hands[1], c) + face_count(
        faces,
        hands[2],
        c,
    ) + face_count(faces, hands[3], c)
}

proof fn lemma_hands_update(
    faces: Map<usize, Card>,
    hands: Seq<Seq<CardId>>,
    seat: int,
    hand: Seq<CardId>,
    c: Card,
)
    requires
        hands.len() == 4,
        0 <= seat < 4,
    ensures
        hands_count(faces, hands.update(seat, hand), c) + face_count(faces, hands[seat], c)
            == hands_count(faces, hands, c) + face_count(faces, hand, c),
{
}

/// What follows an action's effect changes no count: the turn passes on, and a card that is
/// drawn leaves the deck for the hand.
proof fn lemma_conclude_keeps_cards(s: GameView, done: crate::model::Completed, draws: bool, c: Card)
    requires
        s.hands.len() == 4,
        s.next_card_id + s.deck_size <= usize::MAX,
    ensures
        s.conclude(done, draws).0.cards_of(c) == s.cards_of(c),
{
    let seat = s.current_turn.seat();
    if s.final_turn == Some(s.current_turn) {
    } else if draws && s.deck_size > 0 {
        let drawn = s.draw();
        lemma_draw_keeps_cards(s, s.hands[seat], c);
        lemma_hands_update(
            s.card_map,
            s.hands,
            seat,
            s.hands[seat].push(CardId(s.next_card_id as usize)),
            c,
        );
        assert(drawn.undrawn() =~= Seq::new(
            (s.deck_size - 1) as nat,
            |j: int| CardId((s.next_card_id + 1 + j) as usize),
        ));
        assert(drawn.cards_of(c) == s.cards_of(c));
        assert(drawn.end_turn(done).cards_of(c) == drawn.cards_of(c)) by {
            assert(drawn.end_turn(done).undrawn() =~= drawn.undrawn());
        }
    } else {
        assert(s.end_turn(done).undrawn() =~= s.undrawn());
    }
}

proof fn lemma_discard_keeps_cards(s: GameView, i: usize, c: Card)
    requires
        s.in_play(),
    ensures
        s.discard(i).0.cards_of(c) == s.cards_of(c),
{
    let seat = s.current_turn.seat();
    let hand = s.hand(s.current_turn);
    if i < hand.len() && s.clues != 8 && s.knows(hand[i as int]) {
        let id = hand[i as int];
        let after = GameView {
            discarded_cards: s.discarded_cards.push(id),
            clues: s.clues + 1,
            ..s.take_card(i as int)
        };
        lemma_face_count_remove(s.card_map, hand, i as int, c);
        lemma_face_count_push(s.card_map, s.discarded_cards, id, c);
        lemma_hands_update(s.card_map, s.hands, seat, hand.remove(i as int), c);
        assert(after.undrawn() =~= s.undrawn());
        assert(after.cards_of(c) == s.cards_of(c));
        lemma_conclude_keeps_cards(
            after,
            crate::model::Completed::Discarded(i, s.face(id)),
            true,
            c,
        );
    }
}

/// A card that is played on its pile lies there, and nothing else changes on the piles.
pub proof fn lemma_pile_count_played(piles: Seq<Option<Rank>>, card: Card, c: Card)
    requires
        piles.len() == 5,
        card.rank.fits(piles[card.suit.ordinal()]),
    ensures
        pile_count(piles.update(card.suit.ordinal(), Some(card.rank)), c) == pile_count(piles, c)
            + (if card == c {
            1nat
        } else {
            0nat
        }),
{
    if c.suit == card.suit {
        if c.rank.value() == card.rank.value() {
            assert(c.rank == card.rank);
        }
    } else {
        assert(c.suit.ordinal() != card.suit.ordinal());
    }
}

proof fn lemma_played_keeps_cards(s: GameView, i: usize, c: Card)
    requires
        s.in_play(),
        i < s.hand(s.current_turn).len(),
        s.knows(s.hand(s.current_turn)[i as int]),
        s.face(s.hand(s.current_turn)[i as int]).rank.fits(
            s.pile(s.face(s.hand(s.current_turn)[i as int]).suit),
        ),
    ensures
        s.play(i).0.cards_of(c) == s.cards_of(c),
{
    let seat = s.current_turn.seat();
    let hand = s.hand(s.current_turn);
    let id = hand[i as int];
    let card = s.face(id);
    let taken = s.take_card(i as int);
    lemma_face_count_remove(s.card_map, hand, i as int, c);
    lemma_hands_update(s.card_map, s.hands, seat, hand.remove(i as int), c);
    let after = GameView {
        piles: s.piles.update(card.suit.ordinal(), Some(card.rank)),
        played_cards: s.played_cards.push(id),
        clues: if card.rank == Rank::Five && s.clues < 8 {
            s.clues + 1
        } else {
            s.clues
        },
        ..taken
    };
    lemma_pile_count_played(s.piles, card, c);
    assert(after.undrawn() =~= s.undrawn());
    assert(after.cards_of(c) == s.cards_of(c));
    lemma_conclude_keeps_cards(after, crate::model::Completed::Played(i, card), true, c);
}

proof fn lemma_misplayed_keeps_cards(s: GameView, i: usize, c: Card)
    requires
        s.in_play(),
        i < s.hand(s.current_turn).len(),
        s.knows(s.hand(s.current_turn)[i as int]),
        !s.face(s.hand(s.current_turn)[i as int]).rank.fits(
            s.pile(s.face(s.hand(s.current_turn)[i as int]).suit),
        ),
    ensures
        s.play(i).0.cards_of(c) == s.cards_of(c),
{
    let hand = s.hand(s.current_turn);
    let id = hand[i as int];
    let card = s.face(id);
    let after = GameView {
        discarded_cards: s.discarded_cards.push(id),
        strikes: s.strikes + 1,
        ..s.take_card(i as int)
    };
    lemma_misplay_effect(s, i, c);
    if after.strikes == 3 {
        assert(s.play(i).0 == after);
    } else {
        assert(s.play(i).0 == after.conclude(crate::model::Completed::Played(i, card), true).0);
        lemma_conclude_keeps_cards(after, crate::model::Completed::Played(i, card), true, c);
    }
}

/// A card that is misplayed leaves the hand for the discarded cards.
proof fn lemma_misplay_effect(s: GameView, i: usize, c: Card)
    requires
        s.in_play(),
        i < s.hand(s.current_turn).len(),
    ensures
        (GameView {
            discarded_cards: s.discarded_cards.push(s.hand(s.current_turn)[i as int]),
            strikes: s.strikes + 1,
            ..s.take_card(i as int)
        }).cards_of(c) == s.cards_of(c),
{
    let seat = s.current_turn.seat();
    let hand = s.hand(s.current_turn);
    let id = hand[i as int];
    let after = GameView {
        discarded_cards: s.discarded_cards.push(id),
        strikes: s.strikes + 1,
        ..s.take_card(i as int)
    };
    lemma_face_count_remove(s.card_map, hand, i as int, c);
    lemma_hands_update(s.card_map, s.hands, seat, hand.remove(i as int), c);
    lemma_face_count_push(s.card_map, s.discarded_cards, id, c);
    assert(after.undrawn() =~= s.undrawn());
}

proof fn lemma_play_keeps_cards(s: GameView, i: usize, c: Card)
    requires
        s.in_play(),
    ensures
        s.play(i).0.cards_of(c) == s.cards_of(c),
{
    let hand = s.hand(s.current_turn);
    if i < hand.len() && s.knows(hand[i as int]) {
        let card = s.face(hand[i as int]);
        if card.rank.fits(s.pile(card.suit)) {
            lemma_played_keeps_cards(s, i, c);
        } else {
            lemma_misplayed_keeps_cards(s, i, c);
        }
    }
}

proof fn lemma_clue_keeps_cards(s: GameView, target: crate::hanabi::Player, clue: crate::hanabi::Clue, c: Card)
    requires
        s.in_play(),
    ensures
        s.clue(target, clue).0.cards_of(c) == s.cards_of(c),
{
    let hand = s.hand(target);
    if target != s.current_turn && s.clues != 0 && s.all_known(hand) && s.matching(
        hand,
        clue,
    ).len() != 0 {
        let after = GameView {
            information: s.disclose(hand, clue),
            clues: (s.clues - 1) as nat,
            ..s
        };
        assert(after.undrawn() =~= s.undrawn());
        assert(after.cards_of(c) == s.cards_of(c));
        lemma_conclude_keeps_cards(
            after,
            crate::model::Completed::Clued(target, clue, s.matching(hand, clue)),
            false,
            c,
        );
    }
}

/// No action changes how many cards of a face the game holds: a card that leaves a hand
/// goes to a pile or to the discarded cards, and a card that leaves the deck goes to a hand.
pub proof fn lemma_step_keeps_cards(s: GameView, action: Action, c: Card)
    requires
        s.in_play(),
    ensures
        s.step(action).0.cards_of(c) == s.cards_of(c),
{
    match action {
        Action::Discard(i) => lemma_discard_keeps_cards(s, i, c),
        Action::Play(i) => lemma_play_keeps_cards(s, i, c),
        Action::Clue(target, clue) => lemma_clue_keeps_cards(s, target, clue, c),
    }
}

/// Drawing moves the first card of the deck to the end of the hand `hand`.
proof fn lemma_draw_keeps_cards(s: GameView, hand: Seq<CardId>, c: Card)
    requires
        s.next_card_id + s.deck_size <= usize::MAX,
        s.deck_size > 0,
    ensures
        ({
            let next = CardId(s.next_card_id as usize);
            let deck_after = Seq::new(
                (s.deck_size - 1) as nat,
                |j: int| CardId((s.next_card_id + 1 + j) as usize),
            );
            face_count(s.card_map, hand.push(next), c) + face_count(s.card_map, deck_after, c)
                == face_count(s.card_map, hand, c) + face_count(s.card_map, s.undrawn(), c)
        }),
{
    let next = CardId(s.next_card_id as usize);
    let deck_after = Seq::new(
        (s.deck_size - 1) as nat,
        |j: int| CardId((s.next_card_id + 1 + j) as usize),
    );
    lemma_face_count_push(s.card_map, hand, next, c);
    lemma_face_count_drop_first(s.card_map, s.undrawn(), c);
    assert(s.undrawn().drop_first() =~= deck_after);
}

/// A game that was dealt from a deck and went on by the rules holds the cards of the deck:
/// of every face as many, in the hands, on the piles, among the discarded cards and in what
/// is left of the deck together, as the deck held.
pub proof fn lemma_cards_conserved(deck: Seq<Card>, actions: Seq<Action>, c: Card)
    requires
        16 <= deck.len() <= usize::MAX,
    ensures
        GameView::start(deck).after(actions).cards_of(c) == occurrences(deck, c),
{
    lemma_start_holds_deck(deck, c);
    lemma_start_in_play(deck);
    lemma_after_keeps_cards(GameView::start(deck), actions, c);
}

/// A game that was just dealt is as the rules make them.
pub proof fn lemma_start_in_play(deck: Seq<Card>)
    requires
        16 <= deck.len() <= usize::MAX,
    ensures
        GameView::start(deck).in_play(),
{
    let s = GameView::start(deck);
    lemma_below_len(deck.len() as int);
    assert(s.card_map.dom() =~= below(deck.len() as int));
    crate::places::lemma_start_placed(deck);
}

proof fn lemma_after_keeps_cards(s: GameView, actions: Seq<Action>, c: Card)
    requires
        s.in_play(),
    ensures
        s.after(actions).cards_of(c) == s.cards_of(c),
    decreases actions.len(),
{
    if actions.len() > 0 {
        lemma_step_keeps_cards(s, actions.first(), c);
        lemma_step_progress(s, actions.first());
        if s.step(actions.first()).1 is Acted {
            lemma_after_keeps_cards(s.step(actions.first()).0, actions.drop_first(), c);
        }
    }
}

} // verus!
