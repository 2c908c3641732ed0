//! Every card is in one place: in a hand, among the played or the discarded cards, or in the
//! deck; and the played cards are those that lie on the piles.

use vstd::prelude::*;
use crate::conservation::{face_count, lemma_face_count_push, lemma_pile_count_played, pile_count};
use crate::hanabi::{Action, Card, CardId, Clue, Player, Rank};
use crate::model::{Completed, GameView};

verus! {

/// How often a list of cards holds the card `id`.
pub open spec fn place_count(ids: Seq<CardId>, id: CardId) -> nat
    decreases ids.len(),
{
    if ids.len() == 0 {
        0
    } else {
        place_count(ids.drop_last(), id) + (if ids.last() == id {
            1nat
        } else {
            0nat
        })
    }
}

/// How often four hands hold the card `id`.
pub open spec fn hands_places(hands: Seq<Seq<CardId>>, id: CardId) -> nat {
    place_count(hands[0], id) + place_count(hands[1], id) + place_count(hands[2], id)
        + place_count(hands[3], id)
}

/// In how many places the card `id` is: in the hands, among the played and the discarded
/// cards, and in the deck.
pub open spec fn places_of(s: GameView, id: CardId) -> nat {
    hands_places(s.hands, id) + place_count(s.played_cards, id) + place_count(
        s.discarded_cards,
        id,
    ) + place_count(s.undrawn(), id)
}

/// Every card of the game is in exactly one place, and nothing else is anywhere.
pub open spec fn placed(s: GameView) -> bool {
    forall|id: CardId| #[trigger]
        places_of(s, id) == (if id.0 < s.total_cards() {
            1nat
        } else {
            0nat
        })
}

/// The played cards are the cards on the piles: of every face as many were played as lie on
/// the pile of its suit, which is one if the pile has reached its rank and none if not.
pub open spec fn piles_match(s: GameView) -> bool {
    forall|c: Card| #[trigger]
        face_count(s.card_map, s.played_cards, c) == pile_count(s.piles, c)
}

pub proof fn lemma_place_count_push(ids: Seq<CardId>, new: CardId, id: CardId)
    ensures
        place_count(ids.push(new), id) == place_count(ids, id) + (if new == id {
            1nat
        } else {
            0nat
        }),
{
    assert(ids.push(new).drop_last() =~= ids);
}

pub proof fn lemma_place_count_remove(ids: Seq<CardId>, i: int, id: CardId)
    requires
        0 <= i < ids.len(),
    ensures
        place_count(ids.remove(i), id) + (if ids[i] == id {
            1nat
        } else {
            0nat
        }) == place_count(ids, id),
    decreases ids.len(),
{
    if i == ids.len() - 1 {
        assert(ids.remove(i) =~= ids.drop_last());
    } else {
        lemma_place_count_remove(ids.drop_last(), i, id);
        assert(ids.remove(i).drop_last() =~= ids.drop_last().remove(i));
        assert(ids.remove(i).last() == ids.last());
    }
}

/// A list holds a card at least once if it holds it at a place.
pub proof fn lemma_place_count_at(ids: Seq<CardId>, i: int)
    requires
        0 <= i < ids.len(),
    ensures
        place_count(ids, ids[i]) >= 1,
{
    lemma_place_count_remove(ids, i, ids[i]);
}

/// A list holds a card that it holds at two places at least twice.
pub proof fn lemma_place_count_twice(ids: Seq<CardId>, i: int, j: int)
    requires
        0 <= i < j < ids.len(),
        ids[i] == ids[j],
    ensures
        place_count(ids, ids[i]) >= 2,
{
    lemma_place_count_remove(ids, j, ids[j]);
    assert(ids.remove(j)[i] == ids[i]);
    lemma_place_count_at(ids.remove(j), i);
}

/// The cards numbered from `from` on, `n` of them, hold each of their cards once.
pub proof fn lemma_place_count_range(from: int, n: int, id: CardId)
    requires
        0 <= from,
        0 <= n,
        from + n <= usize::MAX,
    ensures
        place_count(Seq::new(n as nat, |j: int| CardId((from + j) as usize)), id) == (if from
            <= id.0 < from + n {
            1nat
        } else {
            0nat
        }),
    decreases n,
{
    let ids = Seq::new(n as nat, |j: int| CardId((from + j) as usize));
    if n > 0 {
        lemma_place_count_range(from, n - 1, id);
        assert(ids.drop_last() =~= Seq::new((n - 1) as nat, |j: int| CardId((from + j) as usize)));
        assert(ids.last() == CardId((from + n - 1) as usize));
    }
}

proof fn lemma_place_count_four(
    first: CardId,
    second: CardId,
    third: CardId,
    fourth: CardId,
    id: CardId,
)
    ensures
        place_count(seq![first, second, third, fourth], id) == (if first == id {
            1nat
        } else {
            0nat
        }) + (if second == id {
            1nat
        } else {
            0nat
        }) + (if third == id {
            1nat
        } else {
            0nat
        }) + (if fourth == id {
            1nat
        } else {
            0nat
        }),
{
    lemma_place_count_push(seq![first, second, third], fourth, id);
    lemma_place_count_push(seq![first, second], third, id);
    lemma_place_count_push(seq![first], second, id);
    lemma_place_count_push(Seq::<CardId>::empty(), first, id);
    assert(seq![first, second, third].push(fourth) =~= seq![first, second, third, fourth]);
    assert(seq![first, second].push(third) =~= seq![first, second, third]);
    assert(seq![first].push(second) =~= seq![first, second]);
    assert(Seq::<CardId>::empty().push(first) =~= seq![first]);
}

/// In a game that was just dealt every card is in one place and the piles are as empty as
/// the played cards.
pub proof fn lemma_start_placed(deck: Seq<Card>)
    requires
        16 <= deck.len() <= usize::MAX,
    ensures
        placed(GameView::start(deck)),
        piles_match(GameView::start(deck)),
{
    let s = GameView::start(deck);
    assert forall|id: CardId| #[trigger]
        places_of(s, id) == (if id.0 < s.total_cards() {
            1nat
        } else {
            0nat
        }) by {
        lemma_place_count_four(CardId(0), CardId(4), CardId(8), CardId(12), id);
        lemma_place_count_four(CardId(1), CardId(5), CardId(9), CardId(13), id);
        lemma_place_count_four(CardId(2), CardId(6), CardId(10), CardId(14), id);
        lemma_place_count_four(CardId(3), CardId(7), CardId(11), CardId(15), id);
        assert(s.hands[0] =~= seq![CardId(0), CardId(4), CardId(8), CardId(12)]);
        assert(s.hands[1] =~= seq![CardId(1), CardId(5), CardId(9), CardId(13)]);
        assert(s.hands[2] =~= seq![CardId(2), CardId(6), CardId(10), CardId(14)]);
        assert(s.hands[3] =~= seq![CardId(3), CardId(7), CardId(11), CardId(15)]);
        lemma_place_count_range(16, deck.len() - 16, id);
        assert(s.undrawn() =~= Seq::new(
            (deck.len() - 16) as nat,
            |j: int| CardId((16 + j) as usize),
        ));
        assert(place_count(s.played_cards, id) == 0);
        assert(place_count(s.discarded_cards, id) == 0);
    }
    assert forall|c: Card| #[trigger]
        face_count(s.card_map, s.played_cards, c) == pile_count(s.piles, c) by {}
}

proof fn lemma_hands_places_update(hands: Seq<Seq<CardId>>, seat: int, hand: Seq<CardId>, id: CardId)
    requires
        hands.len() == 4,
        0 <= seat < 4,
    ensures
        hands_places(hands.update(seat, hand), id) + place_count(hands[seat], id) == hands_places(
            hands,
            id,
        ) + place_count(hand, id),
{
}

/// Drawing moves the first card of the deck to the end of the hand `hand`.
proof fn lemma_draw_keeps_places(s: GameView, hand: Seq<CardId>, id: CardId)
    requires
        s.next_card_id + s.deck_size <= usize::MAX,
        s.deck_size > 0,
    ensures
        ({
            let next = CardId(s.next_card_id as usize);
            let deck_after = Seq::new(
                (s.deck_size - 1) as nat,
                |j: int| CardId((s.next_card_id + 1 + j) as usize),
            );
            place_count(hand.push(next), id) + place_count(deck_after, id) == place_count(hand, id)
                + place_count(s.undrawn(), id)
        }),
{
    let next = CardId(s.next_card_id as usize);
    lemma_place_count_push(hand, next, id);
    lemma_place_count_range(s.next_card_id as int, s.deck_size as int, id);
    lemma_place_count_range(s.next_card_id as int + 1, s.deck_size as int - 1, id);
}

/// What follows an action's effect leaves every card where it is, but for the card that is
/// drawn, which leaves the deck for the hand.
proof fn lemma_conclude_keeps_places(s: GameView, done: Completed, draws: bool, id: CardId)
    requires
        s.hands.len() == 4,
        s.next_card_id + s.deck_size <= usize::MAX,
    ensures
        places_of(s.conclude(done, draws).0, id) == places_of(s, id),
{
    let seat = s.current_turn.seat();
    if s.final_turn == Some(s.current_turn) {
    } else if draws && s.deck_size > 0 {
        let drawn = s.draw();
        lemma_draw_keeps_places(s, s.hands[seat], id);
        lemma_hands_places_update(
            s.hands,
            seat,
            s.hands[seat].push(CardId(s.next_card_id as usize)),
            id,
        );
        assert(drawn.undrawn() =~= Seq::new(
            (s.deck_size - 1) as nat,
            |j: int| CardId((s.next_card_id + 1 + j) as usize),
        ));
        assert(places_of(drawn, id) == places_of(s, id));
        assert(places_of(drawn.end_turn(done), id) == places_of(drawn, id)) by {
            assert(drawn.end_turn(done).undrawn() =~= drawn.undrawn());
        }
    } else {
        assert(s.end_turn(done).undrawn() =~= s.undrawn());
    }
}

/// A card that leaves the current player's hand for the discarded cards is still in one
/// place.
proof fn lemma_discarded_keeps_places(s: GameView, i: int, t: GameView, id: CardId)
    requires
        s.hands.len() == 4,
        0 <= i < s.hand(s.current_turn).len(),
        t == (GameView {
            discarded_cards: s.discarded_cards.push(s.hand(s.current_turn)[i]),
            clues: t.clues,
            strikes: t.strikes,
            ..s.take_card(i)
        }),
    ensures
        places_of(t, id) == places_of(s, id),
{
    let seat = s.current_turn.seat();
    let hand = s.hand(s.current_turn);
    lemma_place_count_remove(hand, i, id);
    lemma_hands_places_update(s.hands, seat, hand.remove(i), id);
    lemma_place_count_push(s.discarded_cards, hand[i], id);
    assert(t.undrawn() =~= s.undrawn());
}

/// A card that leaves the current player's hand for the played cards is still in one place.
proof fn lemma_played_keeps_places(s: GameView, i: int, t: GameView, id: CardId)
    requires
        s.hands.len() == 4,
        0 <= i < s.hand(s.current_turn).len(),
        t == (GameView {
            played_cards: s.played_cards.push(s.hand(s.current_turn)[i]),
            clues: t.clues,
            piles: t.piles,
            ..s.take_card(i)
        }),
    ensures
        places_of(t, id) == places_of(s, id),
{
    let seat = s.current_turn.seat();
    let hand = s.hand(s.current_turn);
    lemma_place_count_remove(hand, i, id);
    lemma_hands_places_update(s.hands, seat, hand.remove(i), id);
    lemma_place_count_push(s.played_cards, hand[i], id);
    assert(t.undrawn() =~= s.undrawn());
}

proof fn lemma_discard_keeps_places(s: GameView, i: usize, id: CardId)
    requires
        s.in_play(),
    ensures
        places_of(s.discard(i).0, id) == places_of(s, id),
{
    let hand = s.hand(s.current_turn);
    if i < hand.len() && s.clues != 8 && s.knows(hand[i as int]) {
        let after = GameView {
            discarded_cards: s.discarded_cards.push(hand[i as int]),
            clues: s.clues + 1,
            ..s.take_card(i as int)
        };
        lemma_discarded_keeps_places(s, i as int, after, id);
        lemma_conclude_keeps_places(
            after,
            Completed::Discarded(i, s.face(hand[i as int])),
            true,
            id,
        );
    }
}

proof fn lemma_play_keeps_places(s: GameView, i: usize, id: CardId)
    requires
        s.in_play(),
    ensures
        places_of(s.play(i).0, id) == places_of(s, id),
{
    let hand = s.hand(s.current_turn);
    if i < hand.len() && s.knows(hand[i as int]) {
        let card = s.face(hand[i as int]);
        let taken = s.take_card(i as int);
        if card.rank.fits(s.pile(card.suit)) {
            let after = GameView {
                piles: s.piles.update(card.suit.ordinal(), Some(card.rank)),
                played_cards: s.played_cards.push(hand[i as int]),
                clues: if card.rank == Rank::Five && s.clues < 8 {
                    s.clues + 1
                } else {
                    s.clues
                },
                ..taken
            };
            lemma_played_keeps_places(s, i as int, after, id);
            lemma_conclude_keeps_places(after, Completed::Played(i, card), true, id);
        } else {
            let after = GameView {
                discarded_cards: s.discarded_cards.push(hand[i as int]),
                strikes: s.strikes + 1,
                ..taken
            };
            lemma_discarded_keeps_places(s, i as int, after, id);
            if after.strikes != 3 {
                lemma_conclude_keeps_places(after, Completed::Played(i, card), true, id);
            }
        }
    }
}

proof fn lemma_clue_keeps_places(s: GameView, target: Player, clue: Clue, id: CardId)
    requires
        s.in_play(),
    ensures
        places_of(s.clue(target, clue).0, id) == places_of(s, id),
{
    let hand = s.hand(target);
    if target != s.current_turn && s.clues != 0 && s.all_known(hand) && s.matching(
        hand,
        clue,
    ).len() != 0 {
        let after = GameView {
            information: s.disclose(hand, clue),
            clues: (s.clues - 1) as nat,
            ..s
        };
        assert(after.undrawn() =~= s.undrawn());
        assert(places_of(after, id) == places_of(s, id));
        lemma_conclude_keeps_places(
            after,
            Completed::Clued(target, clue, s.matching(hand, clue)),
            false,
            id,
        );
    }
}

/// No action changes in how many places a card is.
pub proof fn lemma_step_keeps_places(s: GameView, action: Action, id: CardId)
    requires
        s.in_play(),
    ensures
        places_of(s.step(action).0, id) == places_of(s, id),
{
    match action {
        Action::Discard(i) => lemma_discard_keeps_places(s, i, id),
        Action::Play(i) => lemma_play_keeps_places(s, i, id),
        Action::Clue(target, clue) => lemma_clue_keeps_places(s, target, clue, id),
    }
}

/// A card that is played on its pile is one more played card of its face, and one more card
/// on the piles; nothing else changes the played cards or the piles.
pub proof fn lemma_step_keeps_piles(s: GameView, action: Action, c: Card)
    requires
        s.in_play(),
    ensures
        face_count(s.step(action).0.card_map, s.step(action).0.played_cards, c) == pile_count(
            s.step(action).0.piles,
            c,
        ),
{
    assert(face_count(s.card_map, s.played_cards, c) == pile_count(s.piles, c));
    match action {
        Action::Play(i) => {
            let hand = s.hand(s.current_turn);
            if i < hand.len() && s.knows(hand[i as int]) {
                let card = s.face(hand[i as int]);
                if card.rank.fits(s.pile(card.suit)) {
                    lemma_face_count_push(s.card_map, s.played_cards, hand[i as int], c);
                    lemma_pile_count_played(s.piles, card, c);
                }
            }
        },
        _ => {},
    }
}

/// Cards whose faces are the same under two sets of known faces count the same.
pub proof fn lemma_face_count_same(
    first: Map<usize, Card>,
    second: Map<usize, Card>,
    ids: Seq<CardId>,
    c: Card,
)
    requires
        forall|j: int| 0 <= j < ids.len() ==> first[(#[trigger] ids[j]).0] == second[ids[j].0],
    ensures
        face_count(first, ids, c) == face_count(second, ids, c),
    decreases ids.len(),
{
    if ids.len() > 0 {
        let init = ids.drop_last();
        assert forall|j: int| 0 <= j < init.len() implies first[(#[trigger] init[j]).0]
            == second[init[j].0] by {
            assert(init[j] == ids[j]);
        }
        lemma_face_count_same(first, second, init, c);
        assert(ids[ids.len() - 1] == ids.last());
    }
}

/// A game that differs from another in nothing but faces, and not in the faces of the played
/// cards, has its cards in the same places and its played cards on the same piles.
pub proof fn lemma_same_places(s: GameView, t: GameView)
    requires
        placed(s),
        piles_match(s),
        t == (GameView { card_map: t.card_map, ..s }),
        forall|j: int|
            0 <= j < s.played_cards.len() ==> t.card_map[(#[trigger] s.played_cards[j]).0]
                == s.card_map[s.played_cards[j].0],
    ensures
        placed(t),
        piles_match(t),
{
    assert forall|id: CardId| #[trigger]
        places_of(t, id) == (if id.0 < t.total_cards() {
            1nat
        } else {
            0nat
        }) by {
        assert(t.undrawn() =~= s.undrawn());
        assert(places_of(s, id) == (if id.0 < s.total_cards() {
            1nat
        } else {
            0nat
        }));
    }
    assert forall|c: Card| #[trigger]
        face_count(t.card_map, t.played_cards, c) == pile_count(t.piles, c) by {
        lemma_face_count_same(t.card_map, s.card_map, s.played_cards, c);
        assert(face_count(s.card_map, s.played_cards, c) == pile_count(s.piles, c));
    }
}

/// All the cards of the game, place by place: the hands by seat, the played cards, the
/// discarded cards, the deck.
pub open spec fn located(s: GameView) -> Seq<CardId> {
    s.hands[0] + s.hands[1] + s.hands[2] + s.hands[3] + s.played_cards + s.discarded_cards
        + s.undrawn()
}

pub proof fn lemma_place_count_concat(a: Seq<CardId>, b: Seq<CardId>, id: CardId)
    ensures
        place_count(a + b, id) == place_count(a, id) + place_count(b, id),
    decreases b.len(),
{
    if b.len() == 0 {
        assert(a + b =~= a);
    } else {
        lemma_place_count_concat(a, b.drop_last(), id);
        assert((a + b).drop_last() =~= a + b.drop_last());
    }
}

/// A list that holds no card twice or more has its cards at different places.
pub proof fn lemma_no_card_twice(ids: Seq<CardId>)
    requires
        forall|id: CardId| #[trigger] place_count(ids, id) <= 1,
    ensures
        ids.no_duplicates(),
{
    assert forall|i: int, j: int| 0 <= i < ids.len() && 0 <= j < ids.len() && i != j implies ids[i]
        != ids[j] by {
        if ids[i] == ids[j] {
            if i < j {
                lemma_place_count_twice(ids, i, j);
            } else {
                lemma_place_count_twice(ids, j, i);
            }
            assert(place_count(ids, ids[i]) <= 1);
        }
    }
}

/// No card of a game is in two places or twice in one: the hands, the played cards, the
/// discarded cards and the deck, taken together, hold the cards of the game, each once.
pub proof fn lemma_every_card_once(s: GameView)
    requires
        s.inv(),
    ensures
        located(s).no_duplicates(),
        located(s).len() == s.total_cards(),
        forall|id: CardId| located(s).contains(id) <==> id.0 < s.total_cards(),
        forall|p: Player| #[trigger] s.hand(p).no_duplicates(),
{
    let all = located(s);
    assert forall|id: CardId| #[trigger] place_count(all, id) == places_of(s, id) by {
        let h0 = s.hands[0];
        let h01 = h0 + s.hands[1];
        let h012 = h01 + s.hands[2];
        let h = h012 + s.hands[3];
        let hp = h + s.played_cards;
        let hpd = hp + s.discarded_cards;
        lemma_place_count_concat(h0, s.hands[1], id);
        lemma_place_count_concat(h01, s.hands[2], id);
        lemma_place_count_concat(h012, s.hands[3], id);
        lemma_place_count_concat(h, s.played_cards, id);
        lemma_place_count_concat(hp, s.discarded_cards, id);
        lemma_place_count_concat(hpd, s.undrawn(), id);
    }
    assert forall|id: CardId| #[trigger] place_count(all, id) <= 1 by {
        assert(places_of(s, id) <= 1);
    }
    lemma_no_card_twice(all);
    assert forall|id: CardId| all.contains(id) <==> id.0 < s.total_cards() by {
        assert(place_count(all, id) == places_of(s, id));
        lemma_place_count_contains(all, id);
    }
    assert forall|p: Player| #[trigger] s.hand(p).no_duplicates() by {
        let hand = s.hand(p);
        assert forall|id: CardId| #[trigger] place_count(hand, id) <= 1 by {
            assert(places_of(s, id) <= 1);
        }
        lemma_no_card_twice(hand);
    }
}

/// A list holds the cards that it holds at least once.
pub proof fn lemma_place_count_contains(ids: Seq<CardId>, id: CardId)
    ensures
        ids.contains(id) <==> place_count(ids, id) >= 1,
    decreases ids.len(),
{
    if ids.len() > 0 {
        let init = ids.drop_last();
        lemma_place_count_contains(init, id);
        assert(init.push(ids.last()) =~= ids);
        crate::seq_facts::lemma_push_contains(init, ids.last(), id);
    }
}

/// Of every face as many cards were played as lie on the piles: one, if the pile of the
/// face's suit has reached its rank, and none if not.
pub proof fn lemma_played_on_piles(s: GameView, c: Card)
    requires
        s.inv(),
    ensures
        face_count(s.card_map, s.played_cards, c) == pile_count(s.piles, c),
{
}

} // verus!
