//! How many cards there are: of a full deck, of known faces, and of what is left.

use vstd::prelude::*;
use crate::card_counts::CardCounts;
use crate::determinization::{lemma_numbers_finite, numbers};
use crate::hanabi::{lemma_card_at, lemma_card_ordinal, Card, CardId, FACES};
use crate::holders::{below, holders, lemma_holders_finite};
use crate::model::{lemma_unknown_cards, GameView};
use crate::priors::lemma_deck_prior_usable;

verus! {

/// How many cards have one of the first `k` faces.
pub open spec fn seen_below(faces: Map<usize, Card>, k: int) -> nat
    decreases k,
{
    if k <= 0 {
        0
    } else {
        seen_below(faces, k - 1) + holders(faces, Card::at(k - 1)).len()
    }
}

/// How many cards a full deck holds of the first `k` faces.
pub open spec fn copies_below(k: int) -> nat
    decreases k,
{
    if k <= 0 {
        0
    } else {
        copies_below(k - 1) + Card::at(k - 1).rank.copies()
    }
}

/// There are `n` card numbers below `n`.
pub proof fn lemma_below_len(n: int)
    requires
        0 <= n <= usize::MAX,
    ensures
        below(n).finite(),
        below(n).len() == n,
    decreases n,
{
    if n == 0 {
        assert(below(0) =~= Set::<usize>::empty());
    } else {
        lemma_below_len(n - 1);
        assert(below(n) =~= below(n - 1).insert((n - 1) as usize));
    }
}

/// A card that loses its face counts once less, for its face.
proof fn lemma_seen_below_remove(faces: Map<usize, Card>, x: usize, k: int)
    requires
        faces.dom().finite(),
        faces.contains_key(x),
        0 <= k <= FACES,
    ensures
        seen_below(faces, k) == seen_below(faces.remove(x), k) + (if faces[x].ordinal() < k {
            1nat
        } else {
            0nat
        }),
    decreases k,
{
    if k > 0 {
        lemma_seen_below_remove(faces, x, k - 1);
        let c = Card::at(k - 1);
        lemma_card_at(k - 1);
        lemma_card_ordinal(faces[x]);
        lemma_holders_finite(faces, c);
        if faces[x] == c {
            assert(holders(faces.remove(x), c) =~= holders(faces, c).remove(x));
        } else {
            assert(holders(faces.remove(x), c) =~= holders(faces, c));
        }
    }
}

/// Every card that has a face has one of the faces: counted face by face, the cards are as
/// many as there are cards with a face.
pub proof fn lemma_seen_all(faces: Map<usize, Card>)
    requires
        faces.dom().finite(),
    ensures
        seen_below(faces, FACES as int) == faces.dom().len(),
    decreases faces.dom().len(),
{
    if faces.dom().len() == 0 {
        assert(faces.dom() =~= Set::<usize>::empty());
        lemma_seen_none(faces, FACES as int);
    } else {
        let x = faces.dom().choose();
        lemma_seen_below_remove(faces, x, FACES as int);
        lemma_card_ordinal(faces[x]);
        lemma_seen_all(faces.remove(x));
    }
}

proof fn lemma_seen_none(faces: Map<usize, Card>, k: int)
    requires
        faces.dom() == Set::<usize>::empty(),
    ensures
        seen_below(faces, k) == 0,
    decreases k,
{
    if k > 0 {
        lemma_seen_none(faces, k - 1);
        assert(holders(faces, Card::at(k - 1)) =~= Set::<usize>::empty());
    }
}

/// A full deck holds fifty cards.
pub proof fn lemma_fifty_cards()
    ensures
        copies_below(FACES as int) == 50,
{
    assert(copies_below(5) == 10) by {
        reveal_with_fuel(copies_below, 6);
    }
    assert(copies_below(10) == 20) by {
        reveal_with_fuel(copies_below, 6);
    }
    assert(copies_below(15) == 30) by {
        reveal_with_fuel(copies_below, 6);
    }
    assert(copies_below(20) == 40) by {
        reveal_with_fuel(copies_below, 6);
    }
    assert(copies_below(25) == 50) by {
        reveal_with_fuel(copies_below, 6);
    }
}

/// A multiset that holds every face as often as a full deck does holds as many cards.
pub proof fn lemma_full_deck_total(deck: &CardCounts, k: int)
    requires
        forall|c: Card| deck.count(c) == c.rank.copies(),
    ensures
        deck.total_below(k) == copies_below(k),
    decreases k,
{
    if k > 0 {
        lemma_full_deck_total(deck, k - 1);
    }
}

/// What is left of a full deck, face by face, is the deck less the known faces.
proof fn lemma_remaining_below(s: GameView, k: int)
    requires
        s.within_deck(),
        0 <= k,
    ensures
        s.remaining_below(k) == copies_below(k) - seen_below(s.card_map, k),
    decreases k,
{
    if k > 0 {
        lemma_remaining_below(s, k - 1);
        assert(s.seen(Card::at(k - 1)) <= Card::at(k - 1).rank.copies());
    }
}

/// Of a full deck that many cards are left as are not among the known faces.
pub proof fn lemma_remaining_total(s: GameView)
    requires
        s.inv(),
        s.within_deck(),
    ensures
        s.remaining_total() == 50 - s.card_map.dom().len(),
{
    lemma_remaining_below(s, FACES as int);
    lemma_seen_all(s.card_map);
    lemma_fifty_cards();
}

/// In a game of at most fifty cards that knows no face too often, enough is left of a full
/// deck to give every card of unknown face a face.
pub proof fn lemma_enough_cards(s: GameView)
    requires
        s.inv(),
        s.within_deck(),
        s.total_cards() <= 50,
    ensures
        numbers(s.unknown_cards()).len() <= s.remaining_total(),
{
    let total = s.total_cards() as int;
    let unknown = numbers(s.unknown_cards());
    let known = s.card_map.dom();
    let free = below(total).difference(known);
    lemma_below_len(total);
    lemma_numbers_finite(s.unknown_cards());
    lemma_remaining_total(s);
    assert(unknown.subset_of(free)) by {
        assert forall|k: usize| unknown.contains(k) implies free.contains(k) by {
            lemma_unknown_cards(s, CardId(k));
            if s.undrawn().contains(CardId(k)) {
                let j = choose|j: int| 0 <= j < s.undrawn().len() && s.undrawn()[j] == CardId(k);
            } else {
                let q = choose|q: int|
                    0 <= q < s.hands.len() && (#[trigger] s.hands[q]).contains(CardId(k));
                let j = choose|j: int| 0 <= j < s.hands[q].len() && s.hands[q][j] == CardId(k);
            }
        }
    }
    vstd::set_lib::lemma_set_difference_len(below(total), known);
    assert(below(total).intersect(known) =~= known);
    vstd::set_lib::lemma_len_subset(unknown, free);
}

/// Without priors every card of unknown face about which something was disclosed can draw
/// its face from the faces of a full deck.
pub proof fn lemma_no_priors_are_usable(s: GameView)
    requires
        s.inv(),
    ensures
        !s.has_unusable_prior(Map::empty()),
{
    let priors = Map::<usize, Vec<crate::random::WeightedCard>>::empty();
    if s.has_unusable_prior(priors) {
        let j = choose|j: int|
            0 <= j < s.unknown_cards().len() && (match s.prior_for(
                priors,
                (#[trigger] s.unknown_cards()[j]).0,
            ) {
                Some(choices) => !crate::random::usable(choices),
                None => false,
            });
        let k = s.unknown_cards()[j].0;
        assert(s.information.contains_key(k));
        lemma_deck_prior_usable(s.information[k]);
    }
}

} // verus!
