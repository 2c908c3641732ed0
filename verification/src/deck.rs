//! The deck: its fifty cards, their shuffling, and what a game dealt from them knows.

use vstd::prelude::*;
use rand::StdRng;
use crate::card_counts::{lemma_occurrences_update, lemma_total_empty, occurrences, CardCounts};
use crate::counting::{copies_below, lemma_fifty_cards};
use crate::hanabi::{deck_distribution, lemma_card_at, lemma_card_ordinal, Card, FACES};
use crate::holders::{below, holders, lemma_holders_empty, lemma_holders_step};
use crate::model::GameView;
use crate::random::random_index;

verus! {

/// Whether a list of cards holds every face as often as a full deck does.
pub open spec fn is_full_deck(deck: Seq<Card>) -> bool {
    forall|c: Card| #[trigger] occurrences(deck, c) == c.rank.copies()
}

/// The fifty cards of a full deck, face by face.
pub fn full_deck() -> (deck: Vec<Card>)
    ensures
        is_full_deck(deck@),
        deck.len() == 50,
{
    let counts = deck_distribution();
    let none = CardCounts::new();
    proof {
        lemma_total_empty(&none, FACES as int);
    }
    counts.cards_beyond(&none)
}

/// Puts the cards of a deck in a random order: every place, from the first on, changes cards
/// with a place that is drawn uniformly from those up to and including itself. Which places
/// are drawn is left to chance; a deck of at most one card stays as it is.
pub fn shuffle(deck: &mut Vec<Card>, rng: &mut StdRng)
    ensures
        exists|picks: Seq<int>|
            picks.len() == old(deck).len() && #[trigger] picks_in_range(picks) && final(deck)@
                == rearranged(old(deck)@, picks),
        old(deck).len() <= 1 ==> final(deck)@ == old(deck)@,
        final(deck).len() == old(deck).len(),
        forall|c: Card| occurrences(final(deck)@, c) == occurrences(old(deck)@, c),
        is_full_deck(old(deck)@) ==> is_full_deck(final(deck)@),
{
    let ghost mut picks: Seq<int> = Seq::empty();
    let mut i: usize = 0;
    while i < deck.len()
        invariant
            i <= deck.len(),
            deck.len() == old(deck).len(),
            picks.len() == i,
            picks_in_range(picks),
            deck@ == rearranged(old(deck)@, picks),
            i <= 1 ==> deck@ == old(deck)@,
        decreases deck.len() - i,
    {
        let j = random_index(i + 1, rng);
        exchange(deck, i, j);
        proof {
            let longer = picks.push(j as int);
            assert(longer.drop_last() =~= picks);
            assert(picks_in_range(longer)) by {
                assert forall|k: int| 0 <= k < longer.len() implies 0 <= #[trigger] longer[k]
                    <= k by {
                    if k < picks.len() {
                        assert(longer[k] == picks[k]);
                    }
                }
            }
            if i == 0 {
                assert(deck@ =~= old(deck)@);
            }
            picks = longer;
        }
        i = i + 1;
    }
    proof {
        assert forall|c: Card| occurrences(deck@, c) == occurrences(old(deck)@, c) by {
            lemma_rearranged_keeps_cards(old(deck)@, picks, c);
        }
        if is_full_deck(old(deck)@) {
            assert forall|c: Card| #[trigger] occurrences(deck@, c) == c.rank.copies() by {
                assert(occurrences(old(deck)@, c) == c.rank.copies());
            }
        }
    }
}

/// The cards with those at the places `i` and `j` exchanged.
pub open spec fn exchanged(cards: Seq<Card>, i: int, j: int) -> Seq<Card> {
    cards.update(i, cards[j]).update(j, cards[i])
}

/// Whether `picks` names for every place a place up to and including it.
pub open spec fn picks_in_range(picks: Seq<int>) -> bool {
    forall|i: int| 0 <= i < picks.len() ==> 0 <= #[trigger] picks[i] <= i
}

/// The cards after every place that `picks` has a place for, from the first on, has changed
/// cards with that place.
pub open spec fn rearranged(cards: Seq<Card>, picks: Seq<int>) -> Seq<Card>
    decreases picks.len(),
{
    if picks.len() == 0 {
        cards
    } else {
        exchanged(rearranged(cards, picks.drop_last()), picks.len() - 1, picks.last())
    }
}

/// Exchanges the cards at two places of a deck.
pub fn exchange(deck: &mut Vec<Card>, i: usize, j: usize)
    requires
        i < old(deck).len(),
        j < old(deck).len(),
    ensures
        final(deck)@ == exchanged(old(deck)@, i as int, j as int),
{
    let first = deck[i];
    let second = deck[j];
    deck[i] = second;
    deck[j] = first;
}

/// Cards that change places stay the same cards: a rearranged deck is as long as it was and
/// holds every face as often.
pub proof fn lemma_rearranged_keeps_cards(cards: Seq<Card>, picks: Seq<int>, c: Card)
    requires
        picks.len() <= cards.len(),
        picks_in_range(picks),
    ensures
        rearranged(cards, picks).len() == cards.len(),
        occurrences(rearranged(cards, picks), c) == occurrences(cards, c),
    decreases picks.len(),
{
    if picks.len() > 0 {
        let earlier = picks.drop_last();
        assert(picks_in_range(earlier)) by {
            assert forall|k: int| 0 <= k < earlier.len() implies 0 <= #[trigger] earlier[k]
                <= k by {
                assert(earlier[k] == picks[k]);
            }
        }
        lemma_rearranged_keeps_cards(cards, earlier, c);
        let before = rearranged(cards, earlier);
        let i = picks.len() - 1;
        let j = picks.last();
        assert(0 <= picks[i] <= i);
        lemma_occurrences_update(before, i, before[j], c);
        lemma_occurrences_update(before.update(i, before[j]), j, before[i], c);
    }
}

/// How many cards of a list have one of the first `k` faces.
pub open spec fn occurrences_below(cards: Seq<Card>, k: int) -> nat
    decreases k,
{
    if k <= 0 {
        0
    } else {
        occurrences_below(cards, k - 1) + occurrences(cards, Card::at(k - 1))
    }
}

proof fn lemma_occurrences_below_push(cards: Seq<Card>, card: Card, k: int)
    requires
        0 <= k <= FACES,
    ensures
        occurrences_below(cards.push(card), k) == occurrences_below(cards, k) + (if card.ordinal()
            < k {
            1nat
        } else {
            0nat
        }),
    decreases k,
{
    if k > 0 {
        lemma_occurrences_below_push(cards, card, k - 1);
        lemma_card_at(k - 1);
        lemma_card_ordinal(card);
        assert(cards.push(card).drop_last() =~= cards);
    }
}

/// Every card of a list has one of the faces: counted face by face, the cards are as many
/// as the list is long.
pub proof fn lemma_occurrences_all(cards: Seq<Card>)
    ensures
        occurrences_below(cards, FACES as int) == cards.len(),
    decreases cards.len(),
{
    if cards.len() == 0 {
        lemma_occurrences_none(cards, FACES as int);
    } else {
        lemma_occurrences_all(cards.drop_last());
        lemma_occurrences_below_push(cards.drop_last(), cards.last(), FACES as int);
        lemma_card_ordinal(cards.last());
        assert(cards.drop_last().push(cards.last()) =~= cards);
    }
}

proof fn lemma_occurrences_none(cards: Seq<Card>, k: int)
    requires
        cards.len() == 0,
    ensures
        occurrences_below(cards, k) == 0,
    decreases k,
{
    if k > 0 {
        lemma_occurrences_none(cards, k - 1);
    }
}

proof fn lemma_full_deck_below(deck: Seq<Card>, k: int)
    requires
        is_full_deck(deck),
    ensures
        occurrences_below(deck, k) == copies_below(k),
    decreases k,
{
    if k > 0 {
        lemma_full_deck_below(deck, k - 1);
        assert(occurrences(deck, Card::at(k - 1)) == Card::at(k - 1).rank.copies());
    }
}

/// A full deck has fifty cards.
pub proof fn lemma_full_deck_len(deck: Seq<Card>)
    requires
        is_full_deck(deck),
    ensures
        deck.len() == 50,
{
    lemma_occurrences_all(deck);
    lemma_full_deck_below(deck, FACES as int);
    lemma_fifty_cards();
}

/// Among the first `n` cards of a deck whose faces are all known, a face is known as often
/// as it occurs there.
proof fn lemma_seen_of_deck(deck: Seq<Card>, n: int, c: Card)
    requires
        0 <= n <= deck.len() <= usize::MAX,
        GameView::start(deck).card_map.dom().finite(),
    ensures
        holders(GameView::start(deck).card_map.restrict(below(n)), c).len() == occurrences(
            deck.take(n),
            c,
        ),
    decreases n,
{
    let faces = GameView::start(deck).card_map;
    if n == 0 {
        assert(faces.restrict(below(0)) =~= Map::<usize, Card>::empty());
        lemma_holders_empty(c);
    } else {
        lemma_seen_of_deck(deck, n - 1, c);
        lemma_holders_step(faces, (n - 1) as usize, c);
        assert(deck.take(n).drop_last() =~= deck.take(n - 1));
    }
}

/// A game that was dealt from a full deck has fifty cards and knows every face exactly as
/// often as the deck holds it.
pub proof fn lemma_dealt_from_full_deck(deck: Seq<Card>)
    requires
        is_full_deck(deck),
    ensures
        deck.len() == 50,
        GameView::start(deck).total_cards() == 50,
        GameView::start(deck).within_deck(),
        forall|c: Card| #[trigger] GameView::start(deck).seen(c) == c.rank.copies(),
{
    lemma_full_deck_len(deck);
    crate::conservation::lemma_start_in_play(deck);
    let s = GameView::start(deck);
    assert forall|c: Card| #[trigger] s.seen(c) == c.rank.copies() by {
        lemma_seen_of_deck(deck, deck.len() as int, c);
        assert(s.card_map.restrict(below(deck.len() as int)) =~= s.card_map);
        assert(deck.take(deck.len() as int) =~= deck);
        assert(occurrences(deck, c) == c.rank.copies());
    }
}

} // verus!
