//! Choices of faces, restricted by what clues have disclosed.

use vstd::prelude::*;
use crate::hanabi::{deck_distribution, lemma_card_ordinal, Card, Information, FACES};
use crate::random::{offers_card, usable, weight_sum, WeightedCard};

verus! {

/// Whether a face agrees with every disclosure of a log.
pub open spec fn agrees_with_all(log: Seq<Information>, card: Card) -> bool {
    forall|j: int| 0 <= j < log.len() ==> (#[trigger] log[j]).agrees_with(card)
}

/// The choices whose face agrees with every disclosure of `log`, in their order and with
/// their weights.
pub open spec fn restricted(choices: Seq<WeightedCard>, log: Seq<Information>) -> Seq<
    WeightedCard,
>
    decreases choices.len(),
{
    if choices.len() == 0 {
        Seq::empty()
    } else {
        let rest = restricted(choices.drop_last(), log);
        if agrees_with_all(log, choices.last().item) {
            rest.push(choices.last())
        } else {
            rest
        }
    }
}

/// The first `k` faces, each with the weight of its copies in a full deck.
pub open spec fn deck_choices(k: int) -> Seq<WeightedCard>
    decreases k,
{
    if k <= 0 {
        Seq::empty()
    } else {
        deck_choices(k - 1).push(
            WeightedCard {
                weight: Card::at(k - 1).rank.copies() as u32,
                item: Card::at(k - 1),
            },
        )
    }
}

/// What restriction leaves is offered by the choices and agrees with the log.
pub proof fn lemma_restricted(choices: Seq<WeightedCard>, log: Seq<Information>, card: Card)
    ensures
        offers_card(restricted(choices, log), card) <==> offers_card(choices, card)
            && agrees_with_all(log, card),
    decreases choices.len(),
{
    if choices.len() > 0 {
        let init = choices.drop_last();
        let last = choices.last();
        lemma_restricted(init, log, card);
        let rest = restricted(init, log);
        if offers_card(choices, card) {
            let i = choose|i: int| 0 <= i < choices.len() && (#[trigger] choices[i]).item == card;
            if i < init.len() {
                assert(init[i].item == card);
            }
        }
        if offers_card(init, card) {
            let i = choose|i: int| 0 <= i < init.len() && (#[trigger] init[i]).item == card;
            assert(choices[i].item == card);
        }
        if agrees_with_all(log, last.item) {
            let kept = rest.push(last);
            assert(kept[kept.len() - 1] == last);
            if offers_card(rest, card) {
                let i = choose|i: int| 0 <= i < rest.len() && (#[trigger] rest[i]).item == card;
                assert(kept[i].item == card);
            }
            if offers_card(kept, card) {
                let i = choose|i: int| 0 <= i < kept.len() && (#[trigger] kept[i]).item == card;
                if i < rest.len() {
                    assert(rest[i].item == card);
                }
            }
            assert(choices[choices.len() - 1] == last);
        }
    }
}

/// Whether a face agrees with every disclosure of a log.
pub fn consistent_with_all(log: &Vec<Information>, card: Card) -> (ok: bool)
    ensures
        ok == agrees_with_all(log@, card),
{
    let mut j: usize = 0;
    while j < log.len()
        invariant
            j <= log.len(),
            forall|i: int| 0 <= i < j ==> (#[trigger] log@[i]).agrees_with(card),
        decreases log.len() - j,
    {
        if !log[j].consistent_with(card) {
            return false;
        }
        j = j + 1;
    }
    true
}

/// The choices whose face agrees with every disclosure of `log`.
pub fn restrict_prior(choices: &Vec<WeightedCard>, log: &Vec<Information>) -> (kept: Vec<
    WeightedCard,
>)
    ensures
        kept@ == restricted(choices@, log@),
{
    let mut kept: Vec<WeightedCard> = Vec::new();
    let mut i: usize = 0;
    assert(choices@.take(0) =~= Seq::<WeightedCard>::empty());
    while i < choices.len()
        invariant
            i <= choices.len(),
            kept@ == restricted(choices@.take(i as int), log@),
        decreases choices.len() - i,
    {
        assert(choices@.take(i as int + 1).drop_last() =~= choices@.take(i as int));
        if consistent_with_all(log, choices[i].item) {
            kept.push(choices[i]);
        }
        i = i + 1;
    }
    assert(choices@.take(choices.len() as int) =~= choices@);
    kept
}

/// The faces of a full deck as choices, each with the weight of its copies.
pub fn deck_prior() -> (choices: Vec<WeightedCard>)
    ensures
        choices@ == deck_choices(FACES as int),
{
    let deck = deck_distribution();
    let mut choices: Vec<WeightedCard> = Vec::new();
    let mut i: usize = 0;
    while i < FACES
        invariant
            i <= FACES,
            forall|c: Card| deck.count(c) == c.rank.copies(),
            choices@ == deck_choices(i as int),
        decreases FACES - i,
    {
        let card = Card::from_index(i);
        let count = deck.get(card);
        choices.push(WeightedCard { weight: count as u32, item: card });
        i = i + 1;
    }
    choices
}

/// Restriction keeps choices that were there, and no more than there were.
pub proof fn lemma_restricted_members(choices: Seq<WeightedCard>, log: Seq<Information>)
    ensures
        restricted(choices, log).len() <= choices.len(),
        forall|i: int|
            0 <= i < restricted(choices, log).len() ==> exists|j: int|
                0 <= j < choices.len() && choices[j] == #[trigger] restricted(choices, log)[i],
    decreases choices.len(),
{
    if choices.len() > 0 {
        let init = choices.drop_last();
        lemma_restricted_members(init, log);
        let rest = restricted(init, log);
        let kept = restricted(choices, log);
        assert forall|i: int| 0 <= i < kept.len() implies exists|j: int|
            0 <= j < choices.len() && choices[j] == #[trigger] kept[i] by {
            if i < rest.len() {
                let j = choose|j: int| 0 <= j < init.len() && init[j] == rest[i];
                assert(choices[j] == kept[i]);
            } else {
                assert(choices[choices.len() - 1] == kept[i]);
            }
        }
    }
}

/// Weights that all lie between two bounds sum to between the bounds times their number.
pub proof fn lemma_weight_sum_bounds(choices: Seq<WeightedCard>, low: nat, high: nat)
    requires
        forall|i: int| 0 <= i < choices.len() ==> low <= (#[trigger] choices[i]).weight <= high,
    ensures
        low * choices.len() <= weight_sum(choices) <= high * choices.len(),
    decreases choices.len(),
{
    if choices.len() > 0 {
        let init = choices.drop_last();
        assert forall|i: int| 0 <= i < init.len() implies low <= (#[trigger] init[i]).weight
            <= high by {
            assert(init[i] == choices[i]);
        }
        lemma_weight_sum_bounds(init, low, high);
        let n = init.len();
        assert(low * (n + 1) == low * n + low) by (nonlinear_arith);
        assert(high * (n + 1) == high * n + high) by (nonlinear_arith);
        assert(choices.len() == n + 1);
        assert(low <= choices[choices.len() - 1].weight <= high);
    } else {
        assert(low * 0 == 0) by (nonlinear_arith);
        assert(high * 0 == 0) by (nonlinear_arith);
    }
}

/// The choices of a full deck are its faces in their order, each with a weight of one to
/// three.
pub proof fn lemma_deck_choices(k: int)
    requires
        0 <= k <= FACES,
    ensures
        deck_choices(k).len() == k,
        forall|i: int|
            0 <= i < k ==> (#[trigger] deck_choices(k)[i]).item == Card::at(i) && 1
                <= deck_choices(k)[i].weight <= 3,
    decreases k,
{
    if k > 0 {
        lemma_deck_choices(k - 1);
    }
}

/// From the faces of a full deck a face can be drawn for every card about which the clues
/// have disclosed what is true of some face.
pub proof fn lemma_deck_prior_usable(log: Seq<Information>)
    requires
        exists|c: Card| agrees_with_all(log, c),
    ensures
        usable(restricted(deck_choices(FACES as int), log)),
{
    let c = choose|c: Card| agrees_with_all(log, c);
    let deck = deck_choices(FACES as int);
    let kept = restricted(deck, log);
    lemma_deck_choices(FACES as int);
    lemma_card_ordinal(c);
    assert(deck[c.ordinal()].item == c);
    assert(offers_card(deck, c));
    lemma_restricted(deck, log, c);
    lemma_restricted_members(deck, log);
    assert forall|i: int| 0 <= i < kept.len() implies 1 <= (#[trigger] kept[i]).weight <= 3 by {
        let j = choose|j: int| 0 <= j < deck.len() && deck[j] == kept[i];
        assert(1 <= deck[j].weight <= 3);
    }
    lemma_weight_sum_bounds(kept, 1, 3);
    assert(kept.len() > 0);
    assert(3 * kept.len() <= 75) by (nonlinear_arith)
        requires
            kept.len() <= 25,
    ;
    assert(1 * kept.len() == kept.len()) by (nonlinear_arith);
}

} // verus!
