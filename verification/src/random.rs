//! The two random draws that the library makes, from the crate `rand`.

use vstd::prelude::*;
use rand::distributions::{IndependentSample, Range, Weighted, WeightedChoice};
use rand::StdRng;
use crate::hanabi::Card;

verus! {

/// The standard generator of the crate `rand`, `rand::StdRng`. Nothing is known of its
/// state: it is handed on to the two draws below and nothing else is done with it.
#[verifier::external_type_specification]
#[verifier::external_body]
pub struct ExStdRng(rand::StdRng);

/// A face with the weight that a weighted draw gives it.
#[derive(Debug, Clone, Copy, PartialEq, Eq, Structural)]
pub struct WeightedCard {
    pub weight: u32,
    pub item: Card,
}

/// The sum of the weights.
pub open spec fn weight_sum(choices: Seq<WeightedCard>) -> nat
    decreases choices.len(),
{
    if choices.len() == 0 {
        0
    } else {
        weight_sum(choices.drop_last()) + choices.last().weight as nat
    }
}

/// Whether `card` is among the faces of `choices`.
pub open spec fn offers_card(choices: Seq<WeightedCard>, card: Card) -> bool {
    exists|i: int| 0 <= i < choices.len() && (#[trigger] choices[i]).item == card
}

/// Whether a weighted draw can be made from `choices`: there is a choice, the weights are
/// not all zero, and their sum fits in 32 bits.
pub open spec fn usable(choices: Seq<WeightedCard>) -> bool {
    choices.len() > 0 && 0 < weight_sum(choices) <= u32::MAX
}

/// A uniformly drawn number below `bound`, from `Range::new(0, bound).ind_sample(rng)` of the
/// crate `rand`. `Range::new` panics on an empty range, so `bound` must not be 0; the sample
/// of a range of unsigned integers that starts at 0 is a remainder modulo `bound`, which is
/// all that is claimed here.
#[verifier::external_body]
pub(crate) fn random_index(bound: usize, rng: &mut StdRng) -> (i: usize)
    requires
        bound > 0,
    ensures
        i < bound,
{
    Range::new(0, bound).ind_sample(rng)
}

/// One face of `choices`, drawn by `WeightedChoice::new(..).ind_sample(rng)` of the crate
/// `rand`. `WeightedChoice::new` panics on no items, on a total weight of 0 and on one that
/// does not fit in a `u32`: those are left out. It hands back the item of one of the choices
/// it was given; no more is claimed here.
#[verifier::external_body]
pub(crate) fn sample_weighted(choices: &Vec<WeightedCard>, rng: &mut StdRng) -> (card: Card)
    requires
        usable(choices@),
    ensures
        offers_card(choices@, card),
{
    let mut items: Vec<Weighted<Card>> = Vec::new();
    for choice in choices.iter() {
        items.push(Weighted { weight: choice.weight, item: choice.item });
    }
    WeightedChoice::new(&mut items).ind_sample(rng)
}

/// Whether a weighted draw can be made from `choices`.
pub fn is_usable(choices: &Vec<WeightedCard>) -> (ok: bool)
    ensures
        ok == usable(choices@),
{
    if choices.len() == 0 {
        return false;
    }
    let mut total: u32 = 0;
    let mut i: usize = 0;
    assert(choices@.take(0) =~= Seq::<WeightedCard>::empty());
    while i < choices.len()
        invariant
            i <= choices.len(),
            total == weight_sum(choices@.take(i as int)),
        decreases choices.len() - i,
    {
        proof {
            assert(choices@.take(i as int + 1).drop_last() =~= choices@.take(i as int));
            lemma_weight_sum_grows(choices@, i as int + 1);
        }
        match total.checked_add(choices[i].weight) {
            Some(sum) => {
                total = sum;
            },
            None => {
                return false;
            },
        }
        i = i + 1;
    }
    assert(choices@.take(choices.len() as int) =~= choices@);
    total != 0
}

/// The weights of a part of the choices sum to no more than those of all.
pub proof fn lemma_weight_sum_grows(choices: Seq<WeightedCard>, n: int)
    requires
        0 <= n <= choices.len(),
    ensures
        weight_sum(choices.take(n)) <= weight_sum(choices),
    decreases choices.len() - n,
{
    if n < choices.len() {
        lemma_weight_sum_grows(choices, n + 1);
        assert(choices.take(n + 1).drop_last() =~= choices.take(n));
    } else {
        assert(choices.take(n) =~= choices);
    }
}

/// A uniformly drawn position in a list of `len` items, if it has any.
pub fn draw_index(len: usize, rng: &mut StdRng) -> (drawn: Option<usize>)
    ensures
        drawn is Some <==> len > 0,
        drawn is Some ==> drawn.unwrap() < len,
{
    if len > 0 {
        Some(random_index(len, rng))
    } else {
        None
    }
}

} // verus!
