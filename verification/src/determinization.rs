//! The assignment of faces to cards of unknown face: drawn from priors where a card has
//! one, shared out at random from what is left otherwise.

use vstd::prelude::*;
use std::collections::{HashMap, HashSet};
use rand::StdRng;
use crate::card_counts::{
    lemma_occurrences_swap_remove, lemma_total_changed, lemma_total_empty, occurrences, CardCounts,
};
use crate::hanabi::{lemma_card_ordinal, Card, CardId, FACES};
use crate::holders::{holders, lemma_holders_empty, lemma_holders_insert};
use crate::random::{is_usable, offers_card, random_index, sample_weighted, usable, WeightedCard};
use crate::seq_facts::{lemma_take_all, lemma_take_contains};

verus! {

/// Why no faces could be assigned.
#[derive(Debug, Clone, Copy, PartialEq, Eq, Structural)]
pub enum DeterminizeError {
    /// A card has a prior from which nothing can be drawn: it is empty, or its weights are
    /// all zero or sum to more than 32 bits hold.
    UnusablePrior,
    /// There are more cards to give a face to than faces to give. `determinize` does not
    /// take such cards; a game that is asked to fill in its faces answers with this.
    NotEnoughCards,
    /// Every attempt to draw from the priors asked for some face more often than it is left.
    Exhausted,
}

/// How often the faces for the cards with a prior are drawn afresh before giving up.
pub const MAX_ATTEMPTS: usize = 100000;

/// The numbers of the cards of a list, each once.
pub open spec fn numbers(ids: Seq<CardId>) -> Set<usize> {
    Set::new(|k: usize| ids.contains(CardId(k)))
}

/// Whether some card of `unknowns` has a prior.
pub open spec fn has_prior(unknowns: Seq<CardId>, priors: Map<usize, Vec<WeightedCard>>) -> bool {
    exists|j: int| 0 <= j < unknowns.len() && priors.contains_key((#[trigger] unknowns[j]).0)
}

/// Whether some card of `unknowns` has a prior from which nothing can be drawn.
pub open spec fn has_unusable_prior(
    unknowns: Seq<CardId>,
    priors: Map<usize, Vec<WeightedCard>>,
) -> bool {
    exists|j: int|
        0 <= j < unknowns.len() && priors.contains_key((#[trigger] unknowns[j]).0) && !usable(
            priors[unknowns[j].0]@,
        )
}

/// What holds of faces drawn from the priors: exactly the cards of `unknowns` that have a
/// prior have a face, each one that its prior offers, and `tally` counts the faces.
pub open spec fn drawn_from_priors(
    unknowns: Seq<CardId>,
    priors: Map<usize, Vec<WeightedCard>>,
    assignment: Map<usize, Card>,
    tally: &CardCounts,
) -> bool {
    &&& assignment.dom().finite()
    &&& forall|k: usize| #[trigger]
        assignment.contains_key(k) <==> priors.contains_key(k) && unknowns.contains(CardId(k))
    &&& forall|k: usize| #[trigger]
        assignment.contains_key(k) ==> offers_card(priors[k]@, assignment[k])
    &&& forall|c: Card| holders(assignment, c).len() == tally.count(c)
    &&& tally.total() == assignment.dom().len()
}

/// The numbers of finitely many cards are finitely many.
pub proof fn lemma_numbers_finite(ids: Seq<CardId>)
    ensures
        numbers(ids).finite(),
        numbers(ids).len() <= ids.len(),
    decreases ids.len(),
{
    if ids.len() == 0 {
        assert(numbers(ids) =~= Set::<usize>::empty());
    } else {
        let init = ids.drop_last();
        lemma_numbers_finite(init);
        assert forall|k: usize| numbers(ids).contains(k) <==> numbers(init).insert(
            ids.last().0,
        ).contains(k) by {
            assert(init.push(ids.last()) =~= ids);
            crate::seq_facts::lemma_push_contains(init, ids.last(), CardId(k));
        }
        assert(numbers(ids) =~= numbers(init).insert(ids.last().0));
    }
}

/// How many cards a list holds, a card that occurs twice counted once.
pub fn count_distinct(unknowns: &[CardId]) -> (n: usize)
    ensures
        n == numbers(unknowns@).len(),
{
    let mut seen: HashSet<usize> = HashSet::new();
    let mut j: usize = 0;
    proof {
        lemma_take_all(unknowns@);
        assert(seen@ =~= numbers(unknowns@.take(0)));
    }
    while j < unknowns.len()
        invariant
            j <= unknowns.len(),
            seen@ == numbers(unknowns@.take(j as int)),
        decreases unknowns.len() - j,
    {
        let ghost before = seen@;
        seen.insert(unknowns[j].0);
        proof {
            assert forall|k: usize| seen@.contains(k) <==> numbers(
                unknowns@.take(j as int + 1),
            ).contains(k) by {
                lemma_take_contains(unknowns@, j as int, CardId(k));
            }
            assert(seen@ =~= numbers(unknowns@.take(j as int + 1)));
        }
        j = j + 1;
    }
    proof {
        lemma_take_all(unknowns@);
    }
    seen.len()
}

/// Whether there are faces enough for the cards: whether `remaining_counts` holds at least as
/// many cards as `unknowns` holds different ones.
pub fn has_enough(unknowns: &[CardId], remaining_counts: &CardCounts) -> (enough: bool)
    ensures
        enough == (numbers(unknowns@).len() <= remaining_counts.total()),
{
    count_distinct(unknowns) as u128 <= remaining_counts.sum()
}

/// Assigns a face to each of the cards `unknowns`, of which there must not be more than
/// `remaining_counts` holds cards.
///
/// A card with a prior gets a face drawn from its prior. All such faces are drawn together,
/// and drawn afresh, up to `MAX_ATTEMPTS` times, as long as they ask for some face more often
/// than `remaining_counts` holds it. The other cards get what is left of `remaining_counts`,
/// each a face drawn uniformly from those not yet given out. A card that occurs twice in
/// `unknowns` is one card. A prior of a card that is not among `unknowns` is not looked at.
pub fn determinize(
    unknowns: &[CardId],
    remaining_counts: &CardCounts,
    priors: &HashMap<usize, Vec<WeightedCard>>,
    rng: &mut StdRng,
) -> (result: Result<HashMap<usize, Card>, DeterminizeError>)
    requires
        numbers(unknowns@).len() <= remaining_counts.total(),
    ensures
        match result {
            Ok(assignment) => {
                &&& assignment@.dom() == numbers(unknowns@)
                &&& forall|c: Card|
                    holders(assignment@, c).len() <= remaining_counts.count(c)
                &&& forall|k: usize|
                    assignment@.contains_key(k) && priors@.contains_key(k) ==> offers_card(
                        priors@[k]@,
                        #[trigger] assignment@[k],
                    )
            },
            Err(DeterminizeError::UnusablePrior) => has_unusable_prior(unknowns@, priors@),
            Err(DeterminizeError::NotEnoughCards) => false,
            Err(DeterminizeError::Exhausted) => {
                &&& !has_unusable_prior(unknowns@, priors@)
                &&& has_prior(unknowns@, priors@)
            },
        },
        has_unusable_prior(unknowns@, priors@) ==> result == Err::<
            HashMap<usize, Card>,
            DeterminizeError,
        >(DeterminizeError::UnusablePrior),
        !has_prior(unknowns@, priors@) ==> result is Ok,
{
    let (all_usable, any_prior) = check_priors(unknowns, priors);
    if !all_usable {
        return Err(DeterminizeError::UnusablePrior);
    }
    let mut assignment: HashMap<usize, Card> = HashMap::new();
    let mut tally = CardCounts::new();
    proof {
        lemma_total_empty(&tally, FACES as int);
        assert forall|c: Card| holders(assignment@, c).len() == tally.count(c) by {
            lemma_holders_empty(c);
        }
    }
    if any_prior {
        let mut attempt: usize = 0;
        let mut feasible = false;
        while attempt < MAX_ATTEMPTS && !feasible
            invariant
                attempt <= MAX_ATTEMPTS,
                !has_unusable_prior(unknowns@, priors@),
                feasible ==> drawn_from_priors(unknowns@, priors@, assignment@, &tally)
                    && tally.fits_in(remaining_counts),
            decreases MAX_ATTEMPTS - attempt,
        {
            let (drawn, counted) = sample_priors(unknowns, priors, rng);
            if counted.within(remaining_counts) {
                assignment = drawn;
                tally = counted;
                feasible = true;
            }
            attempt = attempt + 1;
        }
        if !feasible {
            return Err(DeterminizeError::Exhausted);
        }
    } else {
        proof {
            assert forall|k: usize|
                !(priors@.contains_key(k) && unknowns@.contains(CardId(k))) by {
                if unknowns@.contains(CardId(k)) {
                    let j = choose|j: int| 0 <= j < unknowns@.len() && unknowns@[j] == CardId(k);
                    assert(!priors@.contains_key(unknowns@[j].0));
                }
            }
            assert(assignment@.dom() =~= Set::<usize>::empty());
        }
    }
    let mut available_list = remaining_counts.cards_beyond(&tally);
    let mut j: usize = 0;
    proof {
        lemma_take_all(unknowns@);
        lemma_numbers_finite(unknowns@);
    }
    while j < unknowns.len()
        invariant
            j <= unknowns.len(),
            assignment@.dom().finite(),
            numbers(unknowns@).finite(),
            !any_prior ==> !has_prior(unknowns@, priors@),
            !has_unusable_prior(unknowns@, priors@),
            forall|k: usize| #[trigger]
                assignment@.contains_key(k) <==> (priors@.contains_key(k) && unknowns@.contains(
                    CardId(k),
                )) || unknowns@.take(j as int).contains(CardId(k)),
            forall|k: usize|
                assignment@.contains_key(k) && priors@.contains_key(k) ==> offers_card(
                    priors@[k]@,
                    #[trigger] assignment@[k],
                ),
            forall|c: Card|
                holders(assignment@, c).len() + occurrences(available_list@, c)
                    == remaining_counts.count(c),
            assignment@.dom().len() + available_list.len() == remaining_counts.total(),
            numbers(unknowns@).len() <= remaining_counts.total(),
        decreases unknowns.len() - j,
    {
        let a: CardId = unknowns[j];
        let ghost before = assignment@;
        let ghost list_before = available_list@;
        if !assignment.contains_key(&a.0) {
            proof {
                if available_list.len() == 0 {
                    let grown = assignment@.dom().insert(a.0);
                    assert(unknowns@.contains(a));
                    assert(grown.subset_of(numbers(unknowns@))) by {
                        assert forall|k: usize| grown.contains(k) implies numbers(
                            unknowns@,
                        ).contains(k) by {
                            if k != a.0 {
                                assert(assignment@.contains_key(k));
                                if unknowns@.take(j as int).contains(CardId(k)) {
                                    let i = choose|i: int|
                                        0 <= i < unknowns@.take(j as int).len() && unknowns@.take(
                                            j as int,
                                        )[i] == CardId(k);
                                    assert(unknowns@[i] == CardId(k));
                                }
                            }
                        }
                    }
                    vstd::set_lib::lemma_len_subset(grown, numbers(unknowns@));
                }
            }
            let i = random_index(available_list.len(), rng);
            let b = available_list.swap_remove(i);
            assignment.insert(a.0, b);
            proof {
                assert(!priors@.contains_key(a.0)) by {
                    assert(unknowns@.contains(a));
                }
                assert forall|c: Card|
                    holders(assignment@, c).len() + occurrences(available_list@, c)
                        == remaining_counts.count(c) by {
                    lemma_holders_insert(before, a.0, b, c);
                    lemma_occurrences_swap_remove(list_before, i as int, c);
                }
            }
        }
        proof {
            assert forall|k: usize| #[trigger]
                assignment@.contains_key(k) <==> (priors@.contains_key(k) && unknowns@.contains(
                    CardId(k),
                )) || unknowns@.take(j as int + 1).contains(CardId(k)) by {
                lemma_take_contains(unknowns@, j as int, CardId(k));
                assert(before.contains_key(k) <==> (priors@.contains_key(k) && unknowns@.contains(
                    CardId(k),
                )) || unknowns@.take(j as int).contains(CardId(k)));
            }
        }
        j = j + 1;
    }
    proof {
        lemma_take_all(unknowns@);
        assert(assignment@.dom() =~= numbers(unknowns@));
    }
    Ok(assignment)
}

/// Whether every prior of a card of `unknowns` can be drawn from, and whether there is one.
pub fn check_priors(unknowns: &[CardId], priors: &HashMap<usize, Vec<WeightedCard>>) -> (found: (
    bool,
    bool,
))
    ensures
        found.0 == !has_unusable_prior(unknowns@, priors@),
        found.1 == has_prior(unknowns@, priors@),
{
    let mut any_prior = false;
    let mut j: usize = 0;
    while j < unknowns.len()
        invariant
            j <= unknowns.len(),
            forall|i: int|
                0 <= i < j && priors@.contains_key((#[trigger] unknowns@[i]).0) ==> usable(
                    priors@[unknowns@[i].0]@,
                ),
            any_prior == exists|i: int|
                0 <= i < j && priors@.contains_key((#[trigger] unknowns@[i]).0),
        decreases unknowns.len() - j,
    {
        match priors.get(&unknowns[j].0) {
            Some(prior) => {
                if !is_usable(prior) {
                    return (false, true);
                }
                any_prior = true;
            },
            None => {},
        }
        j = j + 1;
    }
    (true, any_prior)
}

/// Draws a face from its prior for each card of `unknowns` that has one, and counts the faces.
fn sample_priors(
    unknowns: &[CardId],
    priors: &HashMap<usize, Vec<WeightedCard>>,
    rng: &mut StdRng,
) -> (drawn: (HashMap<usize, Card>, CardCounts))
    requires
        !has_unusable_prior(unknowns@, priors@),
    ensures
        drawn_from_priors(unknowns@, priors@, drawn.0@, &drawn.1),
{
    let mut assignment: HashMap<usize, Card> = HashMap::new();
    let mut counts = CardCounts::new();
    let mut j: usize = 0;
    proof {
        lemma_take_all(unknowns@);
        lemma_total_empty(&counts, FACES as int);
        assert(assignment@.dom() =~= Set::<usize>::empty());
        assert forall|c: Card| holders(assignment@, c).len() == counts.count(c) by {
            lemma_holders_empty(c);
        }
    }
    while j < unknowns.len()
        invariant
            j <= unknowns.len(),
            !has_unusable_prior(unknowns@, priors@),
            assignment@.dom().finite(),
            forall|k: usize| #[trigger]
                assignment@.contains_key(k) <==> priors@.contains_key(k) && unknowns@.take(
                    j as int,
                ).contains(CardId(k)),
            forall|k: usize| #[trigger]
                assignment@.contains_key(k) ==> offers_card(priors@[k]@, assignment@[k]),
            forall|c: Card| holders(assignment@, c).len() == counts.count(c),
            counts.total() == assignment@.dom().len(),
            assignment@.dom().len() <= j,
            forall|c: Card| counts.count(c) <= j,
        decreases unknowns.len() - j,
    {
        let a: CardId = unknowns[j];
        let ghost before = assignment@;
        let ghost counts_before = counts;
        if !assignment.contains_key(&a.0) {
            match priors.get(&a.0) {
                Some(prior) => {
                    let b = sample_weighted(prior, rng);
                    assignment.insert(a.0, b);
                    let n = counts.get(b);
                    counts.set(b, n + 1);
                    proof {
                        assert forall|c: Card| holders(assignment@, c).len() == counts.count(
                            c,
                        ) by {
                            lemma_holders_insert(before, a.0, b, c);
                        }
                        lemma_total_changed(&counts_before, &counts, b, FACES as int);
                        lemma_card_ordinal(b);
                    }
                },
                None => {},
            }
        }
        proof {
            assert forall|k: usize| #[trigger]
                assignment@.contains_key(k) <==> priors@.contains_key(k) && unknowns@.take(
                    j as int + 1,
                ).contains(CardId(k)) by {
                lemma_take_contains(unknowns@, j as int, CardId(k));
                assert(before.contains_key(k) <==> priors@.contains_key(k) && unknowns@.take(
                    j as int,
                ).contains(CardId(k)));
            }
        }
        j = j + 1;
    }
    proof {
        lemma_take_all(unknowns@);
    }
    (assignment, counts)
}

} // verus!
