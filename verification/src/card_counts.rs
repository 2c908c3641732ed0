//! Multisets of faces.

use vstd::prelude::*;
use crate::hanabi::{lemma_card_at, lemma_card_ordinal, Card, FACES};

verus! {

/// A multiset of card faces, held as one count for each face.
#[derive(Debug)]
pub struct CardCounts {
    counts: Vec<usize>,
}

impl CardCounts {
    #[verifier::type_invariant]
    spec fn well_formed(self) -> bool {
        self.counts.len() == FACES
    }

    /// How often the multiset holds `card`.
    pub closed spec fn count(&self, card: Card) -> nat {
        if card.ordinal() < self.counts.len() {
            self.counts[card.ordinal()] as nat
        } else {
            0
        }
    }

    /// How many cards the multiset holds among the first `k` faces.
    pub open spec fn total_below(&self, k: int) -> nat
        decreases k,
    {
        if k <= 0 {
            0
        } else {
            self.total_below(k - 1) + self.count(Card::at(k - 1))
        }
    }

    /// How many cards the multiset holds.
    pub open spec fn total(&self) -> nat {
        self.total_below(FACES as int)
    }

    /// Whether every face is here at most as often as in `other`.
    pub open spec fn fits_in(&self, other: &CardCounts) -> bool {
        forall|c: Card| self.count(c) <= other.count(c)
    }

    /// The empty multiset.
    pub fn new() -> (empty: CardCounts)
        ensures
            forall|c: Card| empty.count(c) == 0,
    {
        let mut counts: Vec<usize> = Vec::new();
        let mut i: usize = 0;
        while i < FACES
            invariant
                i <= FACES,
                counts.len() == i,
                forall|k: int| 0 <= k < i ==> counts[k] == 0,
            decreases FACES - i,
        {
            counts.push(0);
            i = i + 1;
        }
        CardCounts { counts }
    }

    pub fn get(&self, card: Card) -> (n: usize)
        ensures
            n == self.count(card),
    {
        proof {
            use_type_invariant(self);
        }
        self.counts[card.index()]
    }

    /// Sets how often the multiset holds `card`.
    pub fn set(&mut self, card: Card, n: usize)
        ensures
            final(self).count(card) == n,
            forall|c: Card| c != card ==> final(self).count(c) == old(self).count(c),
    {
        proof {
            use_type_invariant(&*self);
        }
        let i = card.index();
        self.counts[i] = n;
        proof {
            assert forall|c: Card| c != card implies self.count(c) == old(self).count(c) by {
                lemma_card_ordinal(c);
                lemma_card_ordinal(card);
            }
        }
    }

    /// Whether every face is here at most as often as in `other`.
    pub fn within(&self, other: &CardCounts) -> (fits: bool)
        ensures
            fits == self.fits_in(other),
    {
        let mut i: usize = 0;
        while i < FACES
            invariant
                i <= FACES,
                forall|k: int| 0 <= k < i ==> self.count(Card::at(k)) <= other.count(Card::at(k)),
            decreases FACES - i,
        {
            let c = Card::from_index(i);
            if self.get(c) > other.get(c) {
                return false;
            }
            i = i + 1;
        }
        proof {
            assert forall|c: Card| self.count(c) <= other.count(c) by {
                lemma_card_ordinal(c);
            }
        }
        true
    }
    /// How many cards the multiset holds.
    pub fn sum(&self) -> (n: u128)
        ensures
            n == self.total(),
    {
        let mut n: u128 = 0;
        let mut i: usize = 0;
        while i < FACES
            invariant
                i <= FACES,
                n == self.total_below(i as int),
                n <= i * 0xffff_ffff_ffff_ffff,
            decreases FACES - i,
        {
            let c = Card::from_index(i);
            n = n + self.get(c) as u128;
            i = i + 1;
        }
        n
    }

    /// The cards of the multiset beyond those of `used`, as a list: face by face, each face
    /// as often as it is left.
    pub fn cards_beyond(&self, used: &CardCounts) -> (list: Vec<Card>)
        requires
            used.fits_in(self),
        ensures
            forall|c: Card| occurrences(list@, c) == self.count(c) - used.count(c),
            list.len() + used.total() == self.total(),
    {
        let mut list: Vec<Card> = Vec::new();
        let mut i: usize = 0;
        while i < FACES
            invariant
                i <= FACES,
                used.fits_in(self),
                forall|c: Card|
                    occurrences(list@, c) == (if c.ordinal() < i {
                        self.count(c) - used.count(c)
                    } else {
                        0
                    }),
                list.len() + used.total_below(i as int) == self.total_below(i as int),
            decreases FACES - i,
        {
            let b = Card::from_index(i);
            let n: usize = self.get(b) - used.get(b);
            let ghost start = list@;
            let mut copies: usize = 0;
            while copies < n
                invariant
                    copies <= n,
                    list.len() == start.len() + copies,
                    forall|c: Card|
                        occurrences(list@, c) == occurrences(start, c) + (if c == b {
                            copies as nat
                        } else {
                            0nat
                        }),
                decreases n - copies,
            {
                proof {
                    assert forall|c: Card|
                        occurrences(list@.push(b), c) == occurrences(start, c) + (if c == b {
                            (copies + 1) as nat
                        } else {
                            0nat
                        }) by {
                        lemma_occurrences_push(list@, b, c);
                    }
                }
                list.push(b);
                copies = copies + 1;
            }
            proof {
                assert forall|c: Card|
                    occurrences(list@, c) == (if c.ordinal() < i + 1 {
                        self.count(c) - used.count(c)
                    } else {
                        0
                    }) by {
                    lemma_card_ordinal(c);
                }
            }
            i = i + 1;
        }
        proof {
            assert forall|c: Card| occurrences(list@, c) == self.count(c) - used.count(c) by {
                lemma_card_ordinal(c);
            }
        }
        list
    }
}

impl Clone for CardCounts {
    fn clone(&self) -> (copy: CardCounts)
        ensures
            forall|c: Card| copy.count(c) == self.count(c),
    {
        proof {
            use_type_invariant(self);
        }
        let copy = CardCounts { counts: self.counts.clone() };
        copy
    }
}

/// Where two multisets differ in one face only, their sizes differ as the counts of that
/// face do.
pub proof fn lemma_total_changed(a: &CardCounts, b: &CardCounts, card: Card, k: int)
    requires
        0 <= k <= FACES,
        forall|c: Card| c != card ==> a.count(c) == b.count(c),
    ensures
        b.total_below(k) + (if card.ordinal() < k {
            a.count(card)
        } else {
            0
        }) == a.total_below(k) + (if card.ordinal() < k {
            b.count(card)
        } else {
            0
        }),
    decreases k,
{
    if k > 0 {
        lemma_total_changed(a, b, card, k - 1);
        lemma_card_at(k - 1);
        lemma_card_ordinal(card);
    }
}

/// The empty multiset holds no card.
pub proof fn lemma_total_empty(a: &CardCounts, k: int)
    requires
        forall|c: Card| a.count(c) == 0,
    ensures
        a.total_below(k) == 0,
    decreases k,
{
    if k > 0 {
        lemma_total_empty(a, k - 1);
    }
}

/// How often a list of faces holds `c`.
pub open spec fn occurrences(cards: Seq<Card>, c: Card) -> nat
    decreases cards.len(),
{
    if cards.len() == 0 {
        0
    } else {
        occurrences(cards.drop_last(), c) + (if cards.last() == c {
            1nat
        } else {
            0nat
        })
    }
}

/// A face put at the end of a list is there once more.
pub proof fn lemma_occurrences_push(cards: Seq<Card>, card: Card, c: Card)
    ensures
        occurrences(cards.push(card), c) == occurrences(cards, c) + (if card == c {
            1nat
        } else {
            0nat
        }),
{
    assert(cards.push(card).drop_last() =~= cards);
}

/// A face that takes the place of another in a list is there once more, the other once less.
pub proof fn lemma_occurrences_update(cards: Seq<Card>, i: int, card: Card, c: Card)
    requires
        0 <= i < cards.len(),
    ensures
        occurrences(cards.update(i, card), c) + (if cards[i] == c {
            1nat
        } else {
            0nat
        }) == occurrences(cards, c) + (if card == c {
            1nat
        } else {
            0nat
        }),
    decreases cards.len(),
{
    if i == cards.len() - 1 {
        assert(cards.update(i, card).drop_last() =~= cards.drop_last());
    } else {
        lemma_occurrences_update(cards.drop_last(), i, card, c);
        assert(cards.update(i, card).drop_last() =~= cards.drop_last().update(i, card));
    }
}

/// A list from which the face at one place was taken, the last face moving into the gap,
/// holds that face once less and every other face as often as before.
pub proof fn lemma_occurrences_swap_remove(cards: Seq<Card>, i: int, c: Card)
    requires
        0 <= i < cards.len(),
    ensures
        occurrences(cards.update(i, cards.last()).drop_last(), c) + (if cards[i] == c {
            1nat
        } else {
            0nat
        }) == occurrences(cards, c),
{
    if i == cards.len() - 1 {
        assert(cards.update(i, cards.last()).drop_last() =~= cards.drop_last());
    } else {
        lemma_occurrences_update(cards.drop_last(), i, cards.last(), c);
        assert(cards.update(i, cards.last()).drop_last() =~= cards.drop_last().update(
            i,
            cards.last(),
        ));
    }
}

} // verus!
