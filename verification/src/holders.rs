//! How many cards have a face: facts about counting in maps from card numbers to faces.

use vstd::prelude::*;
use crate::hanabi::Card;

verus! {

/// The cards, by number, to which `faces` gives the face `c`.
pub open spec fn holders(faces: Map<usize, Card>, c: Card) -> Set<usize> {
    Set::new(|k: usize| faces.contains_key(k) && faces[k] == c)
}

/// The card numbers below `n`.
pub open spec fn below(n: int) -> Set<usize> {
    Set::new(|k: usize| k < n)
}

/// Of finitely many cards, finitely many have a given face, and no more than there are cards.
pub proof fn lemma_holders_finite(faces: Map<usize, Card>, c: Card)
    requires
        faces.dom().finite(),
    ensures
        holders(faces, c).finite(),
        holders(faces, c).len() <= faces.dom().len(),
{
    assert(holders(faces, c).subset_of(faces.dom()));
    vstd::set_lib::lemma_len_subset(holders(faces, c), faces.dom());
}

/// No card has a face where no card has any.
pub proof fn lemma_holders_empty(c: Card)
    ensures
        holders(Map::<usize, Card>::empty(), c).len() == 0,
{
    assert(holders(Map::<usize, Card>::empty(), c) =~= Set::<usize>::empty());
}

/// A card that gets its first face counts once more for that face, and for no other.
pub proof fn lemma_holders_insert(faces: Map<usize, Card>, k: usize, v: Card, c: Card)
    requires
        faces.dom().finite(),
        !faces.contains_key(k),
    ensures
        holders(faces.insert(k, v), c).len() == holders(faces, c).len() + (if v == c {
            1nat
        } else {
            0nat
        }),
{
    lemma_holders_finite(faces, c);
    if v == c {
        assert(holders(faces.insert(k, v), c) =~= holders(faces, c).insert(k));
    } else {
        assert(holders(faces.insert(k, v), c) =~= holders(faces, c));
    }
}

/// Where fewer faces are known, no face is known more often.
pub proof fn lemma_holders_submap(fewer: Map<usize, Card>, more: Map<usize, Card>, c: Card)
    requires
        more.dom().finite(),
        fewer.submap_of(more),
    ensures
        holders(fewer, c).len() <= holders(more, c).len(),
{
    lemma_holders_finite(more, c);
    assert(holders(fewer, c).subset_of(holders(more, c)));
    vstd::set_lib::lemma_len_subset(holders(fewer, c), holders(more, c));
}

/// Looking one card number further finds that card's face, if it has one, and nothing else.
pub proof fn lemma_holders_step(faces: Map<usize, Card>, n: usize, c: Card)
    requires
        faces.dom().finite(),
        n < usize::MAX,
    ensures
        faces.restrict(below(n as int)).dom().finite(),
        holders(faces.restrict(below(n + 1)), c).len() == holders(
            faces.restrict(below(n as int)),
            c,
        ).len() + (if faces.contains_key(n) && faces[n] == c {
            1nat
        } else {
            0nat
        }),
{
    let before = faces.restrict(below(n as int));
    let after = faces.restrict(below(n + 1));
    assert(before.dom().subset_of(faces.dom()));
    vstd::set_lib::lemma_len_subset(before.dom(), faces.dom());
    if faces.contains_key(n) {
        assert(after =~= before.insert(n, faces[n]));
        lemma_holders_insert(before, n, faces[n], c);
    } else {
        assert(after =~= before);
    }
}

/// Faces that are added to known faces make a face known at most as often as both together.
pub proof fn lemma_holders_union(known: Map<usize, Card>, added: Map<usize, Card>, c: Card)
    requires
        known.dom().finite(),
        added.dom().finite(),
    ensures
        known.union_prefer_right(added).dom().finite(),
        holders(known.union_prefer_right(added), c).len() <= holders(known, c).len() + holders(
            added,
            c,
        ).len(),
{
    let both = known.union_prefer_right(added);
    lemma_holders_finite(known, c);
    lemma_holders_finite(added, c);
    assert(both.dom() =~= known.dom().union(added.dom()));
    let united = holders(known, c).union(holders(added, c));
    assert(holders(both, c).subset_of(united));
    vstd::set_lib::lemma_len_union(holders(known, c), holders(added, c));
    vstd::set_lib::lemma_len_subset(holders(both, c), united);
}

} // verus!
