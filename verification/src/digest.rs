//! Fingerprints as bytes, and their 64-bit keys.

use vstd::prelude::*;
use vstd::bytes::{spec_u64_to_le_bytes, u64_to_le_bytes};
use vstd::std_specs::hash::DefaultHasherAdditionalSpecFns;
use std::collections::hash_map::DefaultHasher;
use std::hash::Hasher;
use crate::hanabi::{Card, CardId, Clue, CompletedAction, Fingerprint};
use crate::model::{Completed, FingerprintView};

verus! {

/// A number as eight bytes, the lowest first.
pub open spec fn number_bytes(n: usize) -> Seq<u8> {
    spec_u64_to_le_bytes(n as u64)
}

/// A face as two bytes: the suit's position and the rank's value.
pub open spec fn card_bytes(c: Card) -> Seq<u8> {
    seq![c.suit.ordinal() as u8, c.rank.value() as u8]
}

/// A clue as two bytes: 0 and the suit's position, or 1 and the rank's value.
pub open spec fn clue_bytes(clue: Clue) -> Seq<u8> {
    match clue {
        Clue::Suit(s) => seq![0u8, s.ordinal() as u8],
        Clue::Rank(r) => seq![1u8, r.value() as u8],
    }
}

/// The numbers of some cards, one after the other.
pub open spec fn ids_bytes(ids: Seq<CardId>) -> Seq<u8>
    decreases ids.len(),
{
    if ids.len() == 0 {
        Seq::empty()
    } else {
        ids_bytes(ids.drop_last()) + number_bytes(ids.last().0)
    }
}

/// The known faces, each as the card's number and the face.
pub open spec fn known_bytes(known: Seq<(CardId, Card)>) -> Seq<u8>
    decreases known.len(),
{
    if known.len() == 0 {
        Seq::empty()
    } else {
        known_bytes(known.drop_last()) + number_bytes(known.last().0.0) + card_bytes(known.last().1)
    }
}

/// One record of an action: a byte for its kind, then what it holds; the cards that a clue
/// matched follow their count.
pub open spec fn completed_bytes(done: Completed) -> Seq<u8> {
    match done {
        Completed::Discarded(i, c) => seq![0u8] + number_bytes(i) + card_bytes(c),
        Completed::Played(i, c) => seq![1u8] + number_bytes(i) + card_bytes(c),
        Completed::Clued(p, clue, ids) => seq![2u8, p.seat() as u8] + clue_bytes(clue)
            + number_bytes(ids.len() as usize) + ids_bytes(ids),
    }
}

pub open spec fn log_bytes(log: Seq<Completed>) -> Seq<u8>
    decreases log.len(),
{
    if log.len() == 0 {
        Seq::empty()
    } else {
        log_bytes(log.drop_last()) + completed_bytes(log.last())
    }
}

/// A fingerprint as bytes: the known faces after their count, then the record of the actions
/// after its length.
pub open spec fn fingerprint_bytes(fp: FingerprintView) -> Seq<u8> {
    number_bytes(fp.known_cards.len() as usize) + known_bytes(fp.known_cards) + number_bytes(
        fp.actions.len() as usize,
    ) + log_bytes(fp.actions)
}

/// The 64-bit key of a fingerprint: what the standard library's default hasher makes of the
/// fingerprint's bytes, written to it in one piece.
pub open spec fn digest_of(fp: FingerprintView) -> u64 {
    DefaultHasher::spec_finish(seq![fingerprint_bytes(fp)])
}

fn push_number(bytes: &mut Vec<u8>, n: usize)
    ensures
        final(bytes)@ == old(bytes)@ + number_bytes(n),
{
    let mut piece = u64_to_le_bytes(n as u64);
    bytes.append(&mut piece);
}

fn push_card(bytes: &mut Vec<u8>, c: Card)
    ensures
        final(bytes)@ == old(bytes)@ + card_bytes(c),
{
    bytes.push(c.suit.index() as u8);
    bytes.push(c.rank.number());
    assert(bytes@ =~= old(bytes)@ + card_bytes(c));
}

fn push_clue(bytes: &mut Vec<u8>, clue: Clue)
    ensures
        final(bytes)@ == old(bytes)@ + clue_bytes(clue),
{
    match clue {
        Clue::Suit(s) => {
            bytes.push(0);
            bytes.push(s.index() as u8);
        },
        Clue::Rank(r) => {
            bytes.push(1);
            bytes.push(r.number());
        },
    }
    assert(bytes@ =~= old(bytes)@ + clue_bytes(clue));
}

fn push_ids(bytes: &mut Vec<u8>, ids: &Vec<CardId>)
    ensures
        final(bytes)@ == old(bytes)@ + ids_bytes(ids@),
{
    let mut i: usize = 0;
    assert(bytes@ =~= old(bytes)@ + ids_bytes(ids@.take(0)));
    while i < ids.len()
        invariant
            i <= ids.len(),
            bytes@ == old(bytes)@ + ids_bytes(ids@.take(i as int)),
        decreases ids.len() - i,
    {
        push_number(bytes, ids[i].0);
        proof {
            let longer = ids@.take(i as int + 1);
            assert(longer.drop_last() =~= ids@.take(i as int));
            assert(longer.last() == ids@[i as int]);
            assert(bytes@ =~= old(bytes)@ + ids_bytes(longer));
        }
        i = i + 1;
    }
    assert(ids@.take(ids.len() as int) =~= ids@);
}

fn push_completed(bytes: &mut Vec<u8>, done: &CompletedAction)
    ensures
        final(bytes)@ == old(bytes)@ + completed_bytes(done@),
{
    match done {
        CompletedAction::Discarded(i, c) => {
            bytes.push(0);
            push_number(bytes, *i);
            push_card(bytes, *c);
        },
        CompletedAction::Played(i, c) => {
            bytes.push(1);
            push_number(bytes, *i);
            push_card(bytes, *c);
        },
        CompletedAction::Clued(p, clue, ids) => {
            bytes.push(2);
            bytes.push(p.index() as u8);
            push_clue(bytes, *clue);
            push_number(bytes, ids.len());
            push_ids(bytes, ids);
        },
    }
    assert(bytes@ =~= old(bytes)@ + completed_bytes(done@));
}

impl Fingerprint {
    /// The fingerprint as bytes.
    pub fn to_bytes(&self) -> (bytes: Vec<u8>)
        ensures
            bytes@ == fingerprint_bytes(self@),
    {
        proof {
            self.lemma_view();
        }
        let mut bytes: Vec<u8> = Vec::new();
        push_number(&mut bytes, self.known_cards.len());
        let ghost head = bytes@;
        let ghost known = self@.known_cards;
        let mut i: usize = 0;
        assert(bytes@ =~= head + known_bytes(known.take(0)));
        while i < self.known_cards.len()
            invariant
                i <= self.known_cards.len(),
                known == self.known_cards@,
                bytes@ == head + known_bytes(known.take(i as int)),
            decreases self.known_cards.len() - i,
        {
            let (id, c) = self.known_cards[i];
            push_number(&mut bytes, id.0);
            push_card(&mut bytes, c);
            proof {
                let longer = known.take(i as int + 1);
                assert(longer.drop_last() =~= known.take(i as int));
                assert(longer.last() == known[i as int]);
                assert(bytes@ =~= head + known_bytes(longer));
            }
            i = i + 1;
        }
        assert(known.take(self.known_cards.len() as int) =~= known);
        push_number(&mut bytes, self.actions.len());
        let ghost middle = bytes@;
        let ghost log = self@.actions;
        let mut j: usize = 0;
        assert(bytes@ =~= middle + log_bytes(log.take(0)));
        while j < self.actions.len()
            invariant
                j <= self.actions.len(),
                log == self.actions@.map_values(|done: CompletedAction| done@),
                bytes@ == middle + log_bytes(log.take(j as int)),
            decreases self.actions.len() - j,
        {
            push_completed(&mut bytes, &self.actions[j]);
            proof {
                let longer = log.take(j as int + 1);
                assert(longer.drop_last() =~= log.take(j as int));
                assert(longer.last() == self.actions[j as int]@);
                assert(bytes@ =~= middle + log_bytes(longer));
            }
            j = j + 1;
        }
        assert(log.take(self.actions.len() as int) =~= log);
        assert(bytes@ =~= fingerprint_bytes(self@));
        bytes
    }

    /// A 64-bit key for the fingerprint. Equal fingerprints have equal keys; two different
    /// fingerprints may share one.
    pub fn digest(&self) -> (key: u64)
        ensures
            key == digest_of(self@),
    {
        let bytes = self.to_bytes();
        let mut hasher = DefaultHasher::new();
        hasher.write(bytes.as_slice());
        assert(hasher@ =~= seq![fingerprint_bytes(self@)]);
        hasher.finish()
    }
}

} // verus!
