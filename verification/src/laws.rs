//! What holds of every game.

use vstd::prelude::*;
use crate::hanabi::{Action, CardId, Clue, Information, Player};
use crate::model::{lemma_disclose_others, lemma_step_inv, GameView};
use crate::places::lemma_every_card_once;

verus! {

/// No hand holds more than four cards, there are at most eight clue tokens, and at most
/// three strikes.
pub proof fn lemma_bounds(s: GameView, p: Player)
    requires
        s.inv(),
    ensures
        s.hand(p).len() <= 4,
        0 <= s.clues <= 8,
        0 <= s.strikes <= 3,
{
}

/// The bounds hold after every action.
pub proof fn lemma_bounds_kept(s: GameView, action: Action, p: Player)
    requires
        s.in_play(),
    ensures
        s.step(action).0.hand(p).len() <= 4,
        s.step(action).0.clues <= 8,
        s.step(action).0.strikes <= 3,
{
    lemma_step_inv(s, action);
}

/// The deck never grows, and the number of cards in the game stays the same. The mark of
/// the final turn is set by the action that draws the last card, to the player who draws it,
/// and by no other action; until then there is no mark, and once set it stays.
pub proof fn lemma_final_turn(s: GameView, action: Action)
    requires
        s.in_play(),
    ensures
        s.step(action).0.deck_size <= s.deck_size,
        s.step(action).0.total_cards() == s.total_cards(),
        s.step(action).0.final_turn != s.final_turn <==> s.deck_size == 1 && s.step(
            action,
        ).0.deck_size == 0,
        s.step(action).0.final_turn != s.final_turn ==> s.final_turn is None && s.step(
            action,
        ).0.final_turn == Some(s.current_turn),
        s.deck_size > 0 ==> s.final_turn is None,
        s.final_turn is Some ==> s.step(action).0.final_turn == s.final_turn,
{
}

/// On the final turn no action leaves the game going: the player who drew the last card
/// acts once more, and whatever is carried out then ends the game.
pub proof fn lemma_final_turn_ends(s: GameView, action: Action)
    requires
        s.in_play(),
        s.final_turn == Some(s.current_turn),
    ensures
        !(s.step(action).1 is Acted),
{
}

/// What a clue disclosed about a card whose face is known is true of the face: it says that
/// the clue matched exactly if the clue matches the face.
pub proof fn lemma_disclosures_true(s: GameView, id: CardId, j: int)
    requires
        s.inv(),
        s.knows(id),
        0 <= j < s.disclosed(id).len(),
    ensures
        s.disclosed(id)[j].1 == s.disclosed(id)[j].0.touches(s.face(id)),
{
    assert(s.information[id.0][j].agrees_with(s.card_map[id.0]));
}

/// What a player sees of a game in which the faces of all cards that lie face up to the
/// player are known: the face of a card exactly if the card is in another player's hand or
/// among the played or the discarded cards.
pub proof fn lemma_view_domain(s: GameView, p: Player, id: CardId)
    requires
        forall|other: CardId| #[trigger] s.visible_to(p, other) ==> s.knows(other),
    ensures
        s.seen_by(p).knows(id) <==> s.seen_by(p).visible_to(p, id),
{
    assert(CardId(id.0) == id);
    assert(s.seen_by(p).hands == s.hands);
    if s.seen_by(p).visible_to(p, id) {
        assert(s.visible_to(p, id));
    }
}

/// A clue that is given to cards of which none is there twice adds one entry to what was
/// disclosed about each of them: the clue, and whether it matches the card's face.
pub proof fn lemma_disclose_once(s: GameView, ids: Seq<CardId>, clue: Clue, id: CardId)
    requires
        ids.no_duplicates(),
        ids.contains(id),
    ensures
        s.disclose(ids, clue).contains_key(id.0),
        s.disclose(ids, clue)[id.0] == s.disclosed(id).push(
            Information(clue, clue.touches(s.face(id))),
        ),
    decreases ids.len(),
{
    let init = ids.drop_last();
    let n = ids.len() - 1;
    assert(ids[n] == ids.last());
    assert(CardId(id.0) == id);
    if ids.last() == id {
        if init.contains(id) {
            let j = choose|j: int| 0 <= j < init.len() && init[j] == id;
            assert(ids[j] == id);
        }
        lemma_disclose_others(s, init, clue, id.0);
    } else {
        let j = choose|j: int| 0 <= j < ids.len() && ids[j] == id;
        assert(init[j] == id);
        assert(init.no_duplicates()) by {
            assert forall|a: int, b: int|
                0 <= a < init.len() && 0 <= b < init.len() && a != b implies init[a]
                != init[b] by {
                assert(init[a] == ids[a] && init[b] == ids[b]);
            }
        }
        lemma_disclose_once(s, init, clue, id);
    }
}

/// A clue that is carried out adds exactly one entry to what was disclosed about each card
/// in the hand it is given to, matched or not, and leaves what was disclosed about every
/// other card as it was.
pub proof fn lemma_clue_adds_one_entry(s: GameView, target: Player, clue: Clue, id: CardId)
    requires
        s.in_play(),
        s.clue(target, clue).1 is Acted || s.clue(target, clue).1 is Finished,
    ensures
        s.hand(target).contains(id) ==> s.clue(target, clue).0.disclosed(id) == s.disclosed(
            id,
        ).push(Information(clue, clue.touches(s.face(id)))),
        !s.hand(target).contains(id) ==> s.clue(target, clue).0.disclosed(id) == s.disclosed(id),
{
    let hand = s.hand(target);
    lemma_every_card_once(s);
    assert(CardId(id.0) == id);
    if hand.contains(id) {
        lemma_disclose_once(s, hand, clue, id);
    } else {
        lemma_disclose_others(s, hand, clue, id.0);
    }
}

} // verus!
