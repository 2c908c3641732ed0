use hanabi_ai::hanabi::{
    deck_distribution, Action, ActionResult, Card, CardId, Clue, GameState, Player, Rank, Suit,
};
use std::collections::hash_map::DefaultHasher;
use std::hash::Hasher;

fn standard_deck() -> Vec<Card> {
    let counts = deck_distribution();
    let mut deck = Vec::new();
    for i in 0..25 {
        let face = Card::from_index(i);
        for _ in 0..counts.get(face) {
            deck.push(face);
        }
    }
    let mut order = Vec::new();
    let mut at = 7;
    for _ in 0..deck.len() {
        while order.contains(&at) {
            at = (at + 1) % deck.len();
        }
        order.push(at);
        at = (at * 3 + 11) % deck.len();
    }
    order.into_iter().map(|i| deck[i]).collect()
}

fn players() -> Vec<Player> {
    vec![Player::Alice, Player::Bob, Player::Cathy, Player::Dave]
}

fn visible_to(state: &GameState, player: Player) -> Vec<CardId> {
    let mut ids = Vec::new();
    for other in players() {
        if other != player {
            ids.extend(state.hand(other));
        }
    }
    ids.extend(state.played_cards());
    ids.extend(state.discarded_cards());
    ids
}

fn advance(state: &mut GameState, turns: usize) {
    for turn in 0..turns {
        let actions = state.legal_actions();
        let action = actions[(turn * 11 + 2) % actions.len()];
        if !matches!(state.act(action), ActionResult::Acted(_)) {
            return;
        }
    }
}

#[test]
fn a_view_knows_what_lies_face_up() {
    let mut state = GameState::initial(&standard_deck());
    advance(&mut state, 9);
    for player in players() {
        let view = state.player_view(player);
        let visible = visible_to(&state, player);
        for k in 0..50 {
            let id = CardId(k);
            if visible.contains(&id) {
                assert_eq!(view.card(id), state.card(id));
                assert!(view.card(id).is_some());
            } else {
                assert_eq!(view.card(id), None);
            }
        }
        assert_eq!(view.clues(), state.clues());
        assert_eq!(view.strikes(), state.strikes());
        assert_eq!(view.deck_size(), state.deck_size());
        assert_eq!(view.current_player(), state.current_player());
        assert_eq!(view.action_log(), state.action_log());
        for other in players() {
            assert_eq!(view.hand(other), state.hand(other));
            for id in state.hand(other) {
                assert_eq!(view.disclosures(id), state.disclosures(id));
            }
        }
        for i in 0..5 {
            assert_eq!(view.pile(Suit::from_index(i)), state.pile(Suit::from_index(i)));
        }
    }
}

#[test]
fn reducing_gives_the_view() {
    let mut state = GameState::initial(&standard_deck());
    advance(&mut state, 5);
    for player in players() {
        let mut reduced = state.clone();
        reduced.reduce_to_player_view(player);
        assert_eq!(reduced.fingerprint(), state.player_view(player).fingerprint());
    }
    let mut reduced = state.clone();
    reduced.reduce_to_current_view();
    assert_eq!(reduced.fingerprint(), state.current_view().fingerprint());
    assert_eq!(
        state.current_view().fingerprint(),
        state.player_view(state.current_player()).fingerprint()
    );
}

#[test]
fn a_view_of_a_view_knows_less() {
    let state = GameState::initial(&standard_deck());
    let alice = state.player_view(Player::Alice);
    let both = alice.player_view(Player::Bob);
    for id in state.hand(Player::Alice) {
        assert_eq!(both.card(id), None);
    }
    for id in state.hand(Player::Bob) {
        assert_eq!(both.card(id), None);
    }
    for id in state.hand(Player::Cathy) {
        assert_eq!(both.card(id), state.card(id));
    }
}

#[test]
fn unknown_cards_are_the_own_hand_and_the_deck() {
    let mut state = GameState::initial(&standard_deck());
    assert!(state.unknown_cards().is_empty());
    advance(&mut state, 6);
    let view = state.player_view(Player::Cathy);
    let mut expected = state.hand(Player::Cathy);
    let first = 50 - state.deck_size();
    for k in first..50 {
        expected.push(CardId(k));
    }
    assert_eq!(view.unknown_cards(), expected);
}

#[test]
fn remaining_counts_are_the_deck_less_the_known_faces() {
    let state = GameState::initial(&standard_deck());
    assert!(state.faces_within_deck());
    let none = state.remaining_card_counts();
    let deck = deck_distribution();
    for i in 0..25 {
        assert_eq!(none.get(Card::from_index(i)), 0);
        assert_eq!(state.seen_card_counts().get(Card::from_index(i)), deck.get(Card::from_index(i)));
    }
    let view = state.player_view(Player::Dave);
    assert!(view.faces_within_deck());
    let remaining = view.remaining_card_counts();
    let mut total = 0;
    for i in 0..25 {
        let face = Card::from_index(i);
        let seen = (0..50).filter(|k| view.card(CardId(*k)) == Some(face)).count();
        assert_eq!(remaining.get(face), deck.get(face) - seen);
        total += remaining.get(face);
    }
    assert_eq!(total, 38);
}

#[test]
fn a_deck_with_too_many_of_a_face_is_noticed() {
    let mut deck = standard_deck();
    let five = Card { suit: Suit::Red, rank: Rank::Five };
    let at = deck.iter().position(|c| *c != five).unwrap();
    deck[at] = five;
    let state = GameState::initial(&deck);
    assert!(!state.faces_within_deck());
}

#[test]
fn fingerprints_tell_views_apart() {
    let mut state = GameState::initial(&standard_deck());
    let alice = state.player_view(Player::Alice).fingerprint();
    let bob = state.player_view(Player::Bob).fingerprint();
    assert_ne!(alice, bob);
    assert_ne!(alice.digest(), bob.digest());
    assert_eq!(alice, state.clone().player_view(Player::Alice).fingerprint());
    assert_eq!(alice.digest(), state.player_view(Player::Alice).fingerprint().digest());
    assert_eq!(alice.clone(), alice);
    assert_eq!(alice.to_bytes(), state.player_view(Player::Alice).fingerprint().to_bytes());
    let before = state.fingerprint();
    let target = Player::Bob;
    let clue = Clue::Suit(state.card(state.hand(target)[0]).unwrap().suit);
    assert!(matches!(state.act(Action::Clue(target, clue)), ActionResult::Acted(_)));
    assert_ne!(state.fingerprint(), before);
    assert_ne!(state.fingerprint().digest(), before.digest());
}

#[test]
fn a_fingerprint_lists_the_known_faces_in_order() {
    let deck: Vec<Card> = standard_deck().into_iter().take(16).collect();
    let state = GameState::initial(&deck);
    let view = state.player_view(Player::Dave);
    let bytes = view.fingerprint().to_bytes();
    let mut expected: Vec<u8> = Vec::new();
    expected.extend_from_slice(&12u64.to_le_bytes());
    for k in 0..16u64 {
        if k % 4 != 3 {
            let face = deck[k as usize];
            expected.extend_from_slice(&k.to_le_bytes());
            expected.push(face.suit.index() as u8);
            expected.push(face.rank.number());
        }
    }
    expected.extend_from_slice(&0u64.to_le_bytes());
    assert_eq!(bytes, expected);
}

#[test]
fn a_fingerprint_records_the_actions() {
    let deck: Vec<Card> = standard_deck().into_iter().take(16).collect();
    let mut state = GameState::initial(&deck);
    let start = state.fingerprint().to_bytes();
    let first = state.card(CardId(0)).unwrap();
    state.act(Action::Play(0));
    let after = state.fingerprint().to_bytes();
    let known = 8 + 16 * 10;
    assert_eq!(&after[..known], &start[..known]);
    let mut tail: Vec<u8> = Vec::new();
    tail.extend_from_slice(&1u64.to_le_bytes());
    tail.push(1);
    tail.extend_from_slice(&0u64.to_le_bytes());
    tail.push(first.suit.index() as u8);
    tail.push(first.rank.number());
    assert_eq!(&after[known..], &tail[..]);
}

#[test]
fn the_key_of_a_fingerprint_is_the_hash_of_its_bytes() {
    let mut state = GameState::initial(&standard_deck());
    advance(&mut state, 4);
    for player in players() {
        let fingerprint = state.player_view(player).fingerprint();
        let mut hasher = DefaultHasher::new();
        hasher.write(&fingerprint.to_bytes());
        assert_eq!(fingerprint.digest(), hasher.finish());
    }
}
