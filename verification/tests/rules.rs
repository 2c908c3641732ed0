use hanabi_ai::hanabi::Rank::{Five, Four, One, Three, Two};
use hanabi_ai::hanabi::Suit::{Blue, Green, Purple, Red, Yellow};
use hanabi_ai::hanabi::{
    deck_distribution, Action, ActionError, ActionResult, Card, CardId, Clue, CompletedAction,
    GameState, IllegalAction, Information, Player, Rank, Suit,
};

fn card(suit: Suit, rank: Rank) -> Card {
    Card { suit, rank }
}

fn sample_deck() -> Vec<Card> {
    vec![
        card(Yellow, One),
        card(Yellow, Four),
        card(Red, Three),
        card(Green, One),
        card(Red, One),
        card(Purple, One),
        card(Green, Five),
        card(Blue, Five),
        card(Green, Four),
        card(Blue, Four),
        card(Blue, One),
        card(Red, Three),
        card(Red, Four),
        card(Red, One),
        card(Blue, Four),
        card(Yellow, Three),
        card(Green, Three),
        card(Red, One),
        card(Blue, One),
        card(Green, One),
        card(Purple, Two),
        card(Red, Two),
        card(Red, Five),
        card(Blue, Three),
        card(Yellow, Four),
        card(Purple, One),
        card(Yellow, One),
        card(Yellow, One),
        card(Green, Four),
        card(Green, One),
        card(Yellow, Three),
        card(Blue, Three),
        card(Purple, Four),
        card(Green, Three),
        card(Purple, Three),
        card(Yellow, Two),
        card(Red, Two),
        card(Purple, Five),
        card(Blue, Two),
        card(Blue, One),
        card(Green, Two),
        card(Yellow, Five),
        card(Purple, One),
        card(Yellow, Two),
        card(Blue, Two),
        card(Purple, Two),
        card(Purple, Four),
        card(Purple, Three),
        card(Green, Two),
        card(Red, Four),
    ]
}

/// A full deck in which the given places hold the given faces.
fn deck_with(fixed: &[(usize, Card)]) -> Vec<Card> {
    let mut deck = sample_deck();
    let mut settled: Vec<usize> = Vec::new();
    for &(place, face) in fixed {
        let from = (0..deck.len())
            .find(|j| deck[*j] == face && !settled.contains(j))
            .expect("the deck holds the face");
        deck.swap(place, from);
        settled.push(place);
    }
    deck
}

fn all_suits() -> Vec<Suit> {
    vec![Red, Green, Blue, Yellow, Purple]
}

fn all_ranks() -> Vec<Rank> {
    vec![One, Two, Three, Four, Five]
}

fn all_players() -> Vec<Player> {
    vec![Player::Alice, Player::Bob, Player::Cathy, Player::Dave]
}

/// A clue that matches the first card in the hand of `target`.
fn clue_for(state: &GameState, target: Player) -> Clue {
    let first = state.hand(target)[0];
    Clue::Suit(state.card(first).expect("the face is known").suit)
}

#[test]
fn players_take_turns_round_the_table() {
    assert_eq!(Player::Alice.next(), Player::Bob);
    assert_eq!(Player::Bob.next(), Player::Cathy);
    assert_eq!(Player::Cathy.next(), Player::Dave);
    assert_eq!(Player::Dave.next(), Player::Alice);
    for (seat, player) in all_players().into_iter().enumerate() {
        assert_eq!(player.index(), seat);
        assert_eq!(Player::from_index(seat), player);
    }
}

#[test]
fn a_rank_is_playable_on_the_rank_below() {
    for rank in all_ranks() {
        assert_eq!(rank.playable_on(None), rank == One);
        for top in all_ranks() {
            assert_eq!(rank.playable_on(Some(top)), rank.number() == top.number() + 1);
        }
        assert!(!rank.playable_on(Some(Five)));
        assert_eq!(Rank::from_number(rank.number()), rank);
    }
    assert!(Two.playable_on(Some(One)));
    assert!(!Five.playable_on(Some(Three)));
}

#[test]
fn faces_have_positions() {
    let mut seen = Vec::new();
    for (s, suit) in all_suits().into_iter().enumerate() {
        assert_eq!(suit.index(), s);
        assert_eq!(Suit::from_index(s), suit);
        for rank in all_ranks() {
            let face = card(suit, rank);
            let i = face.index();
            assert_eq!(i, s * 5 + rank.number() as usize - 1);
            assert_eq!(Card::from_index(i), face);
            assert!(!seen.contains(&i));
            seen.push(i);
        }
    }
    assert_eq!(seen.len(), 25);
}

#[test]
fn the_deck_holds_fifty_cards() {
    let deck = deck_distribution();
    let mut total = 0;
    for suit in all_suits() {
        assert_eq!(deck.get(card(suit, One)), 3);
        assert_eq!(deck.get(card(suit, Two)), 2);
        assert_eq!(deck.get(card(suit, Three)), 2);
        assert_eq!(deck.get(card(suit, Four)), 2);
        assert_eq!(deck.get(card(suit, Five)), 1);
        for rank in all_ranks() {
            total += deck.get(card(suit, rank));
        }
    }
    assert_eq!(total, 50);
    let mut sample = sample_deck();
    sample.sort();
    let mut expected = Vec::new();
    for suit in all_suits() {
        for rank in all_ranks() {
            for _ in 0..deck.get(card(suit, rank)) {
                expected.push(card(suit, rank));
            }
        }
    }
    expected.sort();
    assert_eq!(sample, expected);
}

#[test]
fn a_clue_matches_its_suit_or_rank() {
    assert!(Clue::Suit(Red).matches(card(Red, Five)));
    assert!(!Clue::Suit(Red).matches(card(Blue, Five)));
    assert!(Clue::Rank(Five).matches(card(Blue, Five)));
    assert!(!Clue::Rank(Four).matches(card(Blue, Five)));
}

#[test]
fn information_is_consistent_with_the_faces_it_describes() {
    assert!(Information(Clue::Rank(One), true).consistent_with(card(Red, One)));
    assert!(!Information(Clue::Rank(One), true).consistent_with(card(Red, Two)));
    assert!(Information(Clue::Rank(One), false).consistent_with(card(Red, Two)));
    assert!(!Information(Clue::Suit(Red), false).consistent_with(card(Red, Two)));
}

#[test]
fn a_card_id_increments_by_one() {
    let mut id = CardId(16);
    id.increment();
    assert_eq!(id, CardId(17));
}

#[test]
fn initial_deals_round_the_table() {
    let state = GameState::initial(&sample_deck());
    assert_eq!(state.current_player(), Player::Alice);
    assert_eq!(state.clues(), 8);
    assert_eq!(state.strikes(), 0);
    assert_eq!(state.deck_size(), 34);
    assert_eq!(state.final_turn(), None);
    assert_eq!(state.hand(Player::Alice), vec![CardId(0), CardId(4), CardId(8), CardId(12)]);
    assert_eq!(state.hand(Player::Bob), vec![CardId(1), CardId(5), CardId(9), CardId(13)]);
    assert_eq!(state.hand(Player::Cathy), vec![CardId(2), CardId(6), CardId(10), CardId(14)]);
    assert_eq!(state.hand(Player::Dave), vec![CardId(3), CardId(7), CardId(11), CardId(15)]);
    for (i, face) in sample_deck().into_iter().enumerate() {
        assert_eq!(state.card(CardId(i)), Some(face));
    }
    assert_eq!(state.card(CardId(50)), None);
    for suit in all_suits() {
        assert_eq!(state.pile(suit), None);
    }
    assert!(state.played_cards().is_empty());
    assert!(state.discarded_cards().is_empty());
    assert!(state.action_log().is_empty());
    assert!(state.unknown_cards().is_empty());
}

#[test]
fn misplay_strike() {
    let deck = deck_with(&[(0, card(Yellow, Four))]);
    let mut state = GameState::initial(&deck);
    let result = state.act(Action::Play(0));
    assert_eq!(result, ActionResult::Acted(CompletedAction::Played(0, card(Yellow, Four))));
    assert_eq!(state.strikes(), 1);
    assert_eq!(state.pile(Yellow), None);
    assert_eq!(state.clues(), 8);
    assert_eq!(state.discarded_cards(), vec![CardId(0)]);
    assert!(state.played_cards().is_empty());
    assert_eq!(state.hand(Player::Alice), vec![CardId(4), CardId(8), CardId(12), CardId(16)]);
    assert_eq!(state.deck_size(), 33);
    assert_eq!(state.current_player(), Player::Bob);
    assert_eq!(state.action_log(), vec![CompletedAction::Played(0, card(Yellow, Four))]);
}

#[test]
fn a_playable_card_goes_on_its_pile() {
    let mut state = GameState::initial(&sample_deck());
    let result = state.act(Action::Play(1));
    assert_eq!(result, ActionResult::Acted(CompletedAction::Played(1, card(Red, One))));
    assert_eq!(state.strikes(), 0);
    assert_eq!(state.pile(Red), Some(One));
    assert_eq!(state.played_cards(), vec![CardId(4)]);
    assert_eq!(state.hand(Player::Alice), vec![CardId(0), CardId(8), CardId(12), CardId(16)]);
}

#[test]
fn clue_increments_info() {
    let mut state = GameState::initial(&sample_deck());
    let result = state.act(Action::Clue(Player::Bob, Clue::Rank(One)));
    assert_eq!(
        result,
        ActionResult::Acted(CompletedAction::Clued(
            Player::Bob,
            Clue::Rank(One),
            vec![CardId(5), CardId(13)]
        ))
    );
    let mut matched = 0;
    for id in state.hand(Player::Bob) {
        let log = state.disclosures(id);
        assert_eq!(log.len(), 1);
        if log[0] == Information(Clue::Rank(One), true) {
            matched += 1;
        } else {
            assert_eq!(log[0], Information(Clue::Rank(One), false));
        }
    }
    assert_eq!(matched, 2);
    assert!(state.disclosures(CardId(0)).is_empty());
    assert_eq!(state.clues(), 7);
    assert_eq!(state.deck_size(), 34);
    assert_eq!(state.current_player(), Player::Bob);
}

#[test]
fn a_second_clue_adds_a_second_entry() {
    let mut state = GameState::initial(&sample_deck());
    state.act(Action::Clue(Player::Cathy, Clue::Suit(Blue)));
    state.act(Action::Clue(Player::Cathy, Clue::Rank(Five)));
    assert_eq!(
        state.disclosures(CardId(6)),
        vec![Information(Clue::Suit(Blue), false), Information(Clue::Rank(Five), true)]
    );
    assert_eq!(
        state.disclosures(CardId(10)),
        vec![Information(Clue::Suit(Blue), true), Information(Clue::Rank(Five), false)]
    );
}

#[test]
fn disclosures_leave_with_the_card() {
    let mut state = GameState::initial(&sample_deck());
    state.act(Action::Clue(Player::Bob, Clue::Rank(One)));
    assert_eq!(state.disclosures(CardId(5)).len(), 1);
    state.act(Action::Play(1));
    assert!(state.disclosures(CardId(5)).is_empty());
    assert_eq!(state.disclosures(CardId(1)).len(), 1);
}

#[test]
fn illegal_self_clue_changes_nothing() {
    let mut state = GameState::initial(&sample_deck());
    let before = state.fingerprint();
    let result = state.act(Action::Clue(Player::Alice, Clue::Rank(One)));
    assert_eq!(result, ActionResult::Illegal(IllegalAction::CluedSelf));
    assert_eq!(state.fingerprint(), before);
    assert_eq!(state.clues(), 8);
    assert_eq!(state.current_player(), Player::Alice);
    for id in state.hand(Player::Alice) {
        assert!(state.disclosures(id).is_empty());
    }
}

#[test]
fn a_clue_that_matches_nothing_changes_nothing() {
    let mut state = GameState::initial(&sample_deck());
    let result = state.act(Action::Clue(Player::Bob, Clue::Suit(Green)));
    assert_eq!(result, ActionResult::Illegal(IllegalAction::NoMatchingCards));
    assert_eq!(state.clues(), 8);
    assert_eq!(state.current_player(), Player::Alice);
    for id in state.hand(Player::Bob) {
        assert!(state.disclosures(id).is_empty());
    }
}

#[test]
fn a_card_out_of_the_hand_cannot_be_moved() {
    let mut state = GameState::initial(&sample_deck());
    assert_eq!(state.act(Action::Play(4)), ActionResult::Illegal(IllegalAction::NoSuchCard));
    assert_eq!(state.act(Action::Discard(4)), ActionResult::Illegal(IllegalAction::NoSuchCard));
    assert_eq!(state.current_player(), Player::Alice);
}

#[test]
fn no_clue_without_a_token() {
    let mut state = GameState::initial(&sample_deck());
    for _ in 0..8 {
        let target = state.current_player().next();
        let clue = clue_for(&state, target);
        assert!(matches!(state.act(Action::Clue(target, clue)), ActionResult::Acted(_)));
    }
    assert_eq!(state.clues(), 0);
    let target = state.current_player().next();
    let clue = clue_for(&state, target);
    assert_eq!(
        state.act(Action::Clue(target, clue)),
        ActionResult::Illegal(IllegalAction::NoClues)
    );
    assert_eq!(state.clues(), 0);
}

#[test]
fn an_unknown_card_cannot_be_moved() {
    let state = GameState::initial(&sample_deck());
    let mut view = state.player_view(Player::Alice);
    let before = view.fingerprint();
    assert_eq!(view.act(Action::Play(0)), ActionResult::Error(ActionError::UnknownCard));
    assert_eq!(view.fingerprint(), before);
    assert_eq!(view.hand(Player::Alice).len(), 4);
    let mut bobs = state.player_view(Player::Bob);
    assert_eq!(
        bobs.act(Action::Clue(Player::Bob, Clue::Rank(One))),
        ActionResult::Error(ActionError::UnknownCard)
    );
    assert_eq!(bobs.clues(), 8);
}

#[test]
fn discard_restoration() {
    let mut state = GameState::initial(&sample_deck());
    let before = state.fingerprint();
    assert_eq!(state.act(Action::Discard(0)), ActionResult::Illegal(IllegalAction::TooManyClues));
    assert_eq!(state.fingerprint(), before);
    assert_eq!(state.clues(), 8);
    for _ in 0..3 {
        let target = state.current_player().next();
        let clue = clue_for(&state, target);
        assert!(matches!(state.act(Action::Clue(target, clue)), ActionResult::Acted(_)));
    }
    assert_eq!(state.clues(), 5);
    assert_eq!(state.current_player(), Player::Dave);
    let result = state.act(Action::Discard(0));
    assert_eq!(result, ActionResult::Acted(CompletedAction::Discarded(0, card(Green, One))));
    assert_eq!(state.clues(), 6);
    assert_eq!(state.discarded_cards(), vec![CardId(3)]);
    assert_eq!(state.hand(Player::Dave), vec![CardId(7), CardId(11), CardId(15), CardId(16)]);
    assert_eq!(state.deck_size(), 33);
}

#[test]
fn playing_a_five_restores_a_clue() {
    let deck = deck_with(&[
        (0, card(Red, One)),
        (1, card(Red, Two)),
        (2, card(Red, Three)),
        (3, card(Red, Four)),
        (5, card(Red, Five)),
    ]);
    let mut state = GameState::initial(&deck);
    for _ in 0..4 {
        assert!(matches!(state.act(Action::Play(0)), ActionResult::Acted(_)));
    }
    assert_eq!(state.pile(Red), Some(Four));
    assert_eq!(state.clues(), 8);
    for _ in 0..5 {
        let target = state.current_player().next();
        let clue = clue_for(&state, target);
        assert!(matches!(state.act(Action::Clue(target, clue)), ActionResult::Acted(_)));
    }
    assert_eq!(state.clues(), 3);
    assert_eq!(state.current_player(), Player::Bob);
    assert_eq!(state.card(state.hand(Player::Bob)[0]), Some(card(Red, Five)));
    let result = state.act(Action::Play(0));
    assert_eq!(result, ActionResult::Acted(CompletedAction::Played(0, card(Red, Five))));
    assert_eq!(state.clues(), 4);
    assert_eq!(state.pile(Red), Some(Five));
    assert_eq!(state.strikes(), 0);
}

#[test]
fn a_five_restores_no_clue_when_all_are_there() {
    let deck = deck_with(&[
        (0, card(Red, One)),
        (1, card(Red, Two)),
        (2, card(Red, Three)),
        (3, card(Red, Four)),
        (4, card(Red, Five)),
    ]);
    let mut state = GameState::initial(&deck);
    for _ in 0..5 {
        assert!(matches!(state.act(Action::Play(0)), ActionResult::Acted(_)));
    }
    assert_eq!(state.pile(Red), Some(Five));
    assert_eq!(state.clues(), 8);
}

#[test]
fn strike_out_terminates_with_score_zero() {
    let deck = deck_with(&[
        (0, card(Red, One)),
        (1, card(Green, Five)),
        (2, card(Blue, Five)),
        (3, card(Yellow, Five)),
    ]);
    let mut state = GameState::initial(&deck);
    assert!(matches!(state.act(Action::Play(0)), ActionResult::Acted(_)));
    assert_eq!(state.pile(Red), Some(One));
    assert!(matches!(state.act(Action::Play(0)), ActionResult::Acted(_)));
    assert_eq!(state.strikes(), 1);
    assert!(matches!(state.act(Action::Play(0)), ActionResult::Acted(_)));
    assert_eq!(state.strikes(), 2);
    let log_before = state.action_log();
    assert_eq!(state.act(Action::Play(0)), ActionResult::Finished(0));
    assert_eq!(state.strikes(), 3);
    assert_eq!(state.pile(Red), Some(One));
    assert_eq!(state.current_player(), Player::Dave);
    assert_eq!(state.action_log(), log_before);
    assert_eq!(state.hand(Player::Dave).len(), 3);
}

#[test]
fn the_last_card_marks_the_final_turn() {
    let deck: Vec<Card> = sample_deck().into_iter().take(18).collect();
    let mut state = GameState::initial(&deck);
    assert_eq!(state.deck_size(), 2);
    assert!(matches!(state.act(Action::Play(0)), ActionResult::Acted(_)));
    assert_eq!(state.deck_size(), 1);
    assert_eq!(state.final_turn(), None);
    assert!(matches!(
        state.act(Action::Clue(Player::Cathy, Clue::Suit(Blue))),
        ActionResult::Acted(_)
    ));
    assert_eq!(state.final_turn(), None);
    assert!(matches!(state.act(Action::Discard(0)), ActionResult::Acted(_)));
    assert_eq!(state.deck_size(), 0);
    assert_eq!(state.final_turn(), Some(Player::Cathy));
    assert!(matches!(state.act(Action::Play(0)), ActionResult::Acted(_)));
    assert_eq!(state.pile(Green), Some(One));
    assert_eq!(state.hand(Player::Dave).len(), 3);
    assert!(matches!(state.act(Action::Play(0)), ActionResult::Acted(_)));
    assert_eq!(state.pile(Red), Some(One));
    assert!(matches!(state.act(Action::Play(0)), ActionResult::Acted(_)));
    assert_eq!(state.strikes(), 1);
    assert_eq!(state.final_turn(), Some(Player::Cathy));
    assert_eq!(state.current_player(), Player::Cathy);
    let log_before = state.action_log();
    let result = state.act(Action::Play(0));
    assert_eq!(result, ActionResult::Finished(3));
    assert_eq!(state.strikes(), 2);
    assert_eq!(state.hand(Player::Cathy).len(), 3);
    assert_eq!(state.current_player(), Player::Cathy);
    assert_eq!(state.action_log(), log_before);
    assert_eq!(state.final_turn(), Some(Player::Cathy));
}

#[test]
fn legal_actions_at_the_start() {
    let state = GameState::initial(&sample_deck());
    let mut expected =
        vec![Action::Play(0), Action::Play(1), Action::Play(2), Action::Play(3)];
    for target in vec![Player::Bob, Player::Cathy, Player::Dave] {
        let faces: Vec<Card> =
            state.hand(target).into_iter().map(|id| state.card(id).unwrap()).collect();
        for suit in all_suits() {
            if faces.iter().any(|c| c.suit == suit) {
                expected.push(Action::Clue(target, Clue::Suit(suit)));
            }
        }
        for rank in all_ranks() {
            if faces.iter().any(|c| c.rank == rank) {
                expected.push(Action::Clue(target, Clue::Rank(rank)));
            }
        }
    }
    assert_eq!(state.legal_actions(), expected);
}

#[test]
fn legal_actions_follow_the_clue_tokens() {
    let mut state = GameState::initial(&sample_deck());
    assert!(!state.legal_actions().contains(&Action::Discard(0)));
    state.act(Action::Clue(Player::Bob, Clue::Rank(One)));
    let actions = state.legal_actions();
    assert_eq!(
        &actions[..8],
        &[
            Action::Discard(0),
            Action::Play(0),
            Action::Discard(1),
            Action::Play(1),
            Action::Discard(2),
            Action::Play(2),
            Action::Discard(3),
            Action::Play(3)
        ]
    );
    assert!(actions.iter().all(|a| !matches!(a, Action::Clue(Player::Bob, _))));
    for _ in 0..7 {
        let target = state.current_player().next();
        let clue = clue_for(&state, target);
        state.act(Action::Clue(target, clue));
    }
    assert_eq!(state.clues(), 0);
    assert_eq!(state.legal_actions().len(), 8);
}

#[test]
fn every_legal_action_is_carried_out() {
    let mut state = GameState::initial(&sample_deck());
    let mut turn = 0;
    loop {
        let actions = state.legal_actions();
        assert!(!actions.is_empty());
        for action in actions.iter() {
            let mut copy = state.clone();
            let result = copy.act(*action);
            assert!(matches!(result, ActionResult::Acted(_) | ActionResult::Finished(_)));
        }
        let action = actions[(turn * 7 + 3) % actions.len()];
        turn += 1;
        for player in all_players() {
            assert!(state.hand(player).len() <= 4);
        }
        assert!(state.clues() <= 8);
        assert!(state.strikes() <= 2);
        let cards: usize = all_players().into_iter().map(|p| state.hand(p).len()).sum::<usize>()
            + state.deck_size()
            + state.played_cards().len()
            + state.discarded_cards().len();
        assert_eq!(cards, 50);
        match state.act(action) {
            ActionResult::Acted(_) => {},
            ActionResult::Finished(score) => {
                assert!((0..=25).contains(&score));
                assert!(state.strikes() <= 3);
                break;
            },
            other => panic!("a legal action was refused: {:?}", other),
        }
        assert!(turn < 200);
    }
}

#[test]
fn the_cards_of_the_deck_are_conserved() {
    let mut state = GameState::initial(&sample_deck());
    let deck = deck_distribution();
    let mut turn = 0;
    loop {
        for suit in all_suits() {
            for rank in all_ranks() {
                let face = card(suit, rank);
                let mut count = 0;
                for player in all_players() {
                    for id in state.hand(player) {
                        if state.card(id) == Some(face) {
                            count += 1;
                        }
                    }
                }
                for id in state.discarded_cards() {
                    if state.card(id) == Some(face) {
                        count += 1;
                    }
                }
                if let Some(top) = state.pile(suit) {
                    if rank.number() <= top.number() {
                        count += 1;
                    }
                }
                let first = 50 - state.deck_size();
                for k in first..50 {
                    if state.card(CardId(k)) == Some(face) {
                        count += 1;
                    }
                }
                assert_eq!(count, deck.get(face));
            }
        }
        let actions = state.legal_actions();
        let action = actions[(turn * 5 + 1) % actions.len()];
        turn += 1;
        if !matches!(state.act(action), ActionResult::Acted(_)) {
            break;
        }
    }
}

#[test]
fn what_the_clues_disclosed_is_true() {
    let mut state = GameState::initial(&sample_deck());
    let mut turn = 0;
    let mut entries = 0;
    loop {
        for player in all_players() {
            for id in state.hand(player) {
                let face = state.card(id).unwrap();
                for Information(clue, matched) in state.disclosures(id) {
                    assert_eq!(matched, clue.matches(face));
                    entries += 1;
                }
            }
        }
        for id in state.played_cards().into_iter().chain(state.discarded_cards()) {
            assert!(state.disclosures(id).is_empty());
        }
        let actions = state.legal_actions();
        let clues: Vec<Action> =
            actions.iter().copied().filter(|a| matches!(a, Action::Clue(_, _))).collect();
        let action = if turn % 3 != 2 && !clues.is_empty() {
            clues[(turn * 5) % clues.len()]
        } else {
            actions[(turn * 3) % actions.len()]
        };
        turn += 1;
        if !matches!(state.act(action), ActionResult::Acted(_)) {
            break;
        }
    }
    assert!(entries > 50);
}

#[test]
fn every_card_is_in_one_place_and_the_played_cards_are_on_the_piles() {
    let mut state = GameState::initial(&sample_deck());
    let mut turn = 0;
    loop {
        let mut ids: Vec<CardId> = Vec::new();
        for player in all_players() {
            ids.extend(state.hand(player));
        }
        ids.extend(state.played_cards());
        ids.extend(state.discarded_cards());
        for k in (50 - state.deck_size())..50 {
            ids.push(CardId(k));
        }
        assert_eq!(ids.len(), 50);
        let mut sorted = ids.clone();
        sorted.sort();
        sorted.dedup();
        assert_eq!(sorted.len(), 50);
        for suit in all_suits() {
            for rank in all_ranks() {
                let played = state
                    .played_cards()
                    .into_iter()
                    .filter(|id| state.card(*id) == Some(card(suit, rank)))
                    .count();
                let on_pile = match state.pile(suit) {
                    Some(top) if rank.number() <= top.number() => 1,
                    _ => 0,
                };
                assert_eq!(played, on_pile);
            }
        }
        let actions = state.legal_actions();
        let plays: Vec<Action> =
            actions.iter().copied().filter(|a| matches!(a, Action::Play(_))).collect();
        let mut good = None;
        for play in plays.iter() {
            if let Action::Play(i) = play {
                let face = state.card(state.hand(state.current_player())[*i]).unwrap();
                if face.rank.playable_on(state.pile(face.suit)) {
                    good = Some(*play);
                }
            }
        }
        let action = match good {
            Some(play) => play,
            None => actions[(turn * 7 + 1) % actions.len()],
        };
        turn += 1;
        if !matches!(state.act(action), ActionResult::Acted(_)) {
            break;
        }
    }
    assert!(!state.played_cards().is_empty());
}
