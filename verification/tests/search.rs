use hanabi_ai::basic_mcts::{best_positions, MctsState, Node, PlayoutError, MAX_SAMPLES};
use hanabi_ai::hanabi::{
    deck_distribution, Action, ActionResult, Card, Clue, GameState, Player, Rank, Suit,
};
use rand::{SeedableRng, StdRng};

fn rng(seed: usize) -> StdRng {
    let seed: &[usize] = &[seed, 99, 7];
    SeedableRng::from_seed(seed)
}

fn standard_deck(step: usize) -> Vec<Card> {
    let counts = deck_distribution();
    let mut deck = Vec::new();
    for i in 0..25 {
        let card = Card::from_index(i);
        for _ in 0..counts.get(card) {
            deck.push(card);
        }
    }
    let mut order = Vec::new();
    let mut at = 1;
    for _ in 0..deck.len() {
        while order.contains(&at) {
            at = (at + 1) % deck.len();
        }
        order.push(at);
        at = (at * step + 13) % deck.len();
    }
    order.into_iter().map(|i| deck[i]).collect()
}

fn ucb1(reward_sum: u128, num_samples: u64, total_samples: u64) -> u64 {
    let mean = reward_sum as f64 / num_samples as f64;
    let grade = mean + 1.4 * ((total_samples as f64).ln() / num_samples as f64).sqrt();
    grade.to_bits()
}

fn mean_only(reward_sum: u128, num_samples: u64, _total_samples: u64) -> u64 {
    if num_samples == 0 {
        0
    } else {
        (reward_sum * 1000 / num_samples as u128) as u64
    }
}

#[test]
fn a_node_keeps_the_exact_mean() {
    let mut node = Node::new();
    assert!(node.is_empty());
    assert_eq!(node.total_samples(), 0);
    assert!(node.arrow(Action::Play(0)).is_none());
    let rewards = [7u32, 25, 0, 13, 13, 2];
    let mut sum = 0u128;
    for (n, reward) in rewards.iter().enumerate() {
        node.add_sample(Action::Play(0), *reward);
        sum += *reward as u128;
        let arrow = node.arrow(Action::Play(0)).unwrap();
        assert_eq!(arrow.reward_sum(), sum);
        assert_eq!(arrow.num_samples(), n as u64 + 1);
        assert_eq!(node.total_samples(), n as u64 + 1);
    }
    assert_eq!(sum, 60);
    node.add_sample(Action::Discard(2), 9);
    let arrow = node.arrow(Action::Play(0)).unwrap();
    assert_eq!((arrow.reward_sum(), arrow.num_samples()), (60, 6));
    let other = node.arrow(Action::Discard(2)).unwrap();
    assert_eq!((other.reward_sum(), other.num_samples()), (9, 1));
    assert_eq!(node.total_samples(), 7);
    assert!(!node.is_empty());
    assert_eq!(MAX_SAMPLES, (1u64 << 48) - 1);
}

#[test]
fn the_best_actions_have_the_largest_mean() {
    let mut node = Node::new();
    assert!(node.best_actions().is_empty());
    node.add_sample(Action::Play(0), 10);
    node.add_sample(Action::Play(0), 20);
    node.add_sample(Action::Play(1), 15);
    node.add_sample(Action::Play(2), 14);
    node.add_sample(Action::Play(3), 30);
    node.add_sample(Action::Play(3), 0);
    node.add_sample(Action::Discard(0), 16);
    node.add_sample(Action::Discard(0), 13);
    assert_eq!(
        node.best_actions(),
        vec![Action::Play(0), Action::Play(1), Action::Play(3)]
    );
    node.add_sample(Action::Play(2), 18);
    assert_eq!(node.best_actions(), vec![Action::Play(2)]);
}

#[test]
fn the_best_positions_hold_the_largest_grade() {
    assert!(best_positions(&Vec::new()).is_empty());
    assert_eq!(best_positions(&vec![3]), vec![0]);
    assert_eq!(best_positions(&vec![3, 9, 2, 9, 9, 1]), vec![1, 3, 4]);
    assert_eq!(best_positions(&vec![0, 0]), vec![0, 1]);
    assert_eq!(best_positions(&vec![5, 4, 3]), vec![0]);
}

#[test]
fn untried_actions_come_first() {
    let legal = vec![Action::Play(0), Action::Play(1), Action::Discard(0), Action::Play(2)];
    let mut node = Node::new();
    node.add_sample(Action::Play(0), 25);
    node.add_sample(Action::Discard(0), 25);
    node.add_sample(Action::Play(7), 25);
    assert_eq!(node.unexplored(&legal), vec![Action::Play(1), Action::Play(2)]);
    let mut source = rng(4);
    let mut first = 0;
    let mut second = 0;
    for _ in 0..100 {
        let chosen = node.select(&legal, &ucb1, &mut source);
        if chosen == Action::Play(1) {
            first += 1;
        } else {
            assert_eq!(chosen, Action::Play(2));
            second += 1;
        }
    }
    assert!(first > 0 && second > 0);
}

#[test]
fn select_takes_the_largest_grade() {
    let legal = vec![Action::Play(0), Action::Play(1), Action::Discard(0)];
    let mut node = Node::new();
    node.add_sample(Action::Play(0), 3);
    node.add_sample(Action::Play(1), 20);
    node.add_sample(Action::Discard(0), 20);
    node.add_sample(Action::Play(5), 25);
    assert!(node.unexplored(&legal).is_empty());
    assert_eq!(node.grades(&legal, &mean_only), vec![3000, 20000, 20000]);
    let mut source = rng(8);
    let mut seen = Vec::new();
    for _ in 0..100 {
        let chosen = node.select(&legal, &mean_only, &mut source);
        assert!(chosen == Action::Play(1) || chosen == Action::Discard(0));
        if !seen.contains(&chosen) {
            seen.push(chosen);
        }
    }
    assert_eq!(seen.len(), 2);
}

#[test]
fn exploration_favours_what_was_tried_less() {
    let legal = vec![Action::Play(0), Action::Play(1)];
    let mut node = Node::new();
    for _ in 0..50 {
        node.add_sample(Action::Play(0), 10);
    }
    node.add_sample(Action::Play(1), 9);
    let grades = node.grades(&legal, &ucb1);
    let first = 10.0 + 1.4 * ((51f64).ln() / 50.0).sqrt();
    let second = 9.0 + 1.4 * ((51f64).ln() / 1.0).sqrt();
    assert_eq!(grades, vec![first.to_bits(), second.to_bits()]);
    let mut source = rng(2);
    for _ in 0..20 {
        assert_eq!(node.select(&legal, &ucb1, &mut source), Action::Play(1));
    }
}

#[test]
fn select_never_leaves_the_legal_actions() {
    let state = GameState::initial(&standard_deck(7));
    let legal = state.legal_actions();
    let mut node = Node::new();
    let mut source = rng(21);
    for round in 0..300u32 {
        let chosen = node.select(&legal, &ucb1, &mut source);
        assert!(legal.contains(&chosen));
        node.add_sample(chosen, round % 26);
        node.add_sample(Action::Discard(9), 25);
    }
    for action in legal.iter() {
        assert!(node.arrow(*action).is_some());
    }
}

#[test]
fn updates_are_counted_at_their_nodes() {
    let state = GameState::initial(&standard_deck(7));
    let view = state.player_view(Player::Alice);
    let key = view.fingerprint().digest();
    let mut mcts = MctsState::new(view, ucb1);
    assert!(!mcts.has_samples());
    assert_eq!(mcts.samples(), 0);
    mcts.update(vec![(key, Action::Play(1)), (77, Action::Play(0))], 12);
    assert!(mcts.has_samples());
    mcts.update(vec![(key, Action::Play(1)), (78, Action::Play(0))], 20);
    mcts.update(vec![(key, Action::Play(2))], 15);
    let mut source = rng(3);
    for _ in 0..20 {
        assert_eq!(mcts.choose_action(&mut source), Action::Play(1));
    }
    mcts.update(vec![(key, Action::Play(2))], 17);
    let mut seen = Vec::new();
    for _ in 0..50 {
        let chosen = mcts.choose_action(&mut source);
        assert!(chosen == Action::Play(1) || chosen == Action::Play(2));
        if !seen.contains(&chosen) {
            seen.push(chosen);
        }
    }
    assert_eq!(seen.len(), 2);
    mcts.update(vec![(key, Action::Play(3)), (key, Action::Play(3))], 25);
    assert_eq!(mcts.choose_action(&mut source), Action::Play(3));
    assert_eq!(mcts.samples(), 8);
}

#[test]
fn a_playout_reaches_a_score() {
    let state = GameState::initial(&standard_deck(7));
    let view = state.current_view();
    let key = view.fingerprint().digest();
    let legal = view.legal_actions();
    let mcts = MctsState::new(view, ucb1);
    for seed in 0..25 {
        let (updates, reward) = mcts.run_playout(&mut rng(seed)).unwrap();
        assert!(reward <= 25);
        assert!(!updates.is_empty());
        assert!(updates.len() <= 108);
        assert_eq!(updates[0].0, key);
        assert!(legal.contains(&updates[0].1));
    }
}

#[test]
fn a_search_chooses_a_legal_action() {
    let mut state = GameState::initial(&standard_deck(11));
    let mut source = rng(6);
    for _turn in 0..3 {
        let view = state.current_view();
        let legal = view.legal_actions();
        let mut mcts = MctsState::new(view, ucb1);
        for _batch in 0..10 {
            let mut batch = Vec::new();
            for _ in 0..5 {
                batch.push(mcts.run_playout(&mut source).unwrap());
            }
            for (updates, reward) in batch {
                mcts.update(updates, reward);
            }
        }
        assert!(mcts.has_samples());
        let action = mcts.choose_action(&mut source);
        assert!(legal.contains(&action));
        assert!(matches!(state.act(action), ActionResult::Acted(_)));
    }
}

#[test]
fn a_playout_goes_on_after_clues() {
    let mut state = GameState::initial(&standard_deck(7));
    for _ in 0..6 {
        let target = state.current_player().next();
        let clue = Clue::Rank(state.card(state.hand(target)[1]).unwrap().rank);
        assert!(matches!(state.act(Action::Clue(target, clue)), ActionResult::Acted(_)));
    }
    let mcts = MctsState::new(state.current_view(), ucb1);
    let mut finished = 0;
    for seed in 0..25 {
        match mcts.run_playout(&mut rng(seed)) {
            Ok((updates, reward)) => {
                assert!(reward <= 25);
                assert!(!updates.is_empty());
                finished += 1;
            },
            Err(PlayoutError::Determinize(_)) => {},
            Err(PlayoutError::NoLegalAction) => panic!("the game is not stuck"),
        }
    }
    assert!(finished > 0);
}

#[test]
fn a_stuck_game_is_reported() {
    let deck: Vec<Card> = vec![
        Card { suit: Suit::Red, rank: Rank::Two },
        Card { suit: Suit::Green, rank: Rank::Two },
        Card { suit: Suit::Blue, rank: Rank::Two },
        Card { suit: Suit::Yellow, rank: Rank::Two },
        Card { suit: Suit::Red, rank: Rank::Three },
        Card { suit: Suit::Green, rank: Rank::Three },
        Card { suit: Suit::Blue, rank: Rank::Three },
        Card { suit: Suit::Yellow, rank: Rank::Three },
        Card { suit: Suit::Red, rank: Rank::Four },
        Card { suit: Suit::Green, rank: Rank::Four },
        Card { suit: Suit::Blue, rank: Rank::Four },
        Card { suit: Suit::Yellow, rank: Rank::Four },
        Card { suit: Suit::Red, rank: Rank::Five },
        Card { suit: Suit::Green, rank: Rank::Five },
        Card { suit: Suit::Blue, rank: Rank::Five },
        Card { suit: Suit::Yellow, rank: Rank::Five },
    ];
    let mut state = GameState::initial(&deck);
    assert_eq!(state.deck_size(), 0);
    for _ in 0..8 {
        let target = state.current_player().next();
        let clue = Clue::Suit(state.card(state.hand(target)[0]).unwrap().suit);
        assert!(matches!(state.act(Action::Clue(target, clue)), ActionResult::Acted(_)));
    }
    for _round in 0..4 {
        for _player in 0..4 {
            state.act(Action::Discard(0));
            if state.clues() > 0 {
                let player = state.current_player();
                let target = [player.next(), player.next().next(), player.next().next().next()]
                    .into_iter()
                    .find(|p| !state.hand(*p).is_empty());
                if let Some(target) = target {
                    let clue = Clue::Suit(state.card(state.hand(target)[0]).unwrap().suit);
                    state.act(Action::Clue(target, clue));
                }
            }
        }
    }
    while !state.legal_actions().is_empty() {
        let action = state.legal_actions()[0];
        assert!(matches!(state.act(action), ActionResult::Acted(_)));
    }
    assert!(state.strikes() < 3);
    let mcts = MctsState::new(state.current_view(), ucb1);
    assert_eq!(mcts.run_playout(&mut rng(1)), Err(PlayoutError::NoLegalAction));
}

#[test]
fn clues_that_no_deck_can_meet_exhaust_the_draws() {
    let faces = [
        (Suit::Red, Rank::Five),
        (Suit::Green, Rank::One),
        (Suit::Blue, Rank::One),
        (Suit::Yellow, Rank::One),
        (Suit::Red, Rank::Five),
        (Suit::Green, Rank::Two),
        (Suit::Blue, Rank::Two),
        (Suit::Yellow, Rank::Two),
        (Suit::Green, Rank::Three),
        (Suit::Purple, Rank::One),
        (Suit::Blue, Rank::Three),
        (Suit::Yellow, Rank::Three),
        (Suit::Green, Rank::Four),
        (Suit::Purple, Rank::Two),
        (Suit::Blue, Rank::Four),
        (Suit::Yellow, Rank::Four),
    ];
    let deck: Vec<Card> = faces.iter().map(|(suit, rank)| Card { suit: *suit, rank: *rank }).collect();
    let mut state = GameState::initial(&deck);
    for (target, clue) in [
        (Player::Bob, Clue::Suit(Suit::Green)),
        (Player::Alice, Clue::Rank(Rank::Five)),
        (Player::Alice, Clue::Suit(Suit::Red)),
        (Player::Bob, Clue::Suit(Suit::Purple)),
    ] {
        assert!(matches!(state.act(Action::Clue(target, clue)), ActionResult::Acted(_)));
    }
    assert_eq!(state.current_player(), Player::Alice);
    let view = state.current_view();
    assert!(view.faces_within_deck());
    assert!(view.strikes() < 3);
    let mcts = MctsState::new(view, ucb1);
    assert_eq!(
        mcts.run_playout(&mut rng(1)),
        Err(PlayoutError::Determinize(hanabi_ai::determinization::DeterminizeError::Exhausted))
    );
}
