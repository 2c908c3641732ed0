use hanabi_ai::card_counts::CardCounts;
use hanabi_ai::deck::{exchange, full_deck, shuffle};
use hanabi_ai::determinization::{
    count_distinct, determinize, has_enough, DeterminizeError, MAX_ATTEMPTS,
};
use hanabi_ai::hanabi::{
    deck_distribution, Action, ActionResult, Card, CardId, Clue, GameState, Information, Player,
    Rank, Suit,
};
use hanabi_ai::priors::{consistent_with_all, deck_prior, restrict_prior};
use hanabi_ai::random::{draw_index, is_usable, WeightedCard};
use rand::{SeedableRng, StdRng};
use std::collections::HashMap;

fn rng(seed: usize) -> StdRng {
    let seed: &[usize] = &[seed, 17, 4, 2026];
    SeedableRng::from_seed(seed)
}

fn face(suit: Suit, rank: Rank) -> Card {
    Card { suit, rank }
}

fn standard_deck() -> Vec<Card> {
    let counts = deck_distribution();
    let mut deck = Vec::new();
    for i in 0..25 {
        let card = Card::from_index(i);
        for _ in 0..counts.get(card) {
            deck.push(card);
        }
    }
    let mut order = Vec::new();
    let mut at = 3;
    for _ in 0..deck.len() {
        while order.contains(&at) {
            at = (at + 1) % deck.len();
        }
        order.push(at);
        at = (at * 7 + 5) % deck.len();
    }
    order.into_iter().map(|i| deck[i]).collect()
}

fn counts_of(cards: &[Card]) -> CardCounts {
    let mut counts = CardCounts::new();
    for card in cards {
        counts.set(*card, counts.get(*card) + 1);
    }
    counts
}

fn ids(numbers: &[usize]) -> Vec<CardId> {
    numbers.iter().map(|k| CardId(*k)).collect()
}

fn only(card: Card) -> Vec<WeightedCard> {
    vec![WeightedCard { weight: 1, item: card }]
}

#[test]
fn card_counts_count() {
    let mut counts = CardCounts::new();
    for i in 0..25 {
        assert_eq!(counts.get(Card::from_index(i)), 0);
    }
    counts.set(face(Suit::Blue, Rank::Two), 2);
    assert_eq!(counts.get(face(Suit::Blue, Rank::Two)), 2);
    assert_eq!(counts.get(face(Suit::Blue, Rank::Three)), 0);
    assert!(counts.within(&deck_distribution()));
    assert!(!deck_distribution().within(&counts));
    let copy = counts.clone();
    counts.set(face(Suit::Blue, Rank::Two), 3);
    assert_eq!(copy.get(face(Suit::Blue, Rank::Two)), 2);
    assert!(!counts.within(&deck_distribution()));
    assert!(copy.within(&counts));
}

#[test]
fn every_unknown_gets_a_face_that_is_left() {
    for seed in 0..20 {
        let unknowns = ids(&[3, 9, 27, 4, 16]);
        let remaining = counts_of(&[
            face(Suit::Red, Rank::One),
            face(Suit::Red, Rank::One),
            face(Suit::Blue, Rank::Five),
            face(Suit::Green, Rank::Two),
            face(Suit::Green, Rank::Two),
            face(Suit::Purple, Rank::Four),
        ]);
        let assignment =
            determinize(&unknowns, &remaining, &HashMap::new(), &mut rng(seed)).unwrap();
        assert_eq!(assignment.len(), 5);
        let mut used = CardCounts::new();
        for id in unknowns.iter() {
            let card = assignment[&id.0];
            used.set(card, used.get(card) + 1);
        }
        assert!(used.within(&remaining));
    }
}

#[test]
fn all_that_is_left_is_given_out_when_it_is_just_enough() {
    let pool = [
        face(Suit::Red, Rank::One),
        face(Suit::Yellow, Rank::Three),
        face(Suit::Yellow, Rank::Three),
        face(Suit::Purple, Rank::Five),
    ];
    let mut orders = Vec::new();
    for seed in 0..40 {
        let unknowns = ids(&[10, 11, 12, 13]);
        let assignment =
            determinize(&unknowns, &counts_of(&pool), &HashMap::new(), &mut rng(seed)).unwrap();
        let mut given: Vec<Card> = unknowns.iter().map(|id| assignment[&id.0]).collect();
        if !orders.contains(&given) {
            orders.push(given.clone());
        }
        given.sort();
        let mut expected = pool.to_vec();
        expected.sort();
        assert_eq!(given, expected);
    }
    assert!(orders.len() > 1);
}

#[test]
fn a_prior_decides_the_face_of_its_card() {
    for seed in 0..20 {
        let unknowns = ids(&[1, 2, 3]);
        let remaining = counts_of(&[
            face(Suit::Red, Rank::Five),
            face(Suit::Blue, Rank::One),
            face(Suit::Blue, Rank::Two),
        ]);
        let mut priors = HashMap::new();
        priors.insert(2, only(face(Suit::Red, Rank::Five)));
        let assignment = determinize(&unknowns, &remaining, &priors, &mut rng(seed)).unwrap();
        assert_eq!(assignment[&2], face(Suit::Red, Rank::Five));
        assert_ne!(assignment[&1], face(Suit::Red, Rank::Five));
        assert_ne!(assignment[&3], face(Suit::Red, Rank::Five));
        assert_ne!(assignment[&1], assignment[&3]);
    }
}

#[test]
fn priors_are_drawn_again_until_they_fit() {
    for seed in 0..20 {
        let unknowns = ids(&[1, 2]);
        let remaining =
            counts_of(&[face(Suit::Red, Rank::Five), face(Suit::Blue, Rank::One)]);
        let either = vec![
            WeightedCard { weight: 5, item: face(Suit::Red, Rank::Five) },
            WeightedCard { weight: 1, item: face(Suit::Blue, Rank::One) },
        ];
        let mut priors = HashMap::new();
        priors.insert(1, either.clone());
        priors.insert(2, either);
        let assignment = determinize(&unknowns, &remaining, &priors, &mut rng(seed)).unwrap();
        assert_ne!(assignment[&1], assignment[&2]);
    }
}

#[test]
fn a_card_listed_twice_is_one_card() {
    let unknowns = ids(&[5, 5, 6]);
    let remaining = counts_of(&[face(Suit::Red, Rank::One), face(Suit::Red, Rank::Two)]);
    let assignment = determinize(&unknowns, &remaining, &HashMap::new(), &mut rng(1)).unwrap();
    assert_eq!(assignment.len(), 2);
    assert_ne!(assignment[&5], assignment[&6]);
}

#[test]
fn a_prior_of_another_card_is_not_looked_at() {
    let unknowns = ids(&[5]);
    let remaining = counts_of(&[face(Suit::Red, Rank::One)]);
    let mut priors = HashMap::new();
    priors.insert(6, Vec::new());
    let assignment = determinize(&unknowns, &remaining, &priors, &mut rng(1)).unwrap();
    assert_eq!(assignment.len(), 1);
    assert_eq!(assignment[&5], face(Suit::Red, Rank::One));
}

#[test]
fn too_few_faces_are_noticed_before_the_draw() {
    let remaining = counts_of(&[face(Suit::Red, Rank::One), face(Suit::Red, Rank::Two)]);
    assert_eq!(remaining.sum(), 2);
    assert_eq!(deck_distribution().sum(), 50);
    assert_eq!(CardCounts::new().sum(), 0);
    assert_eq!(count_distinct(&ids(&[1, 2, 3])), 3);
    assert_eq!(count_distinct(&ids(&[5, 5, 6, 5])), 2);
    assert_eq!(count_distinct(&ids(&[])), 0);
    assert!(!has_enough(&ids(&[1, 2, 3]), &remaining));
    assert!(has_enough(&ids(&[1, 2]), &remaining));
    assert!(has_enough(&ids(&[1, 2, 2, 1]), &remaining));
    assert!(has_enough(&ids(&[]), &CardCounts::new()));
    let none: Vec<CardId> = Vec::new();
    let empty = determinize(&none, &CardCounts::new(), &HashMap::new(), &mut rng(1)).unwrap();
    assert!(empty.is_empty());
}

#[test]
fn a_game_with_too_many_cards_cannot_be_filled() {
    let mut deck = standard_deck();
    let more: Vec<Card> = standard_deck().into_iter().take(10).collect();
    deck.extend(more);
    let state = GameState::initial(&deck);
    let mut view = state.player_view(Player::Alice);
    assert!(view.faces_within_deck());
    assert_eq!(view.unknown_cards().len(), 48);
    assert_eq!(view.remaining_card_counts().sum(), 38);
    let before = view.fingerprint();
    assert_eq!(
        view.determinize(&HashMap::new(), &mut rng(1)),
        Err(DeterminizeError::NotEnoughCards)
    );
    assert_eq!(view.fingerprint(), before);
    let mut priors = HashMap::new();
    priors.insert(state.hand(Player::Alice)[0].0, Vec::new());
    assert_eq!(view.determinize(&priors, &mut rng(1)), Err(DeterminizeError::UnusablePrior));
}

#[test]
fn an_unusable_prior_is_an_error() {
    let unknowns = ids(&[1, 2]);
    let remaining = deck_distribution();
    let mut priors = HashMap::new();
    priors.insert(2, Vec::new());
    assert_eq!(
        determinize(&unknowns, &remaining, &priors, &mut rng(1)),
        Err(DeterminizeError::UnusablePrior)
    );
    priors.insert(2, vec![WeightedCard { weight: 0, item: face(Suit::Red, Rank::One) }]);
    assert_eq!(
        determinize(&unknowns, &remaining, &priors, &mut rng(1)),
        Err(DeterminizeError::UnusablePrior)
    );
    priors.insert(
        2,
        vec![
            WeightedCard { weight: u32::MAX, item: face(Suit::Red, Rank::One) },
            WeightedCard { weight: 1, item: face(Suit::Red, Rank::Two) },
        ],
    );
    assert_eq!(
        determinize(&unknowns, &remaining, &priors, &mut rng(1)),
        Err(DeterminizeError::UnusablePrior)
    );
}

#[test]
fn priors_that_never_fit_are_given_up() {
    assert_eq!(MAX_ATTEMPTS, 100000);
    let unknowns = ids(&[1, 2]);
    let remaining = counts_of(&[face(Suit::Red, Rank::Five), face(Suit::Blue, Rank::One)]);
    let mut priors = HashMap::new();
    priors.insert(1, only(face(Suit::Red, Rank::Five)));
    priors.insert(2, only(face(Suit::Red, Rank::Five)));
    assert_eq!(
        determinize(&unknowns, &remaining, &priors, &mut rng(1)),
        Err(DeterminizeError::Exhausted)
    );
}

#[test]
fn weights_are_usable_when_they_sum_to_something() {
    assert!(!is_usable(&Vec::new()));
    assert!(is_usable(&only(face(Suit::Red, Rank::One))));
    assert!(!is_usable(&vec![WeightedCard { weight: 0, item: face(Suit::Red, Rank::One) }]));
    assert!(is_usable(&vec![
        WeightedCard { weight: u32::MAX - 1, item: face(Suit::Red, Rank::One) },
        WeightedCard { weight: 1, item: face(Suit::Red, Rank::Two) },
    ]));
    assert!(!is_usable(&vec![
        WeightedCard { weight: u32::MAX, item: face(Suit::Red, Rank::One) },
        WeightedCard { weight: 1, item: face(Suit::Red, Rank::Two) },
    ]));
}

#[test]
fn a_weighted_draw_gives_one_of_the_choices() {
    let choices = vec![
        WeightedCard { weight: 3, item: face(Suit::Red, Rank::One) },
        WeightedCard { weight: 0, item: face(Suit::Green, Rank::One) },
        WeightedCard { weight: 1, item: face(Suit::Blue, Rank::One) },
    ];
    let mut priors = HashMap::new();
    priors.insert(7, choices);
    let mut source = rng(5);
    let mut red = 0;
    let mut blue = 0;
    for _ in 0..400 {
        let assignment =
            determinize(&ids(&[7]), &deck_distribution(), &priors, &mut source).unwrap();
        let drawn = assignment[&7];
        if drawn == face(Suit::Red, Rank::One) {
            red += 1;
        } else {
            assert_eq!(drawn, face(Suit::Blue, Rank::One));
            blue += 1;
        }
    }
    assert!(red > blue);
    assert!(blue > 0);
}

#[test]
fn a_drawn_index_is_below_the_bound() {
    let mut source = rng(9);
    assert_eq!(draw_index(0, &mut source), None);
    assert_eq!(draw_index(1, &mut source), Some(0));
    let mut seen = [false; 5];
    for _ in 0..200 {
        let i = draw_index(5, &mut source).unwrap();
        assert!(i < 5);
        seen[i] = true;
    }
    assert!(seen.iter().all(|s| *s));
}

#[test]
fn priors_are_restricted_by_what_was_disclosed() {
    let log = vec![
        Information(Clue::Rank(Rank::One), true),
        Information(Clue::Suit(Suit::Red), false),
    ];
    assert!(consistent_with_all(&log, face(Suit::Blue, Rank::One)));
    assert!(!consistent_with_all(&log, face(Suit::Red, Rank::One)));
    assert!(!consistent_with_all(&log, face(Suit::Blue, Rank::Two)));
    assert!(consistent_with_all(&Vec::new(), face(Suit::Blue, Rank::Two)));
    let deck = deck_prior();
    assert_eq!(deck.len(), 25);
    for (i, choice) in deck.iter().enumerate() {
        assert_eq!(choice.item, Card::from_index(i));
        assert_eq!(choice.weight as usize, deck_distribution().get(choice.item));
    }
    let kept = restrict_prior(&deck, &log);
    assert_eq!(
        kept,
        vec![
            WeightedCard { weight: 3, item: face(Suit::Green, Rank::One) },
            WeightedCard { weight: 3, item: face(Suit::Blue, Rank::One) },
            WeightedCard { weight: 3, item: face(Suit::Yellow, Rank::One) },
            WeightedCard { weight: 3, item: face(Suit::Purple, Rank::One) },
        ]
    );
}

#[test]
fn a_view_is_filled_from_what_is_left_of_the_deck() {
    let state = GameState::initial(&standard_deck());
    for seed in 0..10 {
        let mut view = state.player_view(Player::Alice);
        assert_eq!(view.unknown_cards().len(), 38);
        assert_eq!(view.determinize(&HashMap::new(), &mut rng(seed)), Ok(()));
        assert!(view.unknown_cards().is_empty());
        assert!(view.faces_within_deck());
        for k in 0..50 {
            assert!(view.card(CardId(k)).is_some());
        }
        for id in state.hand(Player::Bob) {
            assert_eq!(view.card(id), state.card(id));
        }
        let seen = view.seen_card_counts();
        let deck = deck_distribution();
        for i in 0..25 {
            assert_eq!(seen.get(Card::from_index(i)), deck.get(Card::from_index(i)));
        }
        assert_eq!(view.hand(Player::Alice), state.hand(Player::Alice));
        assert_eq!(view.clues(), state.clues());
    }
}

#[test]
fn filled_faces_agree_with_the_clues() {
    let mut state = GameState::initial(&standard_deck());
    let bobs: Vec<Card> =
        state.hand(Player::Bob).into_iter().map(|id| state.card(id).unwrap()).collect();
    let clue = Clue::Rank(bobs[0].rank);
    assert!(matches!(state.act(Action::Clue(Player::Bob, clue)), ActionResult::Acted(_)));
    let second = Clue::Suit(bobs[1].suit);
    let view = state.player_view(Player::Bob);
    let mut told = view.clone();
    told.reduce_to_player_view(Player::Bob);
    assert_eq!(told.fingerprint(), view.fingerprint());
    let mut after_second = state.clone();
    assert!(matches!(after_second.act(Action::Discard(0)), ActionResult::Acted(_)));
    assert!(matches!(
        after_second.act(Action::Clue(Player::Bob, second)),
        ActionResult::Acted(_)
    ));
    for source in vec![state.player_view(Player::Bob), after_second.player_view(Player::Bob)] {
        for seed in 0..20 {
            let mut filled = source.clone();
            assert_eq!(filled.determinize(&HashMap::new(), &mut rng(seed)), Ok(()));
            assert!(filled.faces_within_deck());
            for id in filled.hand(Player::Bob) {
                let card = filled.card(id).unwrap();
                let log = filled.disclosures(id);
                assert!(!log.is_empty());
                for entry in log {
                    assert!(entry.consistent_with(card));
                }
            }
        }
    }
}

#[test]
fn a_prior_is_restricted_to_what_the_clues_allow() {
    let mut state = GameState::initial(&standard_deck());
    let id = state.hand(Player::Bob)[0];
    let truth = state.card(id).unwrap();
    assert!(matches!(
        state.act(Action::Clue(Player::Bob, Clue::Rank(truth.rank))),
        ActionResult::Acted(_)
    ));
    let other_rank = if truth.rank == Rank::One { Rank::Two } else { Rank::One };
    let mut priors = HashMap::new();
    priors.insert(
        id.0,
        vec![
            WeightedCard { weight: 1000, item: face(truth.suit, other_rank) },
            WeightedCard { weight: 1, item: truth },
        ],
    );
    for seed in 0..10 {
        let mut view = state.player_view(Player::Bob);
        assert_eq!(view.determinize(&priors, &mut rng(seed)), Ok(()));
        assert_eq!(view.card(id), Some(truth));
    }
    priors.insert(id.0, only(face(truth.suit, other_rank)));
    let mut view = state.player_view(Player::Bob);
    let before = view.fingerprint();
    assert_eq!(view.determinize(&priors, &mut rng(1)), Err(DeterminizeError::UnusablePrior));
    assert_eq!(view.fingerprint(), before);
    assert_eq!(view.unknown_cards().len(), 38);
}

#[test]
fn a_prior_without_clues_is_used_as_it_stands() {
    let state = GameState::initial(&standard_deck());
    let id = state.hand(Player::Cathy)[2];
    let truth = state.card(id).unwrap();
    let mut priors = HashMap::new();
    priors.insert(id.0, only(truth));
    priors.insert(state.hand(Player::Bob)[0].0, Vec::new());
    for seed in 0..10 {
        let mut view = state.player_view(Player::Cathy);
        assert_eq!(view.determinize(&priors, &mut rng(seed)), Ok(()));
        assert_eq!(view.card(id), Some(truth));
        assert!(view.faces_within_deck());
    }
}

#[test]
fn a_full_game_needs_no_faces() {
    let mut state = GameState::initial(&standard_deck());
    let before = state.fingerprint();
    assert_eq!(state.determinize(&HashMap::new(), &mut rng(3)), Ok(()));
    assert_eq!(state.fingerprint(), before);
}

#[test]
fn a_full_deck_holds_every_face_as_often_as_it_should() {
    let deck = full_deck();
    assert_eq!(deck.len(), 50);
    assert_eq!(deck[0], face(Suit::Red, Rank::One));
    assert_eq!(deck[3], face(Suit::Red, Rank::Two));
    assert_eq!(deck[9], face(Suit::Red, Rank::Five));
    assert_eq!(deck[10], face(Suit::Green, Rank::One));
    assert_eq!(deck[49], face(Suit::Purple, Rank::Five));
    let counted = counts_of(&deck);
    let expected = deck_distribution();
    for i in 0..25 {
        assert_eq!(counted.get(Card::from_index(i)), expected.get(Card::from_index(i)));
    }
    let mut sorted = deck.clone();
    sorted.sort();
    assert_eq!(sorted, deck);
}

#[test]
fn shuffling_keeps_the_cards() {
    let mut orders = Vec::new();
    for seed in 0..10 {
        let mut deck = full_deck();
        shuffle(&mut deck, &mut rng(seed));
        assert_eq!(deck.len(), 50);
        let mut sorted = deck.clone();
        sorted.sort();
        assert_eq!(sorted, full_deck());
        assert_ne!(deck, full_deck());
        assert!(!orders.contains(&deck));
        orders.push(deck.clone());
        let state = GameState::initial(&deck);
        assert!(state.faces_within_deck());
        let remaining = state.remaining_card_counts();
        for i in 0..25 {
            assert_eq!(remaining.get(Card::from_index(i)), 0);
        }
    }
    let mut few = vec![face(Suit::Red, Rank::One)];
    shuffle(&mut few, &mut rng(1));
    assert_eq!(few, vec![face(Suit::Red, Rank::One)]);
    let mut none: Vec<Card> = Vec::new();
    shuffle(&mut none, &mut rng(1));
    assert!(none.is_empty());
}

#[test]
fn the_cards_beyond_those_used_are_listed_face_by_face() {
    let all = counts_of(&[
        face(Suit::Blue, Rank::Two),
        face(Suit::Red, Rank::One),
        face(Suit::Red, Rank::One),
        face(Suit::Blue, Rank::Two),
        face(Suit::Blue, Rank::Two),
    ]);
    let used = counts_of(&[face(Suit::Blue, Rank::Two), face(Suit::Red, Rank::One)]);
    assert_eq!(
        all.cards_beyond(&used),
        vec![
            face(Suit::Red, Rank::One),
            face(Suit::Blue, Rank::Two),
            face(Suit::Blue, Rank::Two)
        ]
    );
    assert!(all.cards_beyond(&all).is_empty());
}

#[test]
fn exchanging_two_places_moves_two_cards() {
    let mut deck = vec![
        face(Suit::Red, Rank::One),
        face(Suit::Green, Rank::Two),
        face(Suit::Blue, Rank::Three),
    ];
    exchange(&mut deck, 0, 2);
    assert_eq!(
        deck,
        vec![
            face(Suit::Blue, Rank::Three),
            face(Suit::Green, Rank::Two),
            face(Suit::Red, Rank::One)
        ]
    );
    exchange(&mut deck, 1, 1);
    assert_eq!(deck[1], face(Suit::Green, Rank::Two));
    exchange(&mut deck, 2, 1);
    assert_eq!(
        deck,
        vec![
            face(Suit::Blue, Rank::Three),
            face(Suit::Red, Rank::One),
            face(Suit::Green, Rank::Two)
        ]
    );
}

#[test]
fn a_shuffle_of_two_cards_gives_both_orders() {
    let first = face(Suit::Red, Rank::One);
    let second = face(Suit::Green, Rank::Two);
    let mut kept = 0;
    let mut turned = 0;
    for seed in 0..40 {
        let mut deck = vec![first, second];
        shuffle(&mut deck, &mut rng(seed));
        if deck == vec![first, second] {
            kept += 1;
        } else {
            assert_eq!(deck, vec![second, first]);
            turned += 1;
        }
    }
    assert!(kept > 0 && turned > 0);
}
