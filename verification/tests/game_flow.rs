use rand::rngs::StdRng;
use rand::{Rng, SeedableRng};
use rustico::cards::{deal_cards_to_players, Card, CardSuit};
use rustico::coordinator::keep_playing;
use rustico::game::{
    apply_round, check_player_quantity, collect_round_cards, new_game, run_game,
    termination_flags, turn_flags,
};

/// The ordered 52-card deck, suit after suit, numbers 1 through 13.
fn ordered_deck() -> Vec<Card> {
    let mut deck = Vec::new();
    for suit in [CardSuit::Spades, CardSuit::Hearts, CardSuit::Diamonds, CardSuit::Clubs] {
        for number in 1..14 {
            deck.push(Card { number, suit });
        }
    }
    deck
}

fn dealt_hands(players: i32) -> Vec<Vec<Card>> {
    let deck = ordered_deck();
    let (hands, _, _) = deal_cards_to_players(players, &deck);
    hands
}

#[test]
fn test_player_quantity_bounds() {
    // Four players is the smallest legal game; odd counts are rejected.
    assert!(check_player_quantity(4));
    assert!(check_player_quantity(6));
    assert!(!check_player_quantity(3));
    assert!(!check_player_quantity(5));
    assert!(!check_player_quantity(13));
    assert!(!check_player_quantity(0));
    assert!(!check_player_quantity(-4));
}

#[test]
fn test_new_game_smallest_legal() {
    let state = new_game(4);
    assert_eq!(state.players, 4);
    assert_eq!(state.deck_size, 13);
    assert_eq!(state.round, 1);
    assert_eq!(state.suspended_player, None);
    for p in 0..4 {
        assert_eq!(*state.points_by_user.get(&p).unwrap(), 0);
        assert_eq!(*state.available_cards_by_user.get(&p).unwrap(), 13);
    }
}

#[test]
fn test_two_consecutive_rustic_rounds_suspend_the_slowest() {
    let hands = dealt_hands(4);
    let mut state = new_game(4);
    let cards_sent: Vec<usize> = vec![0, 0, 0, 0];

    // Round 1, rustic: all four play; the last arrival, player 3, is the
    // slowest and sits out round 2.
    let cards = collect_round_cards(4, &state.suspended_player, &hands, &cards_sent);
    assert_eq!(cards.len(), 4);
    apply_round(&mut state, cards, false);
    assert_eq!(state.suspended_player, Some(3));
    assert_eq!(state.round, 2);

    // Round 2, rustic: player 3 is signalled without leave to throw; only
    // three cards arrive, none of them from player 3.
    let flags = turn_flags(&state.suspended_player, 3);
    assert!(flags.is_my_turn);
    assert!(!flags.can_throw_card);
    let flags = turn_flags(&state.suspended_player, 0);
    assert!(flags.can_throw_card);

    let cards_sent: Vec<usize> = vec![1, 1, 1, 1];
    let cards = collect_round_cards(4, &state.suspended_player, &hands, &cards_sent);
    assert_eq!(cards.len(), 3);
    for card in &cards {
        assert_ne!(card.player_signature, 3);
    }
    apply_round(&mut state, cards, false);
    // Now the last of the three arrivals, player 2, is the slowest.
    assert_eq!(state.suspended_player, Some(2));

    // The scoreboard keys stay exactly {0, 1, 2, 3} through the rounds.
    assert_eq!(state.points_by_user.len(), 4);
    for p in 0..4 {
        assert!(state.points_by_user.contains_key(&p));
        assert!(state.available_cards_by_user.contains_key(&p));
    }
}

#[test]
fn test_largest_game_one_card_each() {
    // Fifty-two players split the deck into hands of a single card: the
    // game is over after one round.
    let hands = dealt_hands(52);
    let round_types: Vec<bool> = vec![true];
    let (state, cards_sent, rounds_suspended) = run_game(52, &hands, &round_types);
    assert_eq!(state.round, 2);
    for p in 0..52 {
        assert_eq!(cards_sent[p], 1);
        assert_eq!(rounds_suspended[p], 0);
    }
}

#[test]
fn test_termination_after_thirteen_rounds() {
    // With no rustic rounds nobody is ever suspended: every player plays
    // exactly thirteen rounds and the game then stops.
    let hands = dealt_hands(4);
    let round_types: Vec<bool> = vec![true; 13];
    let (state, cards_sent, rounds_suspended) = run_game(4, &hands, &round_types);
    assert_eq!(state.round, 14);
    assert!(!keep_playing(&state.available_cards_by_user));
    for p in 0..4 {
        assert_eq!(cards_sent[p], 13);
        assert_eq!(rounds_suspended[p], 0);
        assert_eq!(*state.available_cards_by_user.get(&(p as i32)).unwrap(), 0);
    }
    let flags = termination_flags();
    assert!(flags.game_ended);
    assert!(flags.is_my_turn);
}

#[test]
fn test_every_player_sends_deck_size_minus_suspensions() {
    // A game with rustic rounds: each player sends one card per round it
    // was not suspended.
    let hands = dealt_hands(6);
    let round_types: Vec<bool> = vec![false, true, false, false, true, false, true, false];
    let (state, cards_sent, rounds_suspended) = run_game(6, &hands, &round_types);
    assert_eq!(state.round, 9);
    for p in 0..6 {
        assert_eq!(cards_sent[p] + rounds_suspended[p], 8);
    }
    assert_eq!(*state.available_cards_by_user.get(&0).unwrap(), 0);
}

#[test]
fn test_seeded_game_reproduces_scoreboard() {
    // Two runs over the same seeded round types give bitwise the same
    // scoreboard.
    let hands = dealt_hands(6);

    let mut rng = StdRng::seed_from_u64(177);
    let round_types: Vec<bool> = (0..8).map(|_| rng.gen()).collect();
    let (state_one, sent_one, _) = run_game(6, &hands, &round_types);

    let mut rng = StdRng::seed_from_u64(177);
    let round_types_again: Vec<bool> = (0..8).map(|_| rng.gen()).collect();
    assert_eq!(round_types, round_types_again);
    let (state_two, sent_two, _) = run_game(6, &hands, &round_types_again);

    assert_eq!(state_one.round, state_two.round);
    assert_eq!(sent_one, sent_two);
    for p in 0..6 {
        assert_eq!(
            state_one.points_by_user.get(&p).unwrap(),
            state_two.points_by_user.get(&p).unwrap()
        );
        assert_eq!(
            state_one.available_cards_by_user.get(&p).unwrap(),
            state_two.available_cards_by_user.get(&p).unwrap()
        );
    }
}
