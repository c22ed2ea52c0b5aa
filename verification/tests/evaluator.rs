use rustico::cards::{Card, CardSuit};
use rustico::coordinator::{
    calculate_normal_hand_points, calculate_rustic_hand_points, determine_hand_outcome,
};
use rustico::signed_card::SignedCard;

fn signed(player: i32, number: i32) -> SignedCard {
    SignedCard { card: Card { number, suit: CardSuit::Spades }, player_signature: player }
}

/// The arrival order (p0,5), (p1,9), (p2,9), (p3,2).
fn tied_round() -> Vec<SignedCard> {
    vec![signed(0, 5), signed(1, 9), signed(2, 9), signed(3, 2)]
}

#[test]
fn test_normal_round_with_tied_max_card() {
    let outcome = calculate_normal_hand_points(tied_round());
    assert_eq!(outcome.max_card_points, 5);
    assert_eq!(outcome.players_with_max_card.len(), 2);
    assert!(outcome.players_with_max_card.contains(&1));
    assert!(outcome.players_with_max_card.contains(&2));
    assert_eq!(*outcome.earned_points.get(&0).unwrap(), 0);
    assert_eq!(*outcome.earned_points.get(&1).unwrap(), 5);
    assert_eq!(*outcome.earned_points.get(&2).unwrap(), 5);
    assert_eq!(*outcome.earned_points.get(&3).unwrap(), 0);
    assert_eq!(outcome.fastest_player, None);
    assert_eq!(outcome.slowest_player, None);
}

#[test]
fn test_rustic_round_with_tied_max_card() {
    let outcome = calculate_rustic_hand_points(tied_round());
    assert_eq!(*outcome.earned_points.get(&0).unwrap(), 1);
    assert_eq!(*outcome.earned_points.get(&1).unwrap(), 5);
    assert_eq!(*outcome.earned_points.get(&2).unwrap(), 5);
    assert_eq!(*outcome.earned_points.get(&3).unwrap(), -5);
    assert_eq!(outcome.fastest_player, Some(0));
    assert_eq!(outcome.slowest_player, Some(3));
}

#[test]
fn test_all_players_tie_on_max_card() {
    let cards = vec![signed(0, 10), signed(1, 10), signed(2, 10), signed(3, 10)];
    let outcome = determine_hand_outcome(cards, true);
    assert_eq!(outcome.players_with_max_card.len(), 4);
    assert_eq!(outcome.max_card_points, 2);
    for p in 0..4 {
        assert_eq!(*outcome.earned_points.get(&p).unwrap(), 2);
    }
}

#[test]
fn test_round_points_sum_to_distribution() {
    // Σ earned == k·⌊10/k⌋, plus FASTER + SLOWER == −4 in a rustic round.
    let normal = determine_hand_outcome(tied_round(), true);
    let total: i32 = normal.earned_points.values().sum();
    assert_eq!(total, 2 * 5);
    let rustic = determine_hand_outcome(tied_round(), false);
    let total: i32 = rustic.earned_points.values().sum();
    assert_eq!(total, 2 * 5 - 4);
}

#[test]
fn test_evaluator_is_deterministic() {
    let first = determine_hand_outcome(tied_round(), false);
    let second = determine_hand_outcome(tied_round(), false);
    assert_eq!(first.max_card_points, second.max_card_points);
    assert_eq!(first.players_with_max_card, second.players_with_max_card);
    assert_eq!(first.fastest_player, second.fastest_player);
    assert_eq!(first.slowest_player, second.slowest_player);
    for p in 0..4 {
        assert_eq!(first.earned_points.get(&p), second.earned_points.get(&p));
    }
    assert_eq!(first.earned_points.len(), second.earned_points.len());
}

#[test]
fn test_single_card_round() {
    let outcome = determine_hand_outcome(vec![signed(2, 7)], true);
    assert_eq!(outcome.max_card_points, 10);
    assert_eq!(outcome.players_with_max_card, vec![2]);
    assert_eq!(*outcome.earned_points.get(&2).unwrap(), 10);
    assert_eq!(outcome.earned_points.len(), 1);
}
