use rustico::cards::{Card, CardSuit};
use rustico::player::{next_signed_card, player_turn_action, PlayerAction, RoundPlayerFlags};

#[test]
fn test_player_actions_follow_the_flags() {
    let throw = RoundPlayerFlags { is_my_turn: true, can_throw_card: true, game_ended: false };
    assert_eq!(player_turn_action(&throw), PlayerAction::ThrowCard);

    let suspended = RoundPlayerFlags { is_my_turn: true, can_throw_card: false, game_ended: false };
    assert_eq!(player_turn_action(&suspended), PlayerAction::Skip);

    // Termination wins even when the player could otherwise throw.
    let over = RoundPlayerFlags { is_my_turn: true, can_throw_card: true, game_ended: true };
    assert_eq!(player_turn_action(&over), PlayerAction::Terminate);
}

#[test]
fn test_player_throws_its_hand_in_order() {
    let hand = vec![
        Card { number: 4, suit: CardSuit::Hearts },
        Card { number: 11, suit: CardSuit::Clubs },
    ];
    let first = next_signed_card(&hand, 0, 2);
    assert_eq!(first.player_signature, 2);
    assert_eq!(first.card, hand[0]);
    let second = next_signed_card(&hand, 1, 2);
    assert_eq!(second.card, hand[1]);
}
