use rustico::cards::{deal_cards_to_players, random_full_deck, Card, CardSuit};

fn suit_index(suit: CardSuit) -> usize {
    match suit {
        CardSuit::Spades => 0,
        CardSuit::Hearts => 1,
        CardSuit::Diamonds => 2,
        CardSuit::Clubs => 3,
    }
}

/// The ordered 52-card deck, suit after suit, numbers 1 through 13.
fn ordered_deck() -> Vec<Card> {
    let mut deck = Vec::new();
    for suit in [CardSuit::Spades, CardSuit::Hearts, CardSuit::Diamonds, CardSuit::Clubs] {
        for number in 1..14 {
            deck.push(Card { number, suit });
        }
    }
    deck
}

#[test]
fn cards_test_empty_points_map_len() {
    let deck = random_full_deck();
    assert_eq!(deck.len(), 52);
}

#[test]
fn test_shuffled_deck_has_every_card_once() {
    let deck = random_full_deck();
    let mut seen = [[false; 13]; 4];
    for card in &deck {
        assert!(1 <= card.number && card.number <= 13);
        let s = suit_index(card.suit);
        let n = (card.number - 1) as usize;
        assert!(!seen[s][n], "card dealt twice");
        seen[s][n] = true;
    }
    for row in seen {
        for found in row {
            assert!(found);
        }
    }
}

#[test]
fn test_deal_four_players_thirteen_cards() {
    let deck = ordered_deck();
    let (hands, deck_size, unused_cards) = deal_cards_to_players(4, &deck);
    assert_eq!(deck_size, 13);
    assert_eq!(unused_cards, 0);
    assert_eq!(hands.len(), 4);
    for (p, hand) in hands.iter().enumerate() {
        assert_eq!(hand.len(), 13);
        for (i, card) in hand.iter().enumerate() {
            assert_eq!(*card, deck[p * 13 + i]);
        }
    }
}

#[test]
fn test_deal_five_and_thirteen_players() {
    let deck = ordered_deck();
    let (hands, deck_size, unused_cards) = deal_cards_to_players(5, &deck);
    assert_eq!(deck_size, 10);
    assert_eq!(unused_cards, 2);
    assert_eq!(hands.len(), 5);

    let (hands, deck_size, unused_cards) = deal_cards_to_players(13, &deck);
    assert_eq!(deck_size, 4);
    assert_eq!(unused_cards, 0);
    assert_eq!(hands.len(), 13);
}
