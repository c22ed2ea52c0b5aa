//! Cards, suits, and the 52-card French deck.

use vstd::prelude::*;

verus! {

/// One of the four suits of a French deck.
#[derive(Copy, Clone, PartialEq, Eq, Structural, Debug)]
pub enum CardSuit {
    Spades,
    Hearts,
    Diamonds,
    Clubs,
}

/// A playing card: a suit and a number in `1..=13`.
#[derive(Copy, Clone, PartialEq, Eq, Structural, Debug)]
pub struct Card {
    pub number: i32,
    pub suit: CardSuit,
}

/// The suit of position `i` of the unshuffled deck: thirteen cards of each
/// suit, suit after suit.
pub open spec fn suit_of_index(i: int) -> CardSuit {
    if i < 13 {
        CardSuit::Spades
    } else if i < 26 {
        CardSuit::Hearts
    } else if i < 39 {
        CardSuit::Diamonds
    } else {
        CardSuit::Clubs
    }
}

/// The unshuffled French deck: for each suit the numbers 1 through 13, so
/// every (suit, number) pair appears exactly once.
pub open spec fn full_deck() -> Seq<Card> {
    Seq::new(52, |i: int| Card { number: (i % 13 + 1) as i32, suit: suit_of_index(i) })
}

/// The unshuffled deck holds every card with a number in `1..=13`, at a
/// position that its suit and number determine; no card appears twice.
pub proof fn lemma_full_deck_exactly_once()
    ensures
        full_deck().no_duplicates(),
        forall|c: Card| 1 <= c.number <= 13 ==> full_deck().contains(c),
        forall|c: Card| !(1 <= c.number <= 13) ==> !full_deck().contains(c),
{
    assert forall|c: Card| 1 <= c.number <= 13 implies full_deck().contains(c) by {
        let base: int = match c.suit {
            CardSuit::Spades => 0,
            CardSuit::Hearts => 13,
            CardSuit::Diamonds => 26,
            CardSuit::Clubs => 39,
        };
        assert(full_deck()[base + c.number - 1] == c);
    }
}

/// Relies on rand's `SliceRandom::shuffle` with the thread-local generator:
/// a Fisher-Yates shuffle that reorders the slice in place by swapping
/// elements, so the deck afterwards holds exactly the cards it held before.
#[verifier::external_body]
fn shuffle_deck(deck: &mut Vec<Card>)
    ensures
        final(deck)@.len() == old(deck)@.len(),
        final(deck)@.to_multiset() == old(deck)@.to_multiset(),
{
    rand::seq::SliceRandom::shuffle(deck.as_mut_slice(), &mut rand::thread_rng());
}

/// A freshly shuffled 52-card deck: some ordering of exactly the cards of
/// the French deck.
pub fn random_full_deck() -> (deck: Vec<Card>)
    ensures
        deck@.len() == 52,
        deck@.to_multiset() == full_deck().to_multiset(),
{
    let mut deck: Vec<Card> = Vec::new();
    assert(deck@ =~= full_deck().subrange(0, 0));
    for i in iter: 0..52usize
        invariant
            deck@ =~= full_deck().subrange(0, i as int),
    {
        let suit = if i < 13 {
            CardSuit::Spades
        } else if i < 26 {
            CardSuit::Hearts
        } else if i < 39 {
            CardSuit::Diamonds
        } else {
            CardSuit::Clubs
        };
        let number = (i % 13 + 1) as i32;
        deck.push(Card { number, suit });
        assert(deck@ =~= full_deck().subrange(0, i as int + 1));
    }
    assert(deck@ =~= full_deck());
    shuffle_deck(&mut deck);
    deck
}

/// How one player's hand relates to the deck it was cut from: hand `p` is
/// the `p`-th contiguous slice of `deck_size` cards.
pub open spec fn is_hand_slice(hand: Seq<Card>, deck: Seq<Card>, p: int, deck_size: int) -> bool {
    &&& hand.len() == deck_size
    &&& forall|i: int| 0 <= i < deck_size ==> hand[i] == deck[p * deck_size + i]
}

/// Cuts a deck into one contiguous hand of `52 / players` cards per player,
/// in deck order; the `52 % players` cards at the end of the deck stay
/// unused. Returns the hands, the hand size, and the number of unused cards.
pub fn deal_cards_to_players(players: i32, deck: &Vec<Card>) -> (dealt: (Vec<Vec<Card>>, i32, i32))
    requires
        players >= 1,
        deck@.len() == 52,
    ensures
        dealt.1 == 52int / players as int,
        dealt.2 == 52int % players as int,
        dealt.0@.len() == players,
        forall|p: int|
            0 <= p < players ==> is_hand_slice(#[trigger] dealt.0@[p]@, deck@, p, 52int / players as int),
{
    let deck_size = 52i32 / players;
    let unused_cards = 52i32 % players;
    proof {
        vstd::arithmetic::div_mod::lemma_fundamental_div_mod(52, players as int);
    }
    assert(players * deck_size <= 52);
    let mut hands: Vec<Vec<Card>> = Vec::new();
    let mut next: usize = 0;
    for p in iter: 0..players
        invariant
            deck_size == 52int / players as int,
            players * deck_size <= 52,
            deck@.len() == 52,
            hands@.len() == p,
            next == p * deck_size,
            forall|q: int|
                0 <= q < p ==> is_hand_slice(#[trigger] hands@[q]@, deck@, q, deck_size as int),
    {
        let mut hand: Vec<Card> = Vec::new();
        assert(p * deck_size + deck_size <= players * deck_size) by (nonlinear_arith)
            requires
                p < players,
                deck_size >= 0,
        ;
        for i in jter: 0..deck_size
            invariant
                deck_size == 52int / players as int,
                deck@.len() == 52,
                next == p * deck_size + i,
                p * deck_size + deck_size <= 52,
                i <= deck_size,
                hand@.len() == i,
                forall|j: int| 0 <= j < i ==> hand@[j] == deck@[p * deck_size + j],
        {
            hand.push(deck[next]);
            next = next + 1;
        }
        hands.push(hand);
        proof {
            assert((p + 1) * deck_size == p * deck_size + deck_size) by (nonlinear_arith);
        }
    }
    (hands, deck_size, unused_cards)
}

} // verus!
