//! The player agent's per-round decisions.
//!
//! A player thread loops: it waits at the round barrier, blocks on its
//! condition variable until `is_my_turn`, and then either terminates, throws
//! the next card of its hand, or skips the round because it is suspended.
//! The thread plumbing lives outside this crate; the decision taken once the
//! flags have been read, and the card that is thrown, are computed here.

use vstd::prelude::*;
use crate::cards::Card;
use crate::signed_card::SignedCard;

verus! {

/// The per-player turn flags, shared between that player and the
/// coordinator under the player's mutex.
#[derive(Copy, Clone, PartialEq, Eq, Structural, Debug)]
pub struct RoundPlayerFlags {
    pub is_my_turn: bool,
    pub can_throw_card: bool,
    pub game_ended: bool,
}

/// What a player does in one iteration of its loop, once its turn flags
/// say `is_my_turn`.
#[derive(Copy, Clone, PartialEq, Eq, Structural, Debug)]
pub enum PlayerAction {
    /// `game_ended` was set: leave the loop.
    Terminate,
    /// Throw the next card of the hand.
    ThrowCard,
    /// Suspended for this round: throw nothing, only release the turn.
    Skip,
}

/// The decision a player takes after being signalled, read off its flags:
/// termination wins over everything, then the suspension flag decides
/// whether a card is thrown.
pub fn player_turn_action(flags: &RoundPlayerFlags) -> (action: PlayerAction)
    requires
        flags.is_my_turn,
    ensures
        action == (if flags.game_ended {
            PlayerAction::Terminate
        } else if flags.can_throw_card {
            PlayerAction::ThrowCard
        } else {
            PlayerAction::Skip
        }),
{
    if flags.game_ended {
        PlayerAction::Terminate
    } else if flags.can_throw_card {
        PlayerAction::ThrowCard
    } else {
        PlayerAction::Skip
    }
}

/// The card a player throws when allowed to play: the next unthrown card of
/// its hand, signed with its own identifier.
pub fn next_signed_card(hand: &Vec<Card>, cards_thrown: usize, player_id: i32) -> (signed:
    SignedCard)
    requires
        cards_thrown < hand@.len(),
    ensures
        signed.card == hand@[cards_thrown as int],
        signed.player_signature == player_id,
{
    SignedCard { card: hand[cards_thrown], player_signature: player_id }
}

} // verus!
