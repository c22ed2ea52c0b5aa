//! A card annotated with the player that threw it.

use vstd::prelude::*;
use crate::cards::Card;

verus! {

/// A card together with the identifier of the player who played it.
#[derive(Copy, Clone, PartialEq, Eq, Structural, Debug)]
pub struct SignedCard {
    pub card: Card,
    pub player_signature: i32,
}

} // verus!
