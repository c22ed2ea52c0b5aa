//! Core of the Rustico card game: the deck, the hand evaluator, the
//! per-round points arithmetic, and the coordinator's round state machine.
//!
//! The concurrent agents (one thread per player plus a coordinator) exchange
//! cards over channels and synchronize with a barrier and per-player condition
//! variables; every decision those agents take is a function in this crate,
//! with a contract, so that the protocol's bookkeeping is verified even though
//! the thread plumbing itself lives outside it.

pub mod cards;
pub mod coordinator;
pub mod game;
pub mod player;
pub mod signed_card;
