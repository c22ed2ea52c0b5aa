//! The coordinator's game state and round loop.
//!
//! The coordinator thread deals the hands, then drives rounds: it signals
//! the players one by one in clockwise order, collects one card from every
//! non-suspended player, scores the round, and decides termination. Every
//! decision of that loop is a function here; the channel, barrier, and
//! condition-variable plumbing that carries the decisions between threads
//! lives outside the crate. The signalling protocol serializes a round, so
//! the cards arrive in clockwise order `0, 1, …, N−1` minus the suspended
//! player; `run_game` plays a whole game on that schedule.

use vstd::prelude::*;
use std::collections::HashMap;

use crate::cards::Card;
use crate::coordinator::{
    base_points, determine_hand_outcome, distinct_signatures, hand_outcome_model, int_view,
    keep_playing, lemma_base_points_bounds, lemma_winner_count_positive, merge_points_hashmaps,
    player_fixed_values_map, player_keyed, player_points_map, players_present, signatures,
    value_or_zero,
};
use crate::player::RoundPlayerFlags;
use crate::signed_card::SignedCard;

verus! {

/// A game needs at least four players and an even number of them.
pub fn check_player_quantity(players: i32) -> (ok: bool)
    ensures
        ok <==> players >= 4 && players % 2 == 0,
{
    players >= 4 && players % 2 == 0
}

/// With at least four players, each hand holds between one and thirteen of
/// the deck's 52 cards.
pub proof fn lemma_deck_size_bounds(players: int)
    requires
        players >= 4,
    ensures
        0 <= 52int / players <= 13,
{
    vstd::arithmetic::div_mod::lemma_fundamental_div_mod(52, players);
    let q = 52int / players;
    let r = 52int % players;
    assert(q <= 13 && q >= 0) by (nonlinear_arith)
        requires
            players >= 4,
            52 == players * q + r,
            0 <= r < players,
    ;
}

/// The bookkeeping the coordinator carries from round to round.
pub struct GameState {
    pub players: i32,
    pub deck_size: i32,
    pub points_by_user: HashMap<i32, i32>,
    pub available_cards_by_user: HashMap<i32, i32>,
    pub suspended_player: Option<i32>,
    pub round: i32,
}

impl GameState {
    /// What holds of the coordinator's bookkeeping at every point between
    /// rounds: at least four players, an even number of them; the
    /// scoreboard and the available-cards map both keyed by exactly the
    /// player ids `0..players`; every available count between zero and the
    /// hand size; every score within what the rounds a player took part in
    /// can have earned it; and the suspended player, if any, a player.
    pub open spec fn wf(self) -> bool {
        &&& self.players >= 4
        &&& self.players % 2 == 0
        &&& self.deck_size == 52int / self.players as int
        &&& player_keyed(self.points_by_user@, self.players as int)
        &&& player_keyed(self.available_cards_by_user@, self.players as int)
        &&& forall|p: i32|
            self.available_cards_by_user@.dom().contains(p) ==> 0
                <= #[trigger] self.available_cards_by_user@[p] <= self.deck_size
        &&& forall|p: i32|
            self.points_by_user@.dom().contains(p) ==> -5 * (self.deck_size
                - self.available_cards_by_user@[p]) <= #[trigger] self.points_by_user@[p] <= 11 * (
            self.deck_size - self.available_cards_by_user@[p])
        &&& self.round >= 1
        &&& match self.suspended_player {
            Some(sp) => 0 <= sp < self.players,
            None => true,
        }
    }
}

/// The coordinator's bookkeeping before the first round: every score
/// zero, every player holding a full hand of `52 / players` cards, nobody
/// suspended.
pub fn new_game(players: i32) -> (state: GameState)
    requires
        players >= 4,
        players % 2 == 0,
    ensures
        state.wf(),
        state.players == players,
        state.deck_size == 52int / players as int,
        state.points_by_user@ == player_points_map(players as int, 0),
        state.available_cards_by_user@ == player_points_map(players as int, state.deck_size),
        state.suspended_player is None,
        state.round == 1,
{
    proof {
        lemma_deck_size_bounds(players as int);
    }
    let deck_size = 52i32 / players;
    let points_by_user = player_fixed_values_map(players, 0);
    let available_cards_by_user = player_fixed_values_map(players, deck_size);
    GameState {
        players,
        deck_size,
        points_by_user,
        available_cards_by_user,
        suspended_player: None,
        round: 1,
    }
}

/// The flags the coordinator writes, under player `p`'s lock, to hand `p`
/// its turn: the turn flag set, the game not ended, and leave to throw a
/// card unless `p` is the round's suspended player.
pub fn turn_flags(suspended_player: &Option<i32>, p: i32) -> (flags: RoundPlayerFlags)
    ensures
        flags.is_my_turn,
        !flags.game_ended,
        flags.can_throw_card <==> *suspended_player != Some(p),
{
    let can_throw_card = match suspended_player {
        Some(sp) => *sp != p,
        None => true,
    };
    RoundPlayerFlags { is_my_turn: true, can_throw_card, game_ended: false }
}

/// The flags the coordinator writes to every player when the game is
/// over: the turn handed out one last time with `game_ended` set, so each
/// agent wakes and leaves its loop.
pub fn termination_flags() -> (flags: RoundPlayerFlags)
    ensures
        flags.is_my_turn,
        flags.can_throw_card,
        flags.game_ended,
{
    RoundPlayerFlags { is_my_turn: true, can_throw_card: true, game_ended: true }
}

/// The order the cards of one round arrive in: the clockwise order
/// `0, 1, …, players−1`, minus the suspended player, who is signalled but
/// throws nothing.
pub open spec fn arrival_signatures(players: int, suspended_player: Option<i32>) -> Seq<i32> {
    match suspended_player {
        None => Seq::new(players as nat, |i: int| i as i32),
        Some(sp) => if 0 <= sp < players {
            Seq::new(
                (players - 1) as nat,
                |i: int|
                    if i < sp {
                        i as i32
                    } else {
                        (i + 1) as i32
                    },
            )
        } else {
            Seq::new(players as nat, |i: int| i as i32)
        },
    }
}

/// The arrival order lists every non-suspended player exactly once, in
/// increasing order; the first to play is player 0 or 1 and the last is
/// player `players−1` or `players−2`, depending only on who is suspended.
pub proof fn lemma_arrival_properties(players: int, suspended_player: Option<i32>)
    requires
        1 <= players <= 0x7fff_ffff,
        match suspended_player {
            Some(sp) => 0 <= sp < players,
            None => true,
        },
    ensures
        ({
            let arr = arrival_signatures(players, suspended_player);
            &&& arr.no_duplicates()
            &&& arr.len() == players - (if suspended_player is Some {
                1int
            } else {
                0int
            })
            &&& forall|j: int| 0 <= j < arr.len() ==> 0 <= #[trigger] arr[j] < players
            &&& forall|j: int|
                0 <= j < arr.len() ==> Some(#[trigger] arr[j]) != suspended_player
            &&& forall|q: i32|
                0 <= q < players && Some(q) != suspended_player ==> arr.contains(q)
            &&& players >= 2 ==> arr.last() as int >= players - 2
            &&& players >= 2 ==> arr.first() as int <= 1
        }),
{
    let arr = arrival_signatures(players, suspended_player);
    assert forall|q: i32| 0 <= q < players && Some(q) != suspended_player implies arr.contains(
        q,
    ) by {
        match suspended_player {
            None => {
                assert(arr[q as int] == q);
            },
            Some(sp) => {
                if q < sp {
                    assert(arr[q as int] == q);
                } else {
                    assert(arr[q as int - 1] == q);
                }
            },
        }
    }
}

/// The cards of one round as the coordinator collects them: one card per
/// non-suspended player, each player's next unthrown card, signed, in
/// clockwise order. No suspended player has a card in the result.
#[verifier::loop_isolation(false)]
pub fn collect_round_cards(
    players: i32,
    suspended_player: &Option<i32>,
    hands: &Vec<Vec<Card>>,
    cards_thrown: &Vec<usize>,
) -> (cards: Vec<SignedCard>)
    requires
        players >= 1,
        hands@.len() == players,
        cards_thrown@.len() == players,
        match *suspended_player {
            Some(sp) => 0 <= sp < players,
            None => true,
        },
        forall|p: int|
            0 <= p < players && Some(p as i32) != *suspended_player ==> #[trigger] cards_thrown@[p]
                < hands@[p]@.len(),
    ensures
        signatures(cards@) == arrival_signatures(players as int, *suspended_player),
        forall|j: int|
            0 <= j < cards@.len() ==> {
                let sig = (#[trigger] cards@[j]).player_signature as int;
                cards@[j].card == hands@[sig]@[cards_thrown@[sig] as int]
            },
        forall|j: int| 0 <= j < cards@.len() ==> Some(#[trigger] cards@[j].player_signature)
            != *suspended_player,
{
    let ghost arr = arrival_signatures(players as int, *suspended_player);
    proof {
        lemma_arrival_properties(players as int, *suspended_player);
    }
    let mut cards: Vec<SignedCard> = Vec::new();
    for p in iter: 0..players
        invariant
            cards@.len() == p - (match *suspended_player {
                Some(sp) => if sp < p {
                    1int
                } else {
                    0int
                },
                None => 0int,
            }),
            forall|j: int|
                0 <= j < cards@.len() ==> #[trigger] cards@[j].player_signature == arr[j]
                    && cards@[j].player_signature < p,
            forall|j: int|
                0 <= j < cards@.len() ==> {
                    let sig = (#[trigger] cards@[j]).player_signature as int;
                    cards@[j].card == hands@[sig]@[cards_thrown@[sig] as int]
                },
    {
        let throws = match suspended_player {
            Some(sp) => *sp != p,
            None => true,
        };
        if throws {
            let card = hands[p as usize][cards_thrown[p as usize]];
            cards.push(SignedCard { card, player_signature: p });
            proof {
                let j = cards@.len() - 1;
                assert(arr[j] == p);
            }
        }
    }
    proof {
        assert(signatures(cards@) =~= arr);
    }
    cards
}

/// One round's bookkeeping once the cards are in: score the round, merge
/// the earned points into the scoreboard by addition, take one from every
/// non-suspended player's available-cards count, suspend the round's
/// slowest player for the next round (rustic rounds only), and step the
/// round counter.
#[verifier::loop_isolation(false)]
pub fn apply_round(state: &mut GameState, cards: Vec<SignedCard>, normal: bool)
    requires
        old(state).wf(),
        old(state).round < 0x7fff_ffff,
        signatures(cards@) == arrival_signatures(
            old(state).players as int,
            old(state).suspended_player,
        ),
        forall|p: i32|
            old(state).available_cards_by_user@.dom().contains(p)
                ==> #[trigger] old(state).available_cards_by_user@[p] >= 1,
    ensures
        final(state).wf(),
        final(state).players == old(state).players,
        final(state).deck_size == old(state).deck_size,
        final(state).round == old(state).round + 1,
        final(state).suspended_player == hand_outcome_model(cards@, normal).slowest_player,
        final(state).points_by_user@.dom() == old(state).points_by_user@.dom(),
        forall|p: i32|
            final(state).points_by_user@.dom().contains(p)
                ==> #[trigger] final(state).points_by_user@[p] as int
                == old(state).points_by_user@[p] + (if players_present(cards@).contains(p) {
                base_points(p, cards@, normal)
            } else {
                0int
            }),
        final(state).available_cards_by_user@.dom() == old(state).available_cards_by_user@.dom(),
        forall|p: i32|
            final(state).available_cards_by_user@.dom().contains(p)
                ==> #[trigger] final(state).available_cards_by_user@[p] as int
                == old(state).available_cards_by_user@[p] - (if old(state).suspended_player
                == Some(p) {
                0int
            } else {
                1int
            }),
{
    let ghost s = cards@;
    let ghost old_points = state.points_by_user@;
    let ghost old_avail = state.available_cards_by_user@;
    let players = state.players;
    let suspended_player = state.suspended_player;
    proof {
        lemma_arrival_properties(players as int, suspended_player);
        lemma_deck_size_bounds(players as int);
        assert(distinct_signatures(s));
        lemma_winner_count_positive(s);
        assert forall|p: i32| -5 <= #[trigger] base_points(p, s, normal) <= 11 by {
            lemma_base_points_bounds(p, s, normal);
        }
    }
    let hand_outcome = determine_hand_outcome(cards, normal);
    let mut scoreboard: HashMap<i32, i32> = HashMap::new();
    core::mem::swap(&mut scoreboard, &mut state.points_by_user);
    let merged = merge_points_hashmaps(scoreboard, hand_outcome.earned_points);
    state.points_by_user = merged;
    proof {
        assert(state.points_by_user@.dom() =~= old_points.dom());
    }
    let ghost points_after_merge = state.points_by_user@;
    let ghost round_before = state.round;
    let mut p: i32 = 0;
    while p < players
        invariant
            0 <= p <= players,
            state.players == players,
            state.deck_size == old(state).deck_size,
            state.round == round_before,
            state.suspended_player == suspended_player,
            state.points_by_user@ == points_after_merge,
            state.available_cards_by_user@.dom() == old_avail.dom(),
            forall|q: i32|
                state.available_cards_by_user@.dom().contains(q) && q < p && Some(q)
                    != suspended_player ==> #[trigger] state.available_cards_by_user@[q] as int
                    == old_avail[q] - 1,
            forall|q: i32|
                state.available_cards_by_user@.dom().contains(q) && (q >= p || Some(q)
                    == suspended_player) ==> #[trigger] state.available_cards_by_user@[q]
                    == old_avail[q],
        decreases players - p,
    {
        let skip = match suspended_player {
            Some(sp) => sp == p,
            None => false,
        };
        if !skip {
            let current = match state.available_cards_by_user.get(&p) {
                Some(cards_left) => *cards_left,
                None => 1,
            };
            state.available_cards_by_user.insert(p, current - 1);
            proof {
                assert(state.available_cards_by_user@.dom() =~= old_avail.dom());
            }
        }
        p = p + 1;
    }
    state.suspended_player = hand_outcome.slowest_player;
    state.round = state.round + 1;
    proof {
        assert forall|q: i32| state.points_by_user@.dom().contains(q) implies #[trigger] state.points_by_user@[q] as int
            == old_points[q] + (if players_present(s).contains(q) {
            base_points(q, s, normal)
        } else {
            0int
        }) by {
            assert(int_view(state.points_by_user@)[q] == value_or_zero(int_view(old_points), q)
                + value_or_zero(int_view(hand_outcome_model(s, normal).earned_points), q));
        }
    }
}

/// One zeroed counter per player.
#[verifier::loop_isolation(false)]
fn zero_counters(players: i32) -> (counters: Vec<usize>)
    requires
        players >= 0,
    ensures
        counters@.len() == players,
        forall|p: int| 0 <= p < players ==> #[trigger] counters@[p] == 0,
{
    let mut counters: Vec<usize> = Vec::new();
    for i in iter: 0..players
        invariant
            counters@.len() == i,
            forall|p: int| 0 <= p < i ==> #[trigger] counters@[p] == 0,
    {
        counters.push(0);
    }
    counters
}

/// Plays a whole game on the serialized schedule the signalling protocol
/// guarantees: deal from `hands`, then rounds of the types `round_types`
/// prescribes until some player runs out of cards. Player 0 is never the
/// slowest, so its hand shrinks by one every round and the game ends after
/// exactly `52 / players` rounds. Returns the final state together with,
/// per player, how many cards it sent and how many rounds it sat out
/// suspended: every player sends one card per round it was not suspended,
/// so the two always sum to the number of rounds played.
#[verifier::loop_isolation(false)]
pub fn run_game(players: i32, hands: &Vec<Vec<Card>>, round_types: &Vec<bool>) -> (outcome: (
    GameState,
    Vec<usize>,
    Vec<usize>,
))
    requires
        players >= 4,
        players % 2 == 0,
        hands@.len() == players,
        forall|p: int| 0 <= p < players ==> #[trigger] hands@[p]@.len() >= 52int / players as int,
        round_types@.len() >= 52int / players as int,
    ensures
        outcome.0.wf(),
        outcome.0.players == players,
        outcome.0.round as int == 52int / players as int + 1,
        outcome.0.available_cards_by_user@[0i32] == 0,
        outcome.1@.len() == players,
        outcome.2@.len() == players,
        forall|p: int|
            0 <= p < players ==> #[trigger] outcome.1@[p] as int + outcome.2@[p] as int == 52int
                / players as int,
        forall|p: int|
            0 <= p < players ==> #[trigger] outcome.1@[p] as int == outcome.0.deck_size
                - outcome.0.available_cards_by_user@[p as i32],
{
    let mut state = new_game(players);
    let deck_size = state.deck_size;
    let mut cards_sent = zero_counters(players);
    let mut rounds_suspended = zero_counters(players);
    proof {
        lemma_deck_size_bounds(players as int);
    }
    while keep_playing(&state.available_cards_by_user)
        invariant
            state.wf(),
            state.players == players,
            state.deck_size == deck_size,
            state.suspended_player != Some(0i32),
            cards_sent@.len() == players,
            rounds_suspended@.len() == players,
            forall|p: int|
                0 <= p < players ==> #[trigger] cards_sent@[p] as int == deck_size
                    - state.available_cards_by_user@[p as i32],
            forall|p: int|
                0 <= p < players ==> #[trigger] cards_sent@[p] as int
                    + rounds_suspended@[p] as int == state.round - 1,
            rounds_suspended@[0] == 0,
        decreases state.available_cards_by_user@[0i32],
    {
        proof {
            assert(state.available_cards_by_user@.dom().contains(0i32));
            assert(state.available_cards_by_user@[0i32] != 0);
            assert(cards_sent@[0] as int == deck_size - state.available_cards_by_user@[0i32]);
            assert(cards_sent@[0] as int + rounds_suspended@[0] as int == state.round - 1);
        }
        let round_index = (state.round - 1) as usize;
        let normal = round_types[round_index];
        let suspended_player = state.suspended_player;
        let ghost avail_before = state.available_cards_by_user@;
        let ghost round_before = state.round;
        let ghost sent_before = cards_sent@;
        let ghost susp_before = rounds_suspended@;
        proof {
            lemma_arrival_properties(players as int, suspended_player);
            assert forall|p: int|
                0 <= p < players && Some(p as i32) != suspended_player implies #[trigger] cards_sent@[p]
                < hands@[p]@.len() by {
                assert(state.available_cards_by_user@.dom().contains(p as i32));
            }
            assert forall|q: int| 0 <= q < players implies #[trigger] sent_before[q] as int
                == deck_size - avail_before[q as i32] && sent_before[q] as int
                + susp_before[q] as int == round_before - 1 && 0 <= avail_before[q as i32]
                <= deck_size by {
                assert(avail_before.dom().contains(q as i32));
            }
            assert(susp_before[0] == 0 && deck_size <= 13 && round_before - 1 == sent_before[0]);
        }
        let cards = collect_round_cards(players, &suspended_player, hands, &cards_sent);
        apply_round(&mut state, cards, normal);
        proof {
            let arr = arrival_signatures(players as int, suspended_player);
            assert(signatures(cards@).last() == arr.last());
            assert(state.suspended_player != Some(0i32));
        }
        let mut p: i32 = 0;
        while p < players
            invariant
                0 <= p <= players,
                cards_sent@.len() == players,
                rounds_suspended@.len() == players,
                forall|q: int| p <= q < players ==> #[trigger] cards_sent@[q] == sent_before[q],
                forall|q: int|
                    p <= q < players ==> #[trigger] rounds_suspended@[q] == susp_before[q],
                forall|q: int|
                    0 <= q < p && Some(q as i32) == suspended_player ==> #[trigger] cards_sent@[q]
                        == sent_before[q],
                forall|q: int|
                    0 <= q < p && Some(q as i32) == suspended_player
                        ==> #[trigger] rounds_suspended@[q] as int == susp_before[q] + 1,
                forall|q: int|
                    0 <= q < p && Some(q as i32) != suspended_player
                        ==> #[trigger] cards_sent@[q] as int == sent_before[q] + 1,
                forall|q: int|
                    0 <= q < p && Some(q as i32) != suspended_player
                        ==> #[trigger] rounds_suspended@[q] == susp_before[q],
            decreases players - p,
        {
            proof {
                assert(sent_before[p as int] as int == deck_size - avail_before[p]);
                assert(susp_before[p as int] as int == round_before - 1 - sent_before[p as int]);
                assert(cards_sent@[p as int] == sent_before[p as int]);
                assert(rounds_suspended@[p as int] == susp_before[p as int]);
            }
            let is_suspended = match suspended_player {
                Some(sp) => sp == p,
                None => false,
            };
            if is_suspended {
                let taken = rounds_suspended[p as usize];
                rounds_suspended[p as usize] = taken + 1;
            } else {
                let taken = cards_sent[p as usize];
                cards_sent[p as usize] = taken + 1;
            }
            p = p + 1;
        }
        proof {
            assert(cards_sent@[0] as int == sent_before[0] + 1);
            assert(rounds_suspended@[0] == susp_before[0]);
        }
    }
    proof {
        let stopped = choose|q: i32|
            state.available_cards_by_user@.dom().contains(q)
                && #[trigger] state.available_cards_by_user@[q] == 0;
        assert(state.available_cards_by_user@.dom().contains(stopped));
        assert(cards_sent@[stopped as int] as int == deck_size);
        assert(state.round - 1 >= deck_size);
        assert(cards_sent@[0] as int == deck_size - state.available_cards_by_user@[0i32]);
        assert(state.round - 1 == deck_size && state.available_cards_by_user@[0i32] == 0);
    }
    (state, cards_sent, rounds_suspended)
}

} // verus!
