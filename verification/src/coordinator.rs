//! Per-round scoring: the hand evaluator and the points maps.
//!
//! The evaluator receives the cards of one round in arrival order and turns
//! them into a `HandOutcome`: the points each player earned, the max-card
//! winners, and (in rustic rounds) the fastest and slowest player. Its whole
//! result is pinned down by `hand_outcome_model`, a function of the arrival
//! order and the round type alone.

use vstd::prelude::*;
use vstd::std_specs::hash::spec_hash_map_iter;
use vstd::std_specs::iter::IteratorSpec;
use std::collections::HashMap;

use crate::signed_card::SignedCard;

verus! {

/// Points awarded to the player whose card arrived first in a rustic round.
pub const POINTS_FASTER_PLAYER: i32 = 1;

/// Points awarded (a penalty) to the player whose card arrived last in a
/// rustic round.
pub const POINTS_SLOWER_PLAYER: i32 = -5;

/// Points split evenly, remainder discarded, among the players who threw a
/// card of the round's highest number.
pub const POINTS_MAX_CARD: i32 = 10;

/// The signatures of a round's cards, in arrival order.
pub open spec fn signatures(s: Seq<SignedCard>) -> Seq<i32> {
    s.map_values(|sc: SignedCard| sc.player_signature)
}

/// Whether no player signed two cards of the round.
pub open spec fn distinct_signatures(s: Seq<SignedCard>) -> bool {
    signatures(s).no_duplicates()
}

/// The set of players with a card in the round.
pub open spec fn players_present(s: Seq<SignedCard>) -> Set<i32> {
    signatures(s).to_set()
}

/// The highest card number of the round.
pub open spec fn max_card_number(s: Seq<SignedCard>) -> int
    recommends
        s.len() >= 1,
    decreases s.len(),
{
    if s.len() <= 1 {
        s[0].card.number as int
    } else {
        let rest = max_card_number(s.drop_last());
        if s.last().card.number as int > rest {
            s.last().card.number as int
        } else {
            rest
        }
    }
}

/// The signatures of the cards whose number equals `top`, in reverse
/// arrival order (the order the evaluator reports the max-card winners in).
pub open spec fn winners_reversed_from(s: Seq<SignedCard>, top: int) -> Seq<i32>
    decreases s.len(),
{
    if s.len() == 0 {
        Seq::empty()
    } else {
        winners_reversed_from(s.drop_first(), top) + (if s.first().card.number as int == top {
            seq![s.first().player_signature]
        } else {
            Seq::empty()
        })
    }
}

/// The max-card winners of the round, in reverse arrival order.
pub open spec fn players_with_max_card_seq(s: Seq<SignedCard>) -> Seq<i32> {
    winners_reversed_from(s, max_card_number(s))
}

/// How many cards of the round carry the highest number; with distinct
/// signatures, the number of max-card winners.
pub open spec fn winner_count(s: Seq<SignedCard>) -> int {
    players_with_max_card_seq(s).len() as int
}

/// The per-winner award: the max-card points split evenly, remainder lost.
pub open spec fn max_card_points_of(s: Seq<SignedCard>) -> int {
    POINTS_MAX_CARD as int / winner_count(s)
}

/// Whether player `p` threw one of the round's highest cards.
pub open spec fn is_winner(p: i32, s: Seq<SignedCard>) -> bool {
    players_with_max_card_seq(s).contains(p)
}

/// The points player `p` earns in the round: the max-card award if `p` won
/// it, plus, in rustic rounds, the fast bonus if `p`'s card arrived first
/// and the slow penalty if it arrived last.
pub open spec fn base_points(p: i32, s: Seq<SignedCard>, normal: bool) -> int {
    (if is_winner(p, s) {
        max_card_points_of(s)
    } else {
        0
    }) + (if normal {
        0
    } else {
        (if p == signatures(s).first() {
            POINTS_FASTER_PLAYER as int
        } else {
            0
        }) + (if p == signatures(s).last() {
            POINTS_SLOWER_PLAYER as int
        } else {
            0
        })
    })
}

/// The earned-points map of the round: one entry per player present.
pub open spec fn earned_points_map(s: Seq<SignedCard>, normal: bool) -> Map<i32, i32> {
    Map::new(|p: i32| players_present(s).contains(p), |p: i32| base_points(p, s, normal) as i32)
}

/// Everything one round's cards decide, as mathematical values.
#[verifier::ext_equal]
pub struct HandOutcomeModel {
    pub earned_points: Map<i32, i32>,
    pub max_card_points: i32,
    pub players_with_max_card: Seq<i32>,
    pub slowest_player: Option<i32>,
    pub fastest_player: Option<i32>,
}

/// The outcome the evaluator owes for the given arrival order and round
/// type: a function of these two arguments and nothing else.
pub open spec fn hand_outcome_model(s: Seq<SignedCard>, normal: bool) -> HandOutcomeModel {
    HandOutcomeModel {
        earned_points: earned_points_map(s, normal),
        max_card_points: max_card_points_of(s) as i32,
        players_with_max_card: players_with_max_card_seq(s),
        slowest_player: if normal {
            None
        } else {
            Some(signatures(s).last())
        },
        fastest_player: if normal {
            None
        } else {
            Some(signatures(s).first())
        },
    }
}

/// What one round's cards decide: the points each player earned, the
/// max-card winners and their per-winner award, and, in rustic rounds, the
/// fastest and slowest player.
pub struct HandOutcome {
    pub earned_points: HashMap<i32, i32>,
    pub max_card_points: i32,
    pub players_with_max_card: Vec<i32>,
    pub slowest_player: Option<i32>,
    pub fastest_player: Option<i32>,
}

impl View for HandOutcome {
    type V = HandOutcomeModel;

    open spec fn view(&self) -> HandOutcomeModel {
        HandOutcomeModel {
            earned_points: self.earned_points@,
            max_card_points: self.max_card_points,
            players_with_max_card: self.players_with_max_card@,
            slowest_player: self.slowest_player,
            fastest_player: self.fastest_player,
        }
    }
}

/// The highest number is attained by some card and bounds every card.
pub proof fn lemma_max_card_number_attained(s: Seq<SignedCard>)
    requires
        s.len() >= 1,
    ensures
        forall|i: int| 0 <= i < s.len() ==> #[trigger] s[i].card.number as int <= max_card_number(s),
        exists|i: int| 0 <= i < s.len() && #[trigger] s[i].card.number as int == max_card_number(s),
    decreases s.len(),
{
    if s.len() == 1 {
        assert(s[0].card.number as int == max_card_number(s));
    } else {
        lemma_max_card_number_attained(s.drop_last());
        let rest = max_card_number(s.drop_last());
        if s.last().card.number as int > rest {
            assert(s[s.len() - 1].card.number as int == max_card_number(s));
        } else {
            let i = choose|i: int|
                0 <= i < s.drop_last().len() && #[trigger] s.drop_last()[i].card.number as int
                    == rest;
            assert(s[i].card.number as int == max_card_number(s));
        }
        assert forall|i: int| 0 <= i < s.len() implies #[trigger] s[i].card.number as int
            <= max_card_number(s) by {
            if i < s.len() - 1 {
                assert(s.drop_last()[i] == s[i]);
            }
        }
    }
}

/// A signature stands among the winners for `top` exactly when one of its
/// cards carries the number `top`.
pub proof fn lemma_winners_contains(s: Seq<SignedCard>, top: int)
    ensures
        forall|p: i32|
            #[trigger] winners_reversed_from(s, top).contains(p) <==> exists|i: int|
                0 <= i < s.len() && #[trigger] s[i].player_signature == p && s[i].card.number as int
                    == top,
    decreases s.len(),
{
    if s.len() > 0 {
        lemma_winners_contains(s.drop_first(), top);
        assert forall|p: i32| #[trigger]
            winners_reversed_from(s, top).contains(p) implies exists|i: int|
            0 <= i < s.len() && #[trigger] s[i].player_signature == p && s[i].card.number as int
                == top by {
            if winners_reversed_from(s.drop_first(), top).contains(p) {
                let i = choose|i: int|
                    0 <= i < s.drop_first().len() && #[trigger] s.drop_first()[i].player_signature
                        == p && s.drop_first()[i].card.number as int == top;
                assert(s[i + 1].player_signature == p && s[i + 1].card.number as int == top);
            } else {
                assert(s[0].player_signature == p && s[0].card.number as int == top);
            }
        }
        assert forall|p: i32|
            (exists|i: int|
                0 <= i < s.len() && #[trigger] s[i].player_signature == p && s[i].card.number as int
                    == top) implies #[trigger] winners_reversed_from(s, top).contains(p) by {
            let i = choose|i: int|
                0 <= i < s.len() && #[trigger] s[i].player_signature == p && s[i].card.number as int
                    == top;
            if i == 0 {
                let w = winners_reversed_from(s, top);
                assert(w[w.len() - 1] == p);
            } else {
                assert(s.drop_first()[i - 1].player_signature == p && s.drop_first()[i
                    - 1].card.number as int == top);
                assert(winners_reversed_from(s.drop_first(), top).contains(p));
                let w0 = winners_reversed_from(s.drop_first(), top);
                let j = choose|j: int| 0 <= j < w0.len() && w0[j] == p;
                assert(winners_reversed_from(s, top)[j] == p);
            }
        }
    }
}

/// Peeling the first card off the scan: the winners of `s` past position
/// `i` are the winners past `i + 1` followed by `s[i]`'s contribution.
pub proof fn lemma_winners_step(s: Seq<SignedCard>, top: int, i: int)
    requires
        0 <= i < s.len(),
    ensures
        winners_reversed_from(s.subrange(i, s.len() as int), top) == winners_reversed_from(
            s.subrange(i + 1, s.len() as int),
            top,
        ) + (if s[i].card.number as int == top {
            seq![s[i].player_signature]
        } else {
            Seq::<i32>::empty()
        }),
{
    let sub = s.subrange(i, s.len() as int);
    assert(sub.drop_first() =~= s.subrange(i + 1, s.len() as int));
    assert(sub.first() == s[i]);
}

/// With at least one card, at least one card carries the highest number,
/// so the per-winner award divides by a positive count.
pub proof fn lemma_winner_count_positive(s: Seq<SignedCard>)
    requires
        s.len() >= 1,
    ensures
        1 <= winner_count(s) <= s.len(),
        0 <= max_card_points_of(s) <= POINTS_MAX_CARD,
    decreases s.len(),
{
    lemma_max_card_number_attained(s);
    lemma_winners_contains(s, max_card_number(s));
    let i = choose|i: int|
        0 <= i < s.len() && #[trigger] s[i].card.number as int == max_card_number(s);
    assert(players_with_max_card_seq(s).contains(s[i].player_signature));
    lemma_winners_len_le(s, max_card_number(s));
    let k = winner_count(s);
    assert(POINTS_MAX_CARD as int / k <= POINTS_MAX_CARD && POINTS_MAX_CARD as int / k >= 0)
        by (nonlinear_arith)
        requires
            1 <= k,
    ;
}

/// No player can take more than the full max-card award plus the fast
/// bonus out of one round, nor lose more than the slow penalty.
pub proof fn lemma_base_points_bounds(p: i32, s: Seq<SignedCard>, normal: bool)
    requires
        s.len() >= 1,
    ensures
        -5 <= base_points(p, s, normal) <= 11,
{
    lemma_winner_count_positive(s);
}

/// No scan reports more winners than it saw cards.
proof fn lemma_winners_len_le(s: Seq<SignedCard>, top: int)
    ensures
        winners_reversed_from(s, top).len() <= s.len(),
    decreases s.len(),
{
    if s.len() > 0 {
        lemma_winners_len_le(s.drop_first(), top);
    }
}

/// The points map that assigns `value` to every player id in `0..players`.
pub open spec fn player_points_map(players: int, value: i32) -> Map<i32, i32> {
    Map::new(|k: i32| 0 <= k < players, |k: i32| value)
}

/// Whether the map has exactly the player ids `0..players` as keys.
pub open spec fn player_keyed(m: Map<i32, i32>, players: int) -> bool {
    &&& 0 <= players <= 0x8000_0000
    &&& forall|k: i32| m.dom().contains(k) <==> 0 <= k < players
}

/// The set of player ids `0..players` has exactly `players` elements.
pub proof fn lemma_player_range_len(n: int)
    requires
        0 <= n <= 0x8000_0000,
    ensures
        Set::new(|k: i32| 0 <= k < n).finite(),
        Set::new(|k: i32| 0 <= k < n).len() == n,
    decreases n,
{
    if n == 0 {
        assert(Set::new(|k: i32| 0 <= k < n) =~= Set::<i32>::empty());
    } else {
        lemma_player_range_len(n - 1);
        assert(Set::new(|k: i32| 0 <= k < n) =~= Set::new(|k: i32| 0 <= k < n - 1).insert(
            (n - 1) as i32,
        ));
    }
}

/// A map keyed by the player ids `0..players` has `players` entries.
pub proof fn lemma_player_keyed_len(m: Map<i32, i32>, players: int)
    requires
        player_keyed(m, players),
    ensures
        m.dom().finite(),
        m.dom().len() == players,
{
    lemma_player_range_len(players);
    assert(m.dom() =~= Set::new(|k: i32| 0 <= k < players));
}

/// A points map holding the same fixed value for every player id in
/// `0..players`; used to start the scoreboard at zero and the per-player
/// card counts at the deck size.
pub fn player_fixed_values_map(players: i32, value: i32) -> (points_by_user: HashMap<i32, i32>)
    requires
        players >= 0,
    ensures
        points_by_user@ == player_points_map(players as int, value),
{
    let mut points_by_user: HashMap<i32, i32> = HashMap::new();
    assert(points_by_user@ =~= player_points_map(0, value));
    for p in iter: 0..players
        invariant
            points_by_user@ == player_points_map(p as int, value),
    {
        points_by_user.insert(p, value);
        assert(points_by_user@ =~= player_points_map(p as int + 1, value));
    }
    points_by_user
}

/// Whether every player still holds cards: the round loop goes on exactly
/// while no player's available-cards count has reached zero.
#[verifier::loop_isolation(false)]
pub fn keep_playing(available_cards_by_user: &HashMap<i32, i32>) -> (go_on: bool)
    requires
        exists|players: int| #[trigger] player_keyed(available_cards_by_user@, players),
    ensures
        go_on <==> forall|p: i32|
            available_cards_by_user@.dom().contains(p) ==> #[trigger] available_cards_by_user@[p]
                != 0,
{
    let ghost players = choose|players: int| player_keyed(available_cards_by_user@, players);
    proof {
        lemma_player_keyed_len(available_cards_by_user@, players);
    }
    let n = available_cards_by_user.len();
    let mut i: usize = 0;
    while i < n
        invariant
            i <= n,
            forall|p: i32| 0 <= p < i ==> #[trigger] available_cards_by_user@[p] != 0,
        decreases n - i,
    {
        let key = i as i32;
        if let Some(cards) = available_cards_by_user.get(&key) {
            if *cards == 0 {
                return false;
            }
        }
        i = i + 1;
    }
    true
}

/// A points map reread as a map into mathematical integers.
pub open spec fn int_view(m: Map<i32, i32>) -> Map<i32, int> {
    Map::new(|k: i32| m.dom().contains(k), |k: i32| m[k] as int)
}

/// The points of player `k` in the map, a missing key counting as zero.
pub open spec fn value_or_zero(m: Map<i32, int>, k: i32) -> int {
    if m.dom().contains(k) {
        m[k]
    } else {
        0
    }
}

/// Two point maps merged by addition: the union of the key sets, each key
/// mapped to the sum of its points in the two maps, a missing key counting
/// as zero.
pub open spec fn merge_point_maps(a: Map<i32, int>, b: Map<i32, int>) -> Map<i32, int> {
    Map::new(
        |k: i32| a.dom().contains(k) || b.dom().contains(k),
        |k: i32| value_or_zero(a, k) + value_or_zero(b, k),
    )
}

/// Merging point maps is commutative.
pub proof fn lemma_merge_commutative(a: Map<i32, int>, b: Map<i32, int>)
    ensures
        merge_point_maps(a, b) == merge_point_maps(b, a),
{
    assert(merge_point_maps(a, b) =~= merge_point_maps(b, a));
}

/// Merging point maps is associative.
pub proof fn lemma_merge_associative(a: Map<i32, int>, b: Map<i32, int>, c: Map<i32, int>)
    ensures
        merge_point_maps(merge_point_maps(a, b), c) == merge_point_maps(
            a,
            merge_point_maps(b, c),
        ),
{
    assert(merge_point_maps(merge_point_maps(a, b), c) =~= merge_point_maps(
        a,
        merge_point_maps(b, c),
    ));
}

/// Merges two points maps by addition, as `merge_point_maps` describes:
/// the result is keyed by the union of the two key sets, and a key missing
/// from one map contributes zero points.
#[verifier::loop_isolation(false)]
pub fn merge_points_hashmaps(map1: HashMap<i32, i32>, map2: HashMap<i32, i32>) -> (merged: HashMap<
    i32,
    i32,
>)
    requires
        forall|k: i32|
            map1@.dom().contains(k) && map2@.dom().contains(k) ==> i32::MIN <= #[trigger] map1@[k]
                + map2@[k] <= i32::MAX,
    ensures
        int_view(merged@) == merge_point_maps(int_view(map1@), int_view(map2@)),
        merged@.dom() == map1@.dom().union(map2@.dom()),
{
    let mut merged: HashMap<i32, i32> = HashMap::new();
    for kv in it: map1.iter()
        invariant
            forall|k: i32|
                #[trigger] merged@.dom().contains(k) <==> exists|i: int|
                    0 <= i < it.index() && *(#[trigger] it.seq()[i]).0 == k,
            forall|k: i32|
                #[trigger] merged@.dom().contains(k) ==> map1@.dom().contains(k)
                    && merged@[k] as int == value_or_zero(int_view(map1@), k) + value_or_zero(
                    int_view(map2@),
                    k,
                ),
    {
        let (k, points1) = kv;
        proof {
            let v = spec_hash_map_iter(&map1).remaining();
            assert(it.seq() == v);
            assert(kv == v[it.index()]);
            assert(map1@.contains_key(*k) && map1@[*k] == *points1);
        }
        let total = match map2.get(k) {
            Some(points2) => *points1 + *points2,
            None => *points1,
        };
        merged.insert(*k, total);
    }
    assert(forall|k: i32|
        map1@.dom().contains(k) ==> #[trigger] merged@.dom().contains(k)) by {
        assert forall|k: i32| map1@.dom().contains(k) implies #[trigger] merged@.dom().contains(
            k,
        ) by {
            let v = spec_hash_map_iter(&map1).remaining();
            assert(v.contains((&k, &map1@[k])));
            let i = choose|i: int| 0 <= i < v.len() && v[i] == (&k, &map1@[k]);
            assert(*(v[i]).0 == k);
        }
    }
    for kv in it2: map2.iter()
        invariant
            forall|k: i32|
                #[trigger] merged@.dom().contains(k) <==> map1@.dom().contains(k) || (exists|i: int|
                    0 <= i < it2.index() && *(#[trigger] it2.seq()[i]).0 == k),
            forall|k: i32|
                #[trigger] merged@.dom().contains(k) ==> merged@[k] as int == value_or_zero(
                    int_view(map1@),
                    k,
                ) + value_or_zero(int_view(map2@), k),
    {
        let (k, points2) = kv;
        if !map1.contains_key(k) {
            merged.insert(*k, *points2);
        } else {
            proof {
                assert(merged@.dom().contains(*k));
            }
        }
    }
    proof {
        assert forall|k: i32|
            map2@.dom().contains(k) implies #[trigger] merged@.dom().contains(k) by {
            let v = spec_hash_map_iter(&map2).remaining();
            assert(v.contains((&k, &map2@[k])));
            let i = choose|i: int| 0 <= i < v.len() && v[i] == (&k, &map2@[k]);
            assert(*(v[i]).0 == k);
        }
        assert(merged@.dom() =~= map1@.dom().union(map2@.dom()));
        assert(int_view(merged@) =~= merge_point_maps(int_view(map1@), int_view(map2@)));
    }
    merged
}

/// The highest card number of the round, by one forward scan.
#[verifier::loop_isolation(false)]
fn highest_card_number(signed_cards: &Vec<SignedCard>) -> (top: i32)
    requires
        signed_cards@.len() >= 1,
    ensures
        top as int == max_card_number(signed_cards@),
{
    let mut top = signed_cards[0].card.number;
    assert(signed_cards@.subrange(0, 1)[0] == signed_cards@[0]);
    for j in iter: 1..signed_cards.len()
        invariant
            top as int == max_card_number(signed_cards@.subrange(0, j as int)),
    {
        proof {
            let prefix = signed_cards@.subrange(0, j as int + 1);
            assert(prefix.drop_last() =~= signed_cards@.subrange(0, j as int));
            assert(prefix.last() == signed_cards@[j as int]);
        }
        if signed_cards[j].card.number > top {
            top = signed_cards[j].card.number;
        }
    }
    proof {
        assert(signed_cards@.subrange(0, signed_cards@.len() as int) =~= signed_cards@);
    }
    top
}

/// The signatures of the cards whose number equals `top`, collected by the
/// reverse scan that stops at index 0.
#[verifier::loop_isolation(false)]
fn collect_max_card_players(signed_cards: &Vec<SignedCard>, top: i32) -> (winners: Vec<i32>)
    ensures
        winners@ == winners_reversed_from(signed_cards@, top as int),
{
    let len = signed_cards.len();
    let mut winners: Vec<i32> = Vec::new();
    let mut i = len;
    assert(signed_cards@.subrange(len as int, len as int) =~= Seq::<SignedCard>::empty());
    while i > 0
        invariant
            i <= len,
            winners@ == winners_reversed_from(
                signed_cards@.subrange(i as int, len as int),
                top as int,
            ),
        decreases i,
    {
        i = i - 1;
        if signed_cards[i].card.number == top {
            winners.push(signed_cards[i].player_signature);
        }
        proof {
            lemma_winners_step(signed_cards@, top as int, i as int);
        }
    }
    proof {
        assert(signed_cards@.subrange(0, len as int) =~= signed_cards@);
    }
    winners
}

/// Scores a normal round: every player present starts at zero and each
/// max-card winner earns the evenly split, remainder-discarded award.
#[verifier::loop_isolation(false)]
pub fn calculate_normal_hand_points(signed_cards: Vec<SignedCard>) -> (hand_outcome: HandOutcome)
    requires
        1 <= signed_cards@.len() <= 0x7fff_ffff,
        distinct_signatures(signed_cards@),
    ensures
        hand_outcome@ == hand_outcome_model(signed_cards@, true),
{
    let ghost s = signed_cards@;
    let top = highest_card_number(&signed_cards);
    let players_with_max_card = collect_max_card_players(&signed_cards, top);
    proof {
        lemma_winner_count_positive(s);
        lemma_winners_contains(s, top as int);
    }
    let k = players_with_max_card.len() as i32;
    let max_card_points = POINTS_MAX_CARD / k;
    let mut earned_points: HashMap<i32, i32> = HashMap::new();
    let mut j: usize = 0;
    while j < signed_cards.len()
        invariant
            j <= s.len(),
            forall|p: i32|
                #[trigger] earned_points@.dom().contains(p) <==> exists|jj: int|
                    0 <= jj < j && #[trigger] s[jj].player_signature == p,
            forall|p: i32|
                earned_points@.dom().contains(p) ==> #[trigger] earned_points@[p] == (if is_winner(
                    p,
                    s,
                ) {
                    max_card_points
                } else {
                    0
                }),
        decreases s.len() - j,
    {
        let sc = signed_cards[j];
        proof {
            if sc.card.number == top {
                assert(is_winner(sc.player_signature, s));
            } else if is_winner(sc.player_signature, s) {
                let i = choose|i: int|
                    0 <= i < s.len() && #[trigger] s[i].player_signature == sc.player_signature
                        && s[i].card.number as int == top as int;
                assert(signatures(s)[i] == signatures(s)[j as int]);
                assert(i == j);
            }
        }
        let pts = if sc.card.number == top {
            max_card_points
        } else {
            0
        };
        earned_points.insert(sc.player_signature, pts);
        j = j + 1;
    }
    proof {
        assert forall|p: i32| #[trigger]
            earned_points@.dom().contains(p) <==> players_present(s).contains(p) by {
            if earned_points@.dom().contains(p) {
                let jj = choose|jj: int| 0 <= jj < j && #[trigger] s[jj].player_signature == p;
                assert(signatures(s)[jj] == p);
                assert(signatures(s).contains(p));
            }
            if players_present(s).contains(p) {
                assert(signatures(s).contains(p));
                let i = choose|i: int| 0 <= i < signatures(s).len() && signatures(s)[i] == p;
                assert(s[i].player_signature == p);
            }
        }
        assert(earned_points@ =~= earned_points_map(s, true));
    }
    let hand_outcome = HandOutcome {
        earned_points,
        max_card_points,
        players_with_max_card,
        slowest_player: None,
        fastest_player: None,
    };
    proof {
        assert(hand_outcome@ =~~= hand_outcome_model(s, true));
    }
    hand_outcome
}

/// Scores a rustic round: the normal scoring, plus the fast bonus for the
/// first card to arrive and the slow penalty for the last, whose players
/// the outcome also reports.
pub fn calculate_rustic_hand_points(signed_cards: Vec<SignedCard>) -> (hand_outcome: HandOutcome)
    requires
        1 <= signed_cards@.len() <= 0x7fff_ffff,
        distinct_signatures(signed_cards@),
    ensures
        hand_outcome@ == hand_outcome_model(signed_cards@, false),
{
    let ghost s = signed_cards@;
    proof {
        lemma_winner_count_positive(s);
    }
    let fastest = signed_cards[0].player_signature;
    let slowest = signed_cards[signed_cards.len() - 1].player_signature;
    assert(fastest == signatures(s).first() && slowest == signatures(s).last());
    let mut hand_outcome = calculate_normal_hand_points(signed_cards);
    assert(players_present(s).contains(fastest) && players_present(s).contains(slowest)) by {
        assert(signatures(s)[0] == fastest && signatures(s)[s.len() - 1] == slowest);
    }
    let fast_current = match hand_outcome.earned_points.get(&fastest) {
        Some(points) => *points,
        None => 0,
    };
    hand_outcome.earned_points.insert(fastest, fast_current + POINTS_FASTER_PLAYER);
    let slow_current = match hand_outcome.earned_points.get(&slowest) {
        Some(points) => *points,
        None => 0,
    };
    hand_outcome.earned_points.insert(slowest, slow_current + POINTS_SLOWER_PLAYER);
    hand_outcome.fastest_player = Some(fastest);
    hand_outcome.slowest_player = Some(slowest);
    proof {
        assert(hand_outcome.earned_points@ =~= earned_points_map(s, false));
        assert(hand_outcome@ =~~= hand_outcome_model(s, false));
    }
    hand_outcome
}

/// Scores one round from its cards in arrival order: by the max-card rule
/// alone in a normal round, with the fast bonus and slow penalty added in a
/// rustic one. The outcome is a function of the arrival order and the
/// round type, and nothing else.
pub fn determine_hand_outcome(cards: Vec<SignedCard>, normal: bool) -> (hand_outcome: HandOutcome)
    requires
        1 <= cards@.len() <= 0x7fff_ffff,
        distinct_signatures(cards@),
    ensures
        hand_outcome@ == hand_outcome_model(cards@, normal),
{
    if normal {
        calculate_normal_hand_points(cards)
    } else {
        calculate_rustic_hand_points(cards)
    }
}

/// How many cards from position `i` on carry the number `top`.
pub open spec fn count_top_from(s: Seq<SignedCard>, top: int, i: int) -> int
    decreases s.len() - i,
{
    if i < 0 || i >= s.len() {
        0
    } else {
        (if s[i].card.number as int == top {
            1int
        } else {
            0int
        }) + count_top_from(s, top, i + 1)
    }
}

/// The earned points of the cards from position `i` on, summed in arrival
/// order.
pub open spec fn sum_base_points_from(s: Seq<SignedCard>, normal: bool, i: int) -> int
    decreases s.len() - i,
{
    if i < 0 || i >= s.len() {
        0
    } else {
        base_points(s[i].player_signature, s, normal) + sum_base_points_from(s, normal, i + 1)
    }
}

/// Everything the round's players earn, in total: the sum of the earned
/// points of the cards in arrival order. With distinct signatures the
/// cards enumerate the players present once each, so this is the sum of
/// the round's earned-points map.
pub open spec fn round_points_total(s: Seq<SignedCard>, normal: bool) -> int {
    sum_base_points_from(s, normal, 0)
}

/// The reverse scan past position `i` reports one winner per card with the
/// top number past position `i`.
proof fn lemma_count_top_matches_winners(s: Seq<SignedCard>, top: int, i: int)
    requires
        0 <= i <= s.len(),
    ensures
        winners_reversed_from(s.subrange(i, s.len() as int), top).len() == count_top_from(
            s,
            top,
            i,
        ),
    decreases s.len() - i,
{
    if i == s.len() {
        assert(s.subrange(i, s.len() as int) =~= Seq::<SignedCard>::empty());
    } else {
        lemma_count_top_matches_winners(s, top, i + 1);
        lemma_winners_step(s, top, i);
    }
}

/// Under distinct signatures a card's player is a max-card winner exactly
/// when that card carries the round's highest number.
proof fn lemma_winner_iff_top_card(s: Seq<SignedCard>, i: int)
    requires
        distinct_signatures(s),
        0 <= i < s.len(),
    ensures
        is_winner(s[i].player_signature, s) <==> s[i].card.number as int == max_card_number(s),
{
    let top = max_card_number(s);
    lemma_winners_contains(s, top);
    if s[i].card.number as int == top {
        assert(is_winner(s[i].player_signature, s));
    } else if is_winner(s[i].player_signature, s) {
        let j = choose|j: int|
            0 <= j < s.len() && #[trigger] s[j].player_signature == s[i].player_signature
                && s[j].card.number as int == top;
        assert(signatures(s)[j] == signatures(s)[i]);
        assert(j == i);
    }
}

/// The sum of the earned points of the cards from position `i` on: the
/// award times the number of top cards there, plus whatever of the rustic
/// bonus and penalty falls past position `i`.
proof fn lemma_sum_base_points_from(s: Seq<SignedCard>, normal: bool, i: int)
    requires
        s.len() >= 1,
        distinct_signatures(s),
        0 <= i <= s.len(),
    ensures
        sum_base_points_from(s, normal, i) == count_top_from(s, max_card_number(s), i)
            * max_card_points_of(s) + (if normal {
            0int
        } else {
            (if i == 0 {
                POINTS_FASTER_PLAYER as int
            } else {
                0int
            }) + (if i <= s.len() - 1 {
                POINTS_SLOWER_PLAYER as int
            } else {
                0int
            })
        }),
    decreases s.len() - i,
{
    let top = max_card_number(s);
    let award = max_card_points_of(s);
    if i == s.len() {
    } else {
        lemma_sum_base_points_from(s, normal, i + 1);
        lemma_winner_iff_top_card(s, i);
        assert(s[i].player_signature == signatures(s).first() <==> i == 0) by {
            assert(signatures(s)[i] == s[i].player_signature);
            if i != 0 && signatures(s)[i] == signatures(s)[0] {
                assert(false);
            }
        }
        assert(s[i].player_signature == signatures(s).last() <==> i == s.len() - 1) by {
            assert(signatures(s)[i] == s[i].player_signature);
            if i != s.len() - 1 && signatures(s)[i] == signatures(s)[s.len() - 1] {
                assert(false);
            }
        }
        let c = count_top_from(s, top, i + 1);
        assert((c + 1) * award == c * award + award) by (nonlinear_arith);
    }
}

/// The earned points of one round sum to `k · ⌊10/k⌋` for the `k` max-card
/// winners, plus, in a rustic round, the fast bonus and the slow penalty,
/// which together are `1 − 5 = −4`.
pub proof fn lemma_round_points_total(s: Seq<SignedCard>, normal: bool)
    requires
        s.len() >= 1,
        distinct_signatures(s),
    ensures
        round_points_total(s, normal) == winner_count(s) * max_card_points_of(s) + (if normal {
            0int
        } else {
            -4int
        }),
{
    lemma_sum_base_points_from(s, normal, 0);
    lemma_count_top_matches_winners(s, max_card_number(s), 0);
    assert(s.subrange(0, s.len() as int) =~= s);
}

/// In a rustic round exactly one fastest and one slowest player are
/// reported; when at least two cards were played they are distinct.
pub proof fn lemma_fastest_slowest_distinct(s: Seq<SignedCard>)
    requires
        s.len() >= 2,
        distinct_signatures(s),
    ensures
        hand_outcome_model(s, false).fastest_player == Some(signatures(s).first()),
        hand_outcome_model(s, false).slowest_player == Some(signatures(s).last()),
        hand_outcome_model(s, false).fastest_player != hand_outcome_model(s, false).slowest_player,
{
    assert(signatures(s)[0] != signatures(s)[s.len() - 1]);
}

/// When every card of the round carries the same number, every player
/// present is a max-card winner: the award divides by the number of cards
/// and the remainder is lost.
pub proof fn lemma_all_same_number(s: Seq<SignedCard>, n: int)
    requires
        s.len() >= 1,
        distinct_signatures(s),
        forall|i: int| 0 <= i < s.len() ==> #[trigger] s[i].card.number as int == n,
    ensures
        max_card_number(s) == n,
        winner_count(s) == s.len(),
        max_card_points_of(s) == POINTS_MAX_CARD as int / s.len() as int,
        forall|p: i32| players_present(s).contains(p) ==> is_winner(p, s),
{
    lemma_max_card_number_attained(s);
    assert(max_card_number(s) == n);
    lemma_count_top_matches_winners(s, n, 0);
    assert(s.subrange(0, s.len() as int) =~= s);
    assert forall|i: int| 0 <= i <= s.len() implies count_top_from(s, n, i) == s.len() - i by {
        lemma_count_top_all(s, n, i);
    }
    lemma_winners_contains(s, n);
    assert forall|p: i32| players_present(s).contains(p) implies is_winner(p, s) by {
        assert(signatures(s).contains(p));
        let i = choose|i: int| 0 <= i < signatures(s).len() && signatures(s)[i] == p;
        assert(s[i].player_signature == p && s[i].card.number as int == n);
    }
}

/// Counting top cards when every card is a top card.
proof fn lemma_count_top_all(s: Seq<SignedCard>, n: int, i: int)
    requires
        0 <= i <= s.len(),
        forall|j: int| 0 <= j < s.len() ==> #[trigger] s[j].card.number as int == n,
    ensures
        count_top_from(s, n, i) == s.len() - i,
    decreases s.len() - i,
{
    if i < s.len() {
        lemma_count_top_all(s, n, i + 1);
    }
}

/// Re-running the evaluator on the same arrival order and round type
/// yields the identical outcome: the outcome model is a function of these
/// two inputs alone.
pub proof fn lemma_hand_outcome_deterministic(
    s1: Seq<SignedCard>,
    s2: Seq<SignedCard>,
    normal1: bool,
    normal2: bool,
)
    requires
        s1 == s2,
        normal1 == normal2,
    ensures
        hand_outcome_model(s1, normal1) == hand_outcome_model(s2, normal2),
{
}

} // verus!
