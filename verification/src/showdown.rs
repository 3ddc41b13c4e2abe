//! Showdown orchestration: evaluate every active seat's best hand from
//! its two hole cards and the five community cards, then settle the
//! pot with full side-pot precision.

use vstd::prelude::*;
use crate::codec::Hand;
use crate::evaluator::HandRank;
use crate::evaluator::evaluate_7_cards;
use crate::evaluator::spec_evaluate;
use crate::evaluator::valid_seven;
use crate::pot::PlayerPubkey;
use crate::pot::WinnerInfo;
use crate::pot::calculate_payouts;
use crate::pot::keys_of;
use crate::pot::spec_payout;
use crate::pot::sum_bets;

verus! {

/// The seven cards an active seat shows down: its two packed hole
/// cards, then the five community cards.
pub open spec fn seven_cards_of(hand_packed: int, community: Seq<u8>) -> Seq<u8> {
    seq![(hand_packed % 64) as u8, ((hand_packed / 64) % 64) as u8] + community
}

/// The evaluated rank of seat `i`: its best five-card hand when it is
/// in the showdown, the empty placeholder when it is not.
pub open spec fn spec_rank_of_seat(
    hands: Seq<Hand>,
    community: Seq<u8>,
    active: Seq<bool>,
    i: int,
) -> HandRank {
    if active[i] {
        spec_evaluate(seven_cards_of(hands[i].cards_packed as int, community))
    } else {
        HandRank::NoHand
    }
}

/// The six seats' evaluated ranks.
pub open spec fn spec_ranks(hands: Seq<Hand>, community: Seq<u8>, active: Seq<bool>) -> Seq<
    HandRank,
> {
    Seq::new(6, |i: int| spec_rank_of_seat(hands, community, active, i))
}

/// Evaluates all active seats' hands against the community cards and
/// settles the pot.  Each active seat's decrypted hole cards together
/// with the five community cards must be seven distinct real cards;
/// the result carries, per seat, its identity and exactly the winnings
/// the tiered settlement owes it.
#[verifier::loop_isolation(false)]
pub fn evaluate_hands_and_payout(
    player_hands: &[Hand; 6],
    community_cards: &[u8; 5],
    player_bets: [u64; 6],
    active_players: [bool; 6],
    player_pubkeys: [PlayerPubkey; 6],
) -> (results: [WinnerInfo; 6])
    requires
        sum_bets(player_bets@) <= u64::MAX,
        forall|i: int|
            0 <= i < 6 && active_players@[i] ==> valid_seven(
                seven_cards_of(player_hands@[i].cards_packed as int, community_cards@),
            ),
    ensures
        forall|i: int|
            0 <= i < 6 ==> results[i].amount_won == spec_payout(
                player_bets@,
                keys_of(spec_ranks(player_hands@, community_cards@, active_players@)),
                active_players@,
                i,
            ),
        forall|i: int| 0 <= i < 6 ==> results[i].player_pubkey == player_pubkeys[i],
{
    let mut player_ranks = [HandRank::NoHand; 6];
    let mut i: usize = 0;
    while i < 6
        invariant
            i <= 6,
            forall|j: int|
                0 <= j < i ==> player_ranks@[j] == spec_rank_of_seat(
                    player_hands@,
                    community_cards@,
                    active_players@,
                    j,
                ),
            forall|j: int| i <= j < 6 ==> player_ranks@[j] == HandRank::NoHand,
        decreases 6 - i,
    {
        if active_players[i] {
            let hole_cards = player_hands[i].to_array();
            let mut seven_cards = [0u8; 7];
            seven_cards[0] = hole_cards[0];
            seven_cards[1] = hole_cards[1];
            let mut j: usize = 0;
            while j < 5
                invariant
                    j <= 5,
                    seven_cards@[0] == hole_cards@[0],
                    seven_cards@[1] == hole_cards@[1],
                    forall|k: int| 0 <= k < j ==> seven_cards@[k + 2] == community_cards@[k],
                decreases 5 - j,
            {
                seven_cards[j + 2] = community_cards[j];
                j = j + 1;
            }
            proof {
                assert(seven_cards@ =~= seven_cards_of(
                    player_hands@[i as int].cards_packed as int,
                    community_cards@,
                ));
            }
            player_ranks[i] = evaluate_7_cards(seven_cards);
        }
        i = i + 1;
    }
    proof {
        assert(player_ranks@ =~= spec_ranks(player_hands@, community_cards@, active_players@));
    }
    calculate_payouts(player_bets, player_ranks, active_players, player_pubkeys)
}

} // verus!
