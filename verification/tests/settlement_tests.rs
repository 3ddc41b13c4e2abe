use aces_unknown::evaluator::HandRank;
use aces_unknown::pot::PlayerPubkey;
use aces_unknown::pot::calculate_payouts;

fn pubkeys() -> [PlayerPubkey; 6] {
    let mut keys = [PlayerPubkey { bytes: [0u8; 32] }; 6];
    for (i, key) in keys.iter_mut().enumerate() {
        key.bytes[0] = i as u8 + 1;
    }
    keys
}

fn amounts(results: [aces_unknown::pot::WinnerInfo; 6]) -> [u64; 6] {
    let mut out = [0u64; 6];
    for i in 0..6 {
        out[i] = results[i].amount_won;
    }
    out
}

const NO_HAND: HandRank = HandRank::NoHand;

#[test]
fn side_pots_three_all_ins() {
    // Bets 100, 200, 300, all active; the shortest stack holds the
    // best hand, the middle stack the second best, the deepest the
    // worst.  Main pot 300 to seat 0, side pot 200 to seat 1, the
    // uncontested 100 back to seat 2; every chip is accounted for.
    let bets = [100, 200, 300, 0, 0, 0];
    let ranks = [
        HandRank::FourOfAKind { quad_rank: 9, kicker_rank: 3 },
        HandRank::Flush { ranks: [12, 10, 8, 6, 4] },
        HandRank::OnePair { pair_rank: 5, kickers: [12, 9, 7] },
        NO_HAND,
        NO_HAND,
        NO_HAND,
    ];
    let active = [true, true, true, false, false, false];
    let results = calculate_payouts(bets, ranks, active, pubkeys());
    assert_eq!(amounts(results), [300, 200, 100, 0, 0, 0]);
    let total: u64 = amounts(results).iter().sum();
    let bet_total: u64 = bets.iter().sum();
    assert_eq!(total, bet_total);
}

#[test]
fn folded_bet_stays_in_the_pot() {
    // Seat 1 folded after betting 100: its chips are dead money, won
    // by the showdown winner; the folded seat itself gets nothing,
    // even though it held the strongest hand.
    let bets = [100, 100, 100, 0, 0, 0];
    let ranks = [
        HandRank::OnePair { pair_rank: 9, kickers: [12, 8, 5] },
        HandRank::StraightFlush { high_card_rank: 12 },
        HandRank::HighCard { ranks: [12, 10, 8, 6, 4] },
        NO_HAND,
        NO_HAND,
        NO_HAND,
    ];
    let active = [true, false, true, false, false, false];
    let results = calculate_payouts(bets, ranks, active, pubkeys());
    assert_eq!(amounts(results), [300, 0, 0, 0, 0, 0]);
}

#[test]
fn tie_splits_pot_of_101_with_remainder_to_lowest_seat() {
    // Two seats tie with identical hands over a total pot of 101:
    // each side of the even layer pays 50 apiece, and the one
    // leftover unit goes to the lowest-numbered entitled seat, so
    // exactly 101 units are paid out.
    let tied = HandRank::TwoPair { high_pair_rank: 11, low_pair_rank: 4, kicker_rank: 9 };
    let bets = [51, 50, 0, 0, 0, 0];
    let ranks = [tied, tied, NO_HAND, NO_HAND, NO_HAND, NO_HAND];
    let active = [true, true, false, false, false, false];
    let results = calculate_payouts(bets, ranks, active, pubkeys());
    assert_eq!(amounts(results), [51, 50, 0, 0, 0, 0]);
    let total: u64 = amounts(results).iter().sum();
    assert_eq!(total, 101);
}

#[test]
fn tie_split_remainder_within_one_tier() {
    // Three seats fund one 21-unit tier; two tied winners split it
    // 10 apiece and the leftover unit goes to the lower seat index.
    let tied = HandRank::Straight { high_card_rank: 7 };
    let bets = [7, 7, 7, 0, 0, 0];
    let ranks = [
        tied,
        tied,
        HandRank::HighCard { ranks: [12, 10, 8, 6, 4] },
        NO_HAND,
        NO_HAND,
        NO_HAND,
    ];
    let active = [true, true, true, false, false, false];
    let results = calculate_payouts(bets, ranks, active, pubkeys());
    assert_eq!(amounts(results), [11, 10, 0, 0, 0, 0]);
}

#[test]
fn kickers_decide_otherwise_equal_hands() {
    let bets = [40, 40, 0, 0, 0, 0];
    let ranks = [
        HandRank::OnePair { pair_rank: 9, kickers: [12, 7, 5] },
        HandRank::OnePair { pair_rank: 9, kickers: [12, 7, 4] },
        NO_HAND,
        NO_HAND,
        NO_HAND,
        NO_HAND,
    ];
    let active = [true, true, false, false, false, false];
    let results = calculate_payouts(bets, ranks, active, pubkeys());
    assert_eq!(amounts(results), [80, 0, 0, 0, 0, 0]);
}

#[test]
fn output_preserves_seat_order_and_identity() {
    let bets = [10, 20, 0, 5, 0, 0];
    let ranks = [
        HandRank::HighCard { ranks: [12, 10, 8, 6, 4] },
        HandRank::OnePair { pair_rank: 2, kickers: [12, 9, 7] },
        NO_HAND,
        HandRank::HighCard { ranks: [11, 10, 8, 6, 4] },
        NO_HAND,
        NO_HAND,
    ];
    let active = [true, true, false, true, false, false];
    let keys = pubkeys();
    let results = calculate_payouts(bets, ranks, active, keys);
    for i in 0..6 {
        assert_eq!(results[i].player_pubkey, keys[i]);
    }
    // Levels 5, 10, 20: seat 1 wins the tiers it funded; seat 3's
    // 5-unit layer is funded by all three bettors.
    assert_eq!(amounts(results), [0, 35, 0, 0, 0, 0]);
}
