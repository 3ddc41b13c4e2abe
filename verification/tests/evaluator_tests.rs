use aces_unknown::card::Card;
use aces_unknown::card::get_rank;
use aces_unknown::card::get_suit;
use aces_unknown::evaluator::HandRank;
use aces_unknown::evaluator::compare_hand_ranks;
use aces_unknown::evaluator::evaluate_7_cards;
use aces_unknown::evaluator::hand_rank_key;
use aces_unknown::evaluator::hand_rank_to_u8;

// Suits: 0 = Clubs, 1 = Diamonds, 2 = Hearts, 3 = Spades.
// Ranks: 0 = Two, 1 = Three, ..., 8 = Ten, 9 = Jack, 10 = Queen,
// 11 = King, 12 = Ace.
fn card(suit: u8, rank: u8) -> u8 {
    suit * 13 + rank
}

#[test]
fn rank_and_suit_extraction() {
    assert_eq!(get_rank(0), 0);
    assert_eq!(get_suit(0), 0);
    assert_eq!(get_rank(51), 12);
    assert_eq!(get_suit(51), 3);
    assert_eq!(get_rank(card(2, 11)), 11);
    assert_eq!(get_suit(card(2, 11)), 2);
    let c = Card::from_u8_index(40);
    assert_eq!(c.suit, 3);
    assert_eq!(c.rank, 1);
    assert_eq!(c.to_u8_index(), 40);
    let c2 = Card::from_index(27);
    assert_eq!(c2.suit, 2);
    assert_eq!(c2.rank, 1);
}

#[test]
fn fixture_full_house_twos_over_kings() {
    // {2s, 2h, 2d, 5c, 9s} + {Kd, Kh}
    let cards = [
        card(3, 0),
        card(2, 0),
        card(1, 0),
        card(0, 3),
        card(3, 7),
        card(1, 11),
        card(2, 11),
    ];
    assert_eq!(
        evaluate_7_cards(cards),
        HandRank::FullHouse { three_rank: 0, pair_rank: 11 }
    );
}

#[test]
fn fixture_royal_straight_flush() {
    // {As, Ks, Qs, Js, Ts} + {2d, 3c}
    let cards = [
        card(3, 12),
        card(3, 11),
        card(3, 10),
        card(3, 9),
        card(3, 8),
        card(1, 0),
        card(0, 1),
    ];
    assert_eq!(
        evaluate_7_cards(cards),
        HandRank::StraightFlush { high_card_rank: 12 }
    );
}

#[test]
fn fixture_wheel_straight_beats_pair_of_nines() {
    // {As, 2h, 3d, 4c, 5s} + {9d, 9c}: the wheel (high card Five,
    // rank 3) must win over the pair of nines.
    let cards = [
        card(3, 12),
        card(2, 0),
        card(1, 1),
        card(0, 2),
        card(3, 3),
        card(1, 7),
        card(0, 7),
    ];
    assert_eq!(
        evaluate_7_cards(cards),
        HandRank::Straight { high_card_rank: 3 }
    );
}

#[test]
fn four_of_a_kind_takes_highest_kicker() {
    // {9c, 9d, 9h, 9s} + {2c, Kd, 5h}: kicker is the King, the
    // highest remaining rank.
    let cards = [
        card(0, 7),
        card(1, 7),
        card(2, 7),
        card(3, 7),
        card(0, 0),
        card(1, 11),
        card(2, 3),
    ];
    assert_eq!(
        evaluate_7_cards(cards),
        HandRank::FourOfAKind { quad_rank: 7, kicker_rank: 11 }
    );
}

#[test]
fn two_triples_make_a_full_house() {
    // {Ac, Ad, Ah} + {Kc, Kd, Kh} + {Qc}: the higher triple leads,
    // the lower serves as the pair.
    let cards = [
        card(0, 12),
        card(1, 12),
        card(2, 12),
        card(0, 11),
        card(1, 11),
        card(2, 11),
        card(0, 10),
    ];
    assert_eq!(
        evaluate_7_cards(cards),
        HandRank::FullHouse { three_rank: 12, pair_rank: 11 }
    );
}

#[test]
fn flush_takes_the_five_highest_of_the_suit() {
    // Six hearts: 2, 5, 7, 9, J, A; the five highest are kept,
    // descending.
    let cards = [
        card(2, 0),
        card(2, 3),
        card(2, 5),
        card(2, 7),
        card(2, 9),
        card(2, 12),
        card(0, 11),
    ];
    assert_eq!(
        evaluate_7_cards(cards),
        HandRank::Flush { ranks: [12, 9, 7, 5, 3] }
    );
}

#[test]
fn flush_in_one_suit_straight_in_mixed_suits_is_only_a_flush() {
    // Five clubs {2, 4, 6, 8, T} plus {9h, Jd}: 8-9-T-J with the 7?
    // No straight is actually present (6, 8, 9, T, J misses the 7),
    // but the mixed ranks must not be mistaken for a straight flush.
    let cards = [
        card(0, 0),
        card(0, 2),
        card(0, 4),
        card(0, 6),
        card(0, 8),
        card(2, 7),
        card(1, 9),
    ];
    assert_eq!(
        evaluate_7_cards(cards),
        HandRank::Flush { ranks: [8, 6, 4, 2, 0] }
    );
}

#[test]
fn straight_reports_its_highest_window() {
    // Ranks 2..8 consecutive: the straight is T-high (rank 8), not a
    // lower window.
    let cards = [
        card(0, 2),
        card(1, 3),
        card(2, 4),
        card(3, 5),
        card(0, 6),
        card(1, 7),
        card(2, 8),
    ];
    assert_eq!(
        evaluate_7_cards(cards),
        HandRank::Straight { high_card_rank: 8 }
    );
}

#[test]
fn two_pair_picks_best_two_and_best_kicker() {
    // Pairs of queens, jacks and nines: the two best pairs lead and
    // the third pair's rank is the kicker.
    let cards = [
        card(0, 10),
        card(1, 10),
        card(0, 9),
        card(1, 9),
        card(0, 7),
        card(1, 7),
        card(2, 0),
    ];
    assert_eq!(
        evaluate_7_cards(cards),
        HandRank::TwoPair { high_pair_rank: 10, low_pair_rank: 9, kicker_rank: 7 }
    );
}

#[test]
fn one_pair_and_high_card_kickers_descend() {
    let pair = [
        card(0, 4),
        card(1, 4),
        card(2, 12),
        card(3, 9),
        card(0, 7),
        card(1, 2),
        card(2, 0),
    ];
    assert_eq!(
        evaluate_7_cards(pair),
        HandRank::OnePair { pair_rank: 4, kickers: [12, 9, 7] }
    );
    let high = [
        card(0, 12),
        card(1, 10),
        card(2, 8),
        card(3, 6),
        card(0, 4),
        card(1, 2),
        card(2, 0),
    ];
    assert_eq!(
        evaluate_7_cards(high),
        HandRank::HighCard { ranks: [12, 10, 8, 6, 4] }
    );
}

#[test]
fn steel_wheel_is_a_straight_flush_high_five() {
    // {Ah, 2h, 3h, 4h, 5h} + {Kd, Kc}: the ace-low straight flush
    // reports high card Five (rank 3), not Ace.
    let cards = [
        card(2, 12),
        card(2, 0),
        card(2, 1),
        card(2, 2),
        card(2, 3),
        card(1, 11),
        card(0, 11),
    ];
    assert_eq!(
        evaluate_7_cards(cards),
        HandRank::StraightFlush { high_card_rank: 3 }
    );
}

#[test]
fn straight_over_all_suits_does_not_make_a_straight_flush() {
    // Six diamonds {2, 4, 6, 8, T, Q} and the 3c: no five
    // consecutive diamonds, so the mixed-suit ranks must yield only
    // the flush, never a straight flush.
    let cards = [
        card(1, 0),
        card(1, 2),
        card(1, 4),
        card(1, 6),
        card(1, 8),
        card(1, 10),
        card(0, 1),
    ];
    assert_eq!(
        evaluate_7_cards(cards),
        HandRank::Flush { ranks: [10, 8, 6, 4, 2] }
    );
}

#[test]
fn three_of_a_kind_keeps_two_best_kickers() {
    let cards = [
        card(0, 6),
        card(1, 6),
        card(2, 6),
        card(3, 12),
        card(0, 2),
        card(1, 9),
        card(2, 0),
    ];
    assert_eq!(
        evaluate_7_cards(cards),
        HandRank::ThreeOfAKind { three_rank: 6, kickers: [12, 9] }
    );
}

#[test]
fn full_house_picks_best_pair_among_two() {
    // {8c, 8d, 8h} + {3c, 3d} + {Jc, Jd}: the triple of eights with
    // the pair of jacks, not the threes.
    let cards = [
        card(0, 6),
        card(1, 6),
        card(2, 6),
        card(0, 1),
        card(1, 1),
        card(0, 9),
        card(1, 9),
    ];
    assert_eq!(
        evaluate_7_cards(cards),
        HandRank::FullHouse { three_rank: 6, pair_rank: 9 }
    );
}

#[test]
fn category_values_follow_strength_order() {
    assert_eq!(hand_rank_to_u8(HandRank::StraightFlush { high_card_rank: 5 }), 9);
    assert_eq!(hand_rank_to_u8(HandRank::FourOfAKind { quad_rank: 5, kicker_rank: 2 }), 8);
    assert_eq!(hand_rank_to_u8(HandRank::FullHouse { three_rank: 5, pair_rank: 2 }), 7);
    assert_eq!(hand_rank_to_u8(HandRank::Flush { ranks: [9, 7, 5, 3, 1] }), 6);
    assert_eq!(hand_rank_to_u8(HandRank::Straight { high_card_rank: 5 }), 5);
    assert_eq!(hand_rank_to_u8(HandRank::ThreeOfAKind { three_rank: 5, kickers: [4, 2] }), 4);
    assert_eq!(
        hand_rank_to_u8(HandRank::TwoPair { high_pair_rank: 5, low_pair_rank: 3, kicker_rank: 1 }),
        3
    );
    assert_eq!(hand_rank_to_u8(HandRank::OnePair { pair_rank: 5, kickers: [4, 3, 2] }), 2);
    assert_eq!(hand_rank_to_u8(HandRank::HighCard { ranks: [9, 7, 5, 3, 1] }), 1);
    assert_eq!(hand_rank_to_u8(HandRank::NoHand), 0);
}

#[test]
fn straight_flush_beats_every_other_category() {
    let sf = HandRank::StraightFlush { high_card_rank: 3 };
    let others = [
        HandRank::FourOfAKind { quad_rank: 12, kicker_rank: 11 },
        HandRank::FullHouse { three_rank: 12, pair_rank: 11 },
        HandRank::Flush { ranks: [12, 11, 10, 9, 7] },
        HandRank::Straight { high_card_rank: 12 },
        HandRank::ThreeOfAKind { three_rank: 12, kickers: [11, 10] },
        HandRank::TwoPair { high_pair_rank: 12, low_pair_rank: 11, kicker_rank: 10 },
        HandRank::OnePair { pair_rank: 12, kickers: [11, 10, 9] },
        HandRank::HighCard { ranks: [12, 11, 10, 9, 7] },
        HandRank::NoHand,
    ];
    for other in others {
        assert_eq!(compare_hand_ranks(sf, other), 1);
        assert_eq!(compare_hand_ranks(other, sf), 2);
    }
}

#[test]
fn tie_break_compares_fields_lexicographically() {
    let a = HandRank::OnePair { pair_rank: 11, kickers: [9, 7, 5] };
    let b = HandRank::OnePair { pair_rank: 11, kickers: [9, 7, 4] };
    let c = HandRank::OnePair { pair_rank: 11, kickers: [9, 7, 5] };
    assert_eq!(compare_hand_ranks(a, b), 1);
    assert_eq!(compare_hand_ranks(b, a), 2);
    assert_eq!(compare_hand_ranks(a, c), 0);

    let d = HandRank::TwoPair { high_pair_rank: 8, low_pair_rank: 3, kicker_rank: 12 };
    let e = HandRank::TwoPair { high_pair_rank: 8, low_pair_rank: 4, kicker_rank: 0 };
    assert_eq!(compare_hand_ranks(d, e), 2);

    let f = HandRank::Flush { ranks: [12, 10, 8, 6, 4] };
    let g = HandRank::Flush { ranks: [12, 10, 8, 6, 3] };
    assert_eq!(compare_hand_ranks(f, g), 1);
    assert!(hand_rank_key(f) > hand_rank_key(g));
}
