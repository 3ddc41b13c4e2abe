use aces_unknown::card::CONSUMED_CARD;
use aces_unknown::card::INVALID_CARD_INDEX;
use aces_unknown::community::reveal_community_cards;
use aces_unknown::deal::shuffle_and_deal;
use aces_unknown::pot::PlayerPubkey;
use aces_unknown::showdown::evaluate_hands_and_payout;

fn reversed_deck() -> [u8; 52] {
    let mut deck = [0u8; 52];
    for i in 0..52 {
        deck[i] = (51 - i) as u8;
    }
    deck
}

#[test]
fn deal_is_round_robin_over_active_seats() {
    let deck = reversed_deck();
    let active = [true, false, true, true, false, false];
    let (packed_deck, commitment, hands) = shuffle_and_deal(&deck, &active);

    // Three active seats: first round deals deck[0..3], second round
    // deck[3..6], in seat order.
    assert_eq!(hands[0].to_array(), [deck[0], deck[3]]);
    assert_eq!(hands[2].to_array(), [deck[1], deck[4]]);
    assert_eq!(hands[3].to_array(), [deck[2], deck[5]]);
    // Inactive seats carry the dummy pair.
    assert_eq!(hands[1].to_array(), [52, 52]);
    assert_eq!(hands[4].to_array(), [52, 52]);
    assert_eq!(hands[5].to_array(), [52, 52]);

    // The packed deck holds the full shuffled order.
    assert_eq!(packed_deck.to_array(), deck);
    // The commitment is a deterministic function of the permutation.
    assert_eq!(&commitment[..], &deck[..32]);
}

#[test]
fn reveal_sequence_never_repeats_a_card() {
    let deck0 = reversed_deck();
    let active = [true, true, true, false, false, false];
    let (packed, _commitment, _hands) = shuffle_and_deal(&deck0, &active);

    // Three active seats consume deck[0..6] as hole cards; the flop
    // cursor starts right after them.
    let holes = 6u8;
    let (flop, deck1) = reveal_community_cards(&packed, holes, 3);
    let (turn, deck2) = reveal_community_cards(&deck1, holes + 4, 1);
    let (river, deck3) = reveal_community_cards(&deck2, holes + 6, 1);

    assert_eq!(flop, [deck0[7], deck0[8], deck0[9]]);
    assert_eq!(turn, [deck0[11], INVALID_CARD_INDEX, INVALID_CARD_INDEX]);
    assert_eq!(river, [deck0[13], INVALID_CARD_INDEX, INVALID_CARD_INDEX]);

    // The five community cards and the six hole cards are pairwise
    // distinct.
    let mut seen = [false; 52];
    for i in 0..6 {
        assert!(!seen[deck0[i] as usize]);
        seen[deck0[i] as usize] = true;
    }
    for &c in flop.iter().chain(turn.iter()).chain(river.iter()) {
        if c != INVALID_CARD_INDEX {
            assert!(!seen[c as usize]);
            seen[c as usize] = true;
        }
    }

    // Every consumed slot is marked in the final deck state, and the
    // untouched slots still hold their cards.
    let final_deck = deck3.to_array();
    for j in 0..52 {
        let consumed = j == 6 || (7..10).contains(&j) || j == 10 || j == 11 || j == 12 || j == 13;
        if consumed {
            assert_eq!(final_deck[j], CONSUMED_CARD);
        } else {
            assert_eq!(final_deck[j], deck0[j]);
        }
    }
}

#[test]
fn reveal_clips_at_the_deck_end() {
    let deck0 = reversed_deck();
    let active = [true, true, false, false, false, false];
    let (packed, _commitment, _hands) = shuffle_and_deal(&deck0, &active);
    let (revealed, _updated) = reveal_community_cards(&packed, 50, 3);
    assert_eq!(revealed, [deck0[51], INVALID_CARD_INDEX, INVALID_CARD_INDEX]);
}

#[test]
fn showdown_evaluates_hands_and_pays_the_winner() {
    // Community: Kc, Kd, 9h, 5s, 2c.  Seat 0 holds Ks Kh (four
    // kings), seat 1 holds Ac Ad (two pair, aces and kings), seat 2
    // folded pre-showdown.
    let community = [11, 13 + 11, 2 * 13 + 7, 3 * 13 + 3, 0];
    let hand = |c0: u8, c1: u8| aces_unknown::codec::Hand::from_array([c0, c1]);
    let hands = [
        hand(3 * 13 + 11, 2 * 13 + 11),
        hand(12, 13 + 12),
        hand(1, 2),
        hand(52, 52),
        hand(52, 52),
        hand(52, 52),
    ];
    let bets = [500, 500, 500, 0, 0, 0];
    let active = [true, true, false, false, false, false];
    let mut ids = [PlayerPubkey { bytes: [0u8; 32] }; 6];
    for (i, id) in ids.iter_mut().enumerate() {
        id.bytes[31] = i as u8;
    }
    let results = evaluate_hands_and_payout(&hands, &community, bets, active, ids);
    // One 500-chip tier funded by all three seats: seat 0's four
    // kings take it all, the folded seat's 500 included as dead
    // money.
    assert_eq!(results[0].amount_won, 1500);
    for i in 1..6 {
        assert_eq!(results[i].amount_won, 0);
    }
    for i in 0..6 {
        assert_eq!(results[i].player_pubkey, ids[i]);
    }
}

#[test]
fn showdown_with_no_hand_placeholder_is_harmless() {
    // A lone active seat with any hand takes the whole pot; the
    // placeholder ranks of inactive seats never win.
    let community = [1, 14, 27, 40, 5];
    let hands = [
        aces_unknown::codec::Hand::from_array([8, 21]),
        aces_unknown::codec::Hand::from_array([52, 52]),
        aces_unknown::codec::Hand::from_array([52, 52]),
        aces_unknown::codec::Hand::from_array([52, 52]),
        aces_unknown::codec::Hand::from_array([52, 52]),
        aces_unknown::codec::Hand::from_array([52, 52]),
    ];
    let bets = [100, 40, 0, 0, 0, 0];
    let active = [true, false, false, false, false, false];
    let ids = [PlayerPubkey { bytes: [7u8; 32] }; 6];
    let results = evaluate_hands_and_payout(&hands, &community, bets, active, ids);
    // Levels: only 100 is an active bet; the tier is funded by the
    // 100-chip bet alone (the folded 40 never reaches the level).
    assert_eq!(results[0].amount_won, 100);
    let won: u64 = results.iter().map(|r| r.amount_won).sum();
    assert_eq!(won, 100);
}
