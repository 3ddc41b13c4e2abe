use aces_unknown::codec::Deck;
use aces_unknown::codec::Hand;

fn sample_permutation() -> [u8; 52] {
    // A permutation of 0..52 that is far from the identity: multiply
    // by 17 modulo 53 and skip the residue 52.
    let mut deck = [0u8; 52];
    let mut seen = [false; 52];
    let mut n = 0;
    for i in 0..53u32 {
        let v = (i * 17) % 53;
        if v < 52 {
            deck[n] = v as u8;
            seen[v as usize] = true;
            n += 1;
        }
    }
    assert_eq!(n, 52);
    assert!(seen.iter().all(|&s| s));
    deck
}

#[test]
fn deck_roundtrip_identity_order() {
    let mut cards = [0u8; 52];
    for i in 0..52 {
        cards[i] = i as u8;
    }
    let deck = Deck::from_array(cards);
    assert_eq!(deck.to_array(), cards);
}

#[test]
fn deck_roundtrip_permutation() {
    let cards = sample_permutation();
    let deck = Deck::from_array(cards);
    assert_eq!(deck.to_array(), cards);
}

#[test]
fn deck_roundtrip_with_sentinels() {
    // Consumed slots (63) and dummy cards (52) are six-bit values and
    // must survive the packed form unchanged.
    let mut cards = sample_permutation();
    cards[0] = 63;
    cards[17] = 52;
    cards[51] = 63;
    let deck = Deck::from_array(cards);
    assert_eq!(deck.to_array(), cards);
}

#[test]
fn deck_packing_is_base_64_positional() {
    let mut cards = [0u8; 52];
    cards[0] = 5;
    cards[1] = 1;
    cards[21] = 9;
    cards[42] = 63;
    let deck = Deck::from_array(cards);
    // 5 + 1 * 64 in the first chunk, 9 in the second, 63 in the third.
    assert_eq!(deck.cards_chunk_0, 69);
    assert_eq!(deck.cards_chunk_1, 9);
    assert_eq!(deck.cards_chunk_2, 63);
}

#[test]
fn hand_roundtrip_all_pairs() {
    for c0 in 0..64u8 {
        for c1 in 0..64u8 {
            let hand = Hand::from_array([c0, c1]);
            assert_eq!(hand.to_array(), [c0, c1]);
        }
    }
}

#[test]
fn hand_packing_is_base_64_positional() {
    let hand = Hand::from_array([5, 7]);
    assert_eq!(hand.cards_packed, 5 + 7 * 64);
}
