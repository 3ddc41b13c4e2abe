//! Community-card reveal: burn one card, then reveal up to three, each
//! consumed slot overwritten with the sentinel so no card can be shown
//! twice.

use vstd::prelude::*;
use crate::card::CONSUMED_CARD;
use crate::card::INVALID_CARD_INDEX;
use crate::codec::Deck;
use crate::codec::all_below_64;
use crate::codec::deck_decode;
use crate::codec::deck_encodes;

verus! {

/// Deck slot `j` is consumed by a reveal call with cursor `top` and
/// reveal count `n`: the burned slot `top`, then the `n` revealed
/// slots after it, clipped to the deck.
pub open spec fn slot_consumed(top: int, n: int, j: int) -> bool {
    j == top || (top + 1 <= j < top + 1 + n && j < 52)
}

/// The deck sequence after a reveal call: consumed slots hold the
/// in-range sentinel, all others are untouched.
pub open spec fn spec_deck_after_reveal(deck: Seq<u8>, top: int, n: int) -> Seq<u8> {
    Seq::new(52, |j: int|
        if slot_consumed(top, n, j) {
            CONSUMED_CARD
        } else {
            deck[j]
        },
    )
}

/// The three output slots of a reveal call: the `i`-th slot shows the
/// card at `top + 1 + i` if `i < n` and that slot exists, else the
/// sentinel.
pub open spec fn spec_revealed(deck: Seq<u8>, top: int, n: int, i: int) -> u8 {
    if i < n && top + 1 + i < 52 {
        deck[top + 1 + i]
    } else {
        INVALID_CARD_INDEX
    }
}

/// Reveals community cards from the deck array: burns the card at
/// `top_card_idx`, then reveals the following `num_to_reveal` cards
/// (at most 3), marking every consumed slot with the sentinel.
/// Returns the three revealed-card slots, padded with the sentinel.
#[verifier::loop_isolation(false)]
pub fn reveal_from_array(deck_array: &mut [u8; 52], top_card_idx: u8, num_to_reveal: u8) -> (revealed: [u8; 3])
    requires
        num_to_reveal <= 3,
    ensures
        final(deck_array)@ == spec_deck_after_reveal(
            old(deck_array)@,
            top_card_idx as int,
            num_to_reveal as int,
        ),
        forall|i: int|
            0 <= i < 3 ==> revealed[i] == spec_revealed(
                old(deck_array)@,
                top_card_idx as int,
                num_to_reveal as int,
                i,
            ),
{
    let burn_idx = top_card_idx as usize;
    if burn_idx < 52 {
        deck_array[burn_idx] = CONSUMED_CARD;
    }

    let mut revealed = [INVALID_CARD_INDEX; 3];
    let mut i: usize = 0;
    while i < 3
        invariant
            i <= 3,
            forall|j: int|
                0 <= j < 52 ==> deck_array@[j] == (if slot_consumed(
                    top_card_idx as int,
                    if num_to_reveal as int <= i as int {
                        num_to_reveal as int
                    } else {
                        i as int
                    },
                    j,
                ) {
                    CONSUMED_CARD
                } else {
                    old(deck_array)@[j]
                }),
            forall|k: int|
                0 <= k < 3 ==> revealed@[k] == (if k < i {
                    spec_revealed(old(deck_array)@, top_card_idx as int, num_to_reveal as int, k)
                } else {
                    INVALID_CARD_INDEX
                }),
        decreases 3 - i,
    {
        let current_idx = top_card_idx as usize + 1 + i;
        if i < num_to_reveal as usize && current_idx < 52 {
            revealed[i] = deck_array[current_idx];
            deck_array[current_idx] = CONSUMED_CARD;
        }
        i = i + 1;
    }
    proof {
        assert(deck_array@ =~= spec_deck_after_reveal(
            old(deck_array)@,
            top_card_idx as int,
            num_to_reveal as int,
        ));
    }
    revealed
}

/// Reveals community cards from the packed deck, as the public call
/// contract does: unpacks the deck, burns and reveals, and returns the
/// repacked updated deck beside the revealed slots.
pub fn reveal_community_cards(deck: &Deck, top_card_idx: u8, num_to_reveal: u8) -> (res: (
    [u8; 3],
    Deck,
))
    requires
        num_to_reveal <= 3,
        all_below_64(deck_decode(*deck)),
    ensures
        deck_encodes(
            res.1,
            spec_deck_after_reveal(
                deck_decode(*deck),
                top_card_idx as int,
                num_to_reveal as int,
            ),
        ),
        forall|i: int|
            0 <= i < 3 ==> res.0[i] == spec_revealed(
                deck_decode(*deck),
                top_card_idx as int,
                num_to_reveal as int,
                i,
            ),
{
    let mut deck_array = deck.to_array();
    let revealed = reveal_from_array(&mut deck_array, top_card_idx, num_to_reveal);
    proof {
        assert(all_below_64(deck_array@));
    }
    let updated = Deck::from_array(deck_array);
    (revealed, updated)
}

/// A freshly shuffled deck: 52 slots, every one a real card, no card
/// twice.
pub open spec fn valid_full_deck(s: Seq<u8>) -> bool {
    &&& s.len() == 52
    &&& forall|i: int| 0 <= i < 52 ==> s[i] < 52
    &&& forall|i: int, j: int| 0 <= i < j < 52 ==> s[i] != s[j]
}

/// Sequenced reveals never repeat a card.  Three reveal calls against
/// one shuffled deck — flop, turn, river — whose cursors each start
/// past everything the previous call consumed, read their cards from
/// the original deck (no call sees a slot an earlier call overwrote),
/// every card shown comes from a distinct deck slot past the
/// hole-card region, and no card is shown twice nor equals any dealt
/// hole card.
pub proof fn lemma_sequential_reveals_no_repeat(
    deck0: Seq<u8>,
    c1: int,
    n1: int,
    c2: int,
    n2: int,
    c3: int,
    n3: int,
    holes: int,
)
    requires
        valid_full_deck(deck0),
        0 <= holes <= c1,
        0 <= n1,
        0 <= n2,
        0 <= n3,
        c1 + 1 + n1 <= c2,
        c2 + 1 + n2 <= c3,
    ensures
// The second and third calls read the untouched original slots:

        forall|i: int|
            0 <= i < n2 ==> spec_revealed(spec_deck_after_reveal(deck0, c1, n1), c2, n2, i)
                == spec_revealed(deck0, c2, n2, i),
        forall|i: int|
            0 <= i < n3 ==> spec_revealed(
                spec_deck_after_reveal(spec_deck_after_reveal(deck0, c1, n1), c2, n2),
                c3,
                n3,
                i,
            ) == spec_revealed(deck0, c3, n3, i),
        // Every shown card is the original deck's card at its own slot:
        forall|i: int|
            0 <= i < n1 && c1 + 1 + i < 52 ==> spec_revealed(deck0, c1, n1, i) == deck0[c1 + 1
                + i],
        forall|i: int|
            0 <= i < n2 && c2 + 1 + i < 52 ==> spec_revealed(deck0, c2, n2, i) == deck0[c2 + 1
                + i],
        forall|i: int|
            0 <= i < n3 && c3 + 1 + i < 52 ==> spec_revealed(deck0, c3, n3, i) == deck0[c3 + 1
                + i],
        // No card is shown twice, within a call or across calls:
        forall|i: int, j: int|
            0 <= i < j < n1 && c1 + 1 + j < 52 ==> spec_revealed(deck0, c1, n1, i)
                != spec_revealed(deck0, c1, n1, j),
        forall|i: int, j: int|
            0 <= i < j < n2 && c2 + 1 + j < 52 ==> spec_revealed(deck0, c2, n2, i)
                != spec_revealed(deck0, c2, n2, j),
        forall|i: int, j: int|
            0 <= i < j < n3 && c3 + 1 + j < 52 ==> spec_revealed(deck0, c3, n3, i)
                != spec_revealed(deck0, c3, n3, j),
        forall|i: int, j: int|
            0 <= i < n1 && c1 + 1 + i < 52 && 0 <= j < n2 && c2 + 1 + j < 52 ==> spec_revealed(
                deck0,
                c1,
                n1,
                i,
            ) != spec_revealed(deck0, c2, n2, j),
        forall|i: int, j: int|
            0 <= i < n1 && c1 + 1 + i < 52 && 0 <= j < n3 && c3 + 1 + j < 52 ==> spec_revealed(
                deck0,
                c1,
                n1,
                i,
            ) != spec_revealed(deck0, c3, n3, j),
        forall|i: int, j: int|
            0 <= i < n2 && c2 + 1 + i < 52 && 0 <= j < n3 && c3 + 1 + j < 52 ==> spec_revealed(
                deck0,
                c2,
                n2,
                i,
            ) != spec_revealed(deck0, c3, n3, j),
        // No shown card was dealt as a hole card:
        forall|i: int, j: int|
            0 <= i < n1 && c1 + 1 + i < 52 && 0 <= j < holes ==> spec_revealed(deck0, c1, n1, i)
                != deck0[j],
        forall|i: int, j: int|
            0 <= i < n2 && c2 + 1 + i < 52 && 0 <= j < holes ==> spec_revealed(deck0, c2, n2, i)
                != deck0[j],
        forall|i: int, j: int|
            0 <= i < n3 && c3 + 1 + i < 52 && 0 <= j < holes ==> spec_revealed(deck0, c3, n3, i)
                != deck0[j],
{
    let d1 = spec_deck_after_reveal(deck0, c1, n1);
    let d2 = spec_deck_after_reveal(d1, c2, n2);
    assert forall|i: int| 0 <= i < n2 implies spec_revealed(d1, c2, n2, i) == spec_revealed(
        deck0,
        c2,
        n2,
        i,
    ) by {
        if c2 + 1 + i < 52 {
            assert(!slot_consumed(c1, n1, c2 + 1 + i));
            assert(d1[c2 + 1 + i] == deck0[c2 + 1 + i]);
        }
    }
    assert forall|i: int| 0 <= i < n3 implies spec_revealed(d2, c3, n3, i) == spec_revealed(
        deck0,
        c3,
        n3,
        i,
    ) by {
        if c3 + 1 + i < 52 {
            assert(!slot_consumed(c2, n2, c3 + 1 + i));
            assert(!slot_consumed(c1, n1, c3 + 1 + i));
            assert(d2[c3 + 1 + i] == d1[c3 + 1 + i]);
            assert(d1[c3 + 1 + i] == deck0[c3 + 1 + i]);
        }
    }
}

} // verus!
