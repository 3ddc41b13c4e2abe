//! Dealing: round-robin hole cards for the active seats from a
//! shuffled deck, the packed deck, and the shuffle commitment.
//!
//! The uniform shuffle itself is the hosting environment's secure RNG
//! primitive; the caller hands the shuffled permutation in, and every
//! step from there — commitment, dealing order, packing — is verified.

use vstd::prelude::*;
use crate::card::DUMMY_CARD;
use crate::codec::Deck;
use crate::codec::Hand;
use crate::codec::all_below_64;
use crate::codec::deck_encodes;

verus! {

/// How many of the first `i` seats are active.
pub open spec fn count_active_before(mask: Seq<bool>, i: int) -> int
    decreases i,
{
    if i <= 0 {
        0
    } else {
        count_active_before(mask, i - 1) + if mask[i - 1] {
            1int
        } else {
            0int
        }
    }
}

pub proof fn lemma_count_active_before_bounds(mask: Seq<bool>, i: int)
    ensures
        0 <= count_active_before(mask, i) <= if i >= 0 {
            i
        } else {
            0
        },
    decreases i,
{
    if i > 0 {
        lemma_count_active_before_bounds(mask, i - 1);
    }
}

proof fn lemma_count_active_before_strict(mask: Seq<bool>, i: int, n: int)
    requires
        0 <= i < n,
        mask[i],
    ensures
        count_active_before(mask, i) < count_active_before(mask, n),
    decreases n,
{
    if i < n - 1 {
        lemma_count_active_before_strict(mask, i, n - 1);
    }
}

/// An active seat's two hole cards come from the deck prefix that the
/// deal consumes: the first-round card lies below the active-seat
/// count, the second-round card between it and twice it.  Community
/// reveals that start at or past twice the active-seat count can
/// therefore never show a dealt hole card.
pub proof fn lemma_deal_slots(mask: Seq<bool>, i: int)
    requires
        0 <= i < 6,
        mask[i],
    ensures
        0 <= first_card_slot(mask, i) < count_active_before(mask, 6),
        count_active_before(mask, 6) <= second_card_slot(mask, i) < 2 * count_active_before(
            mask,
            6,
        ),
{
    lemma_count_active_before_bounds(mask, i);
    lemma_count_active_before_strict(mask, i, 6);
}

/// The first hole card of active seat `i`: dealing goes round-robin,
/// one card to each active seat in seat order, then a second round.
pub open spec fn first_card_slot(mask: Seq<bool>, i: int) -> int {
    count_active_before(mask, i)
}

/// The second hole card of active seat `i`: dealt in the second round,
/// after every active seat received its first card.
pub open spec fn second_card_slot(mask: Seq<bool>, i: int) -> int {
    count_active_before(mask, 6) + count_active_before(mask, i)
}

/// The packed hand owed to seat `i` from the shuffled deck: its two
/// round-robin cards if the seat is active, the dummy pair otherwise.
pub open spec fn spec_hand_of_seat(deck: Seq<u8>, mask: Seq<bool>, i: int) -> int {
    if mask[i] {
        deck[first_card_slot(mask, i)] + 64 * deck[second_card_slot(mask, i)]
    } else {
        DUMMY_CARD + 64 * DUMMY_CARD
    }
}

/// Deals two hole cards round-robin to each active seat: one card to
/// each active seat in seat order, then a second card to each in the
/// same order.  Inactive seats receive the dummy pair, so the output
/// is a full fixed-size seat array.
#[verifier::loop_isolation(false)]
pub fn deal_hole_cards(deck_array: &[u8; 52], active_players: &[bool; 6]) -> (hands: [Hand; 6])
    requires
        all_below_64(deck_array@),
    ensures
        forall|i: int|
            0 <= i < 6 ==> hands[i].cards_packed == spec_hand_of_seat(
                deck_array@,
                active_players@,
                i,
            ),
{
    let mut first_cards = [DUMMY_CARD; 6];
    let mut second_cards = [DUMMY_CARD; 6];

    let mut counter: usize = 0;
    let mut i: usize = 0;
    while i < 6
        invariant
            i <= 6,
            counter == count_active_before(active_players@, i as int),
            forall|j: int|
                0 <= j < 6 ==> first_cards@[j] == (if j < i && active_players@[j] {
                    deck_array@[first_card_slot(active_players@, j)]
                } else {
                    DUMMY_CARD
                }),
        decreases 6 - i,
    {
        proof {
            lemma_count_active_before_bounds(active_players@, i as int);
        }
        if active_players[i] {
            first_cards[i] = deck_array[counter];
            counter = counter + 1;
        }
        i = i + 1;
    }

    let mut i: usize = 0;
    while i < 6
        invariant
            i <= 6,
            counter == count_active_before(active_players@, 6) + count_active_before(
                active_players@,
                i as int,
            ),
            forall|j: int|
                0 <= j < 6 ==> second_cards@[j] == (if j < i && active_players@[j] {
                    deck_array@[second_card_slot(active_players@, j)]
                } else {
                    DUMMY_CARD
                }),
        decreases 6 - i,
    {
        proof {
            lemma_count_active_before_bounds(active_players@, i as int);
            lemma_count_active_before_bounds(active_players@, 6);
        }
        if active_players[i] {
            second_cards[i] = deck_array[counter];
            counter = counter + 1;
        }
        i = i + 1;
    }

    let mut hands = [Hand { cards_packed: 0u128 }; 6];
    let mut i: usize = 0;
    while i < 6
        invariant
            i <= 6,
            forall|j: int|
                0 <= j < i ==> hands@[j].cards_packed == spec_hand_of_seat(
                    deck_array@,
                    active_players@,
                    j,
                ),
        decreases 6 - i,
    {
        proof {
            lemma_count_active_before_bounds(active_players@, i as int);
            lemma_count_active_before_bounds(active_players@, 6);
        }
        hands[i] = Hand::from_array([first_cards[i], second_cards[i]]);
        i = i + 1;
    }
    hands
}

/// The shuffle commitment: a deterministic function of the shuffled
/// permutation, stored so the shuffle can be checked afterwards.  This
/// takes the first 32 card values; a deployment wanting a hiding,
/// binding commitment substitutes a keyed hash here.
pub fn make_shuffle_commitment(deck_array: &[u8; 52]) -> (commitment: [u8; 32])
    ensures
        forall|i: int| 0 <= i < 32 ==> commitment[i] == deck_array@[i],
{
    let mut commitment = [0u8; 32];
    let mut i: usize = 0;
    while i < 32
        invariant
            i <= 32,
            forall|j: int| 0 <= j < i ==> commitment@[j] == deck_array@[j],
        decreases 32 - i,
    {
        commitment[i] = deck_array[i];
        i = i + 1;
    }
    commitment
}

/// Packs a shuffled deck, commits to it, and deals the hole cards.
///
/// The caller supplies the deck already shuffled by the hosting
/// environment's secure RNG; every value is a six-bit card field and at
/// least two seats take part, as a hand needs two players.  Returns
/// the packed deck, the shuffle commitment, and one packed hand per
/// seat (the dummy pair for inactive seats).
pub fn shuffle_and_deal(shuffled_deck: &[u8; 52], active_players: &[bool; 6]) -> (res: (
    Deck,
    [u8; 32],
    [Hand; 6],
))
    requires
        all_below_64(shuffled_deck@),
        count_active_before(active_players@, 6) >= 2,
    ensures
        deck_encodes(res.0, shuffled_deck@),
        forall|i: int| 0 <= i < 32 ==> res.1[i] == shuffled_deck@[i],
        forall|i: int|
            0 <= i < 6 ==> res.2[i].cards_packed == spec_hand_of_seat(
                shuffled_deck@,
                active_players@,
                i,
            ),
{
    let commitment = make_shuffle_commitment(shuffled_deck);
    let hands = deal_hole_cards(shuffled_deck, active_players);
    let packed = Deck::from_array(*shuffled_deck);
    (packed, commitment, hands)
}

} // verus!
