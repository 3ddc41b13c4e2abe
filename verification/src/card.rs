//! Card representation: a card is an index in 0..52, with
//! `rank = index % 13` (0 = Two .. 12 = Ace) and `suit = index / 13`.

use vstd::prelude::*;

verus! {

/// Number of distinct suits.
pub const NUM_SUITS: u8 = 4;
/// Number of distinct ranks.
pub const NUM_RANKS: u8 = 13;
/// Rank of the Ace (the highest rank).
pub const ACE_RANK: u8 = 12;
/// Number of cards in a full deck.
pub const DECK_SIZE: usize = 52;
/// Sentinel card index marking a consumed / absent card slot.
pub const INVALID_CARD_INDEX: u8 = 255;
/// Card value handed to seats that take no part in a hand (out of the
/// 0..52 range of real cards, but still within the 6-bit packed field).
pub const DUMMY_CARD: u8 = 52;
/// Sentinel written into a packed deck slot once its card is burned or
/// revealed.  The packed deck stores 6-bit fields, so its sentinel must
/// stay below 64; 255 marks missing cards only in unpacked contexts.
pub const CONSUMED_CARD: u8 = 63;

/// Rank of a card index.
pub open spec fn spec_rank(card: u8) -> u8 {
    (card % 13) as u8
}

/// Suit of a card index.
pub open spec fn spec_suit(card: u8) -> u8 {
    (card / 13) as u8
}

/// Extracts the rank (0 = Two .. 12 = Ace) of a card index.
pub fn get_rank(card_idx: u8) -> (r: u8)
    ensures
        r == spec_rank(card_idx),
        r < 13,
{
    card_idx % NUM_RANKS
}

/// Extracts the suit (0..3 for indices below 52) of a card index.
pub fn get_suit(card_idx: u8) -> (s: u8)
    ensures
        s == spec_suit(card_idx),
        card_idx < 52 ==> s < 4,
{
    card_idx / NUM_RANKS
}

/// A single playing card, split into its rank and suit.
#[derive(Clone, Copy, Debug, PartialEq, Eq, Structural)]
pub struct Card {
    /// 0 = Two, 1 = Three, ..., 11 = King, 12 = Ace.
    pub rank: u8,
    /// 0..3.
    pub suit: u8,
}

impl Card {
    /// Splits a card index into rank and suit.
    pub fn from_index(index: u8) -> (c: Card)
        ensures
            c.rank == spec_rank(index),
            c.suit == spec_suit(index),
    {
        Card { rank: index % 13, suit: index / 13 }
    }

    /// Rebuilds the card index from rank and suit.
    pub fn to_u8_index(&self) -> (idx: u8)
        requires
            self.rank < 13,
            self.suit < 4,
        ensures
            idx == self.suit * 13 + self.rank,
            idx < 52,
            spec_rank(idx) == self.rank,
            spec_suit(idx) == self.suit,
    {
        let idx = self.suit * 13 + self.rank;
        proof {
            assert(spec_rank(idx) == self.rank && spec_suit(idx) == self.suit) by (nonlinear_arith)
                requires
                    self.rank < 13,
                    self.suit < 4,
                    idx == self.suit * 13 + self.rank,
            ;
        }
        idx
    }

    /// Splits a card index below 52 into rank and suit; indices outside the
    /// deck are rejected by the precondition rather than accepted silently.
    pub fn from_u8_index(index: u8) -> (c: Card)
        requires
            index < 52,
        ensures
            c.rank == spec_rank(index),
            c.suit == spec_suit(index),
            c.rank < 13,
            c.suit < 4,
    {
        Card { rank: index % 13, suit: index / 13 }
    }
}

} // verus!
