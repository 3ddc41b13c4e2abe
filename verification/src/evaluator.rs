//! Seven-card poker hand evaluation: the best five-card category with
//! full kicker detail, and the total order on evaluated hands.
//!
//! Cards are indices 0..52 (`rank = index % 13`, 0 = Two .. 12 = Ace;
//! `suit = index / 13`).  The evaluation result is pinned down by spec
//! functions over the card sequence: per-rank and per-suit counts, the
//! highest straight window, and downward scans for the highest rank
//! meeting a condition.

use vstd::prelude::*;
use crate::card::spec_rank;
use crate::card::spec_suit;

verus! {

/// The rank of a poker hand, ordered by category strength, with the
/// rank values needed for a complete tie-break.
#[derive(Clone, Copy, Debug, PartialEq, Eq)]
#[allow(inconsistent_fields)]
pub enum HandRank {
    StraightFlush { high_card_rank: u8 },
    FourOfAKind { quad_rank: u8, kicker_rank: u8 },
    FullHouse { three_rank: u8, pair_rank: u8 },
    Flush { ranks: [u8; 5] },
    Straight { high_card_rank: u8 },
    ThreeOfAKind { three_rank: u8, kickers: [u8; 2] },
    TwoPair { high_pair_rank: u8, low_pair_rank: u8, kicker_rank: u8 },
    OnePair { pair_rank: u8, kickers: [u8; 3] },
    HighCard { ranks: [u8; 5] },
    NoHand,
}

/// Category strength: 9 = StraightFlush down to 1 = HighCard, 0 = NoHand.
pub open spec fn spec_category(h: HandRank) -> u8 {
    match h {
        HandRank::StraightFlush { .. } => 9,
        HandRank::FourOfAKind { .. } => 8,
        HandRank::FullHouse { .. } => 7,
        HandRank::Flush { .. } => 6,
        HandRank::Straight { .. } => 5,
        HandRank::ThreeOfAKind { .. } => 4,
        HandRank::TwoPair { .. } => 3,
        HandRank::OnePair { .. } => 2,
        HandRank::HighCard { .. } => 1,
        HandRank::NoHand => 0,
    }
}

/// Numeric category of a hand rank; higher is better.
pub fn hand_rank_to_u8(rank: HandRank) -> (v: u8)
    ensures
        v == spec_category(rank),
{
    match rank {
        HandRank::StraightFlush { .. } => 9,
        HandRank::FourOfAKind { .. } => 8,
        HandRank::FullHouse { .. } => 7,
        HandRank::Flush { .. } => 6,
        HandRank::Straight { .. } => 5,
        HandRank::ThreeOfAKind { .. } => 4,
        HandRank::TwoPair { .. } => 3,
        HandRank::OnePair { .. } => 2,
        HandRank::HighCard { .. } => 1,
        HandRank::NoHand => 0,
    }
}

/// How many of the cards have rank `r`.
pub open spec fn count_rank(cards: Seq<u8>, r: int) -> nat
    decreases cards.len(),
{
    if cards.len() == 0 {
        0
    } else {
        count_rank(cards.drop_last(), r) + if spec_rank(cards.last()) == r {
            1nat
        } else {
            0nat
        }
    }
}

/// How many of the cards have suit `st`.
pub open spec fn count_suit(cards: Seq<u8>, st: int) -> nat
    decreases cards.len(),
{
    if cards.len() == 0 {
        0
    } else {
        count_suit(cards.drop_last(), st) + if spec_suit(cards.last()) == st {
            1nat
        } else {
            0nat
        }
    }
}

pub proof fn lemma_count_rank_le_len(cards: Seq<u8>, r: int)
    ensures
        count_rank(cards, r) <= cards.len(),
    decreases cards.len(),
{
    if cards.len() > 0 {
        lemma_count_rank_le_len(cards.drop_last(), r);
    }
}

pub proof fn lemma_count_suit_le_len(cards: Seq<u8>, st: int)
    ensures
        count_suit(cards, st) <= cards.len(),
    decreases cards.len(),
{
    if cards.len() > 0 {
        lemma_count_suit_le_len(cards.drop_last(), st);
    }
}

/// The 13 per-rank counts of the card sequence.
pub open spec fn rank_counts_of(cards: Seq<u8>) -> Seq<u8> {
    Seq::new(13, |r: int| count_rank(cards, r) as u8)
}

/// The 4 per-suit counts of the card sequence.
pub open spec fn suit_counts_of(cards: Seq<u8>) -> Seq<u8> {
    Seq::new(4, |st: int| count_suit(cards, st) as u8)
}

/// Which of the 13 ranks occur among the cards (any suit).
pub open spec fn present_any(cards: Seq<u8>) -> Seq<bool> {
    Seq::new(13, |r: int| count_rank(cards, r) > 0)
}

/// The card index with suit `st` and rank `r`.
pub open spec fn card_of(st: int, r: int) -> u8 {
    (st * 13 + r) as u8
}

/// Which of the 13 ranks occur among the cards of suit `st`.
pub open spec fn present_of_suit(cards: Seq<u8>, st: int) -> Seq<bool> {
    Seq::new(13, |r: int| cards.contains(card_of(st, r)))
}

/// The highest rank below `bound` whose count is exactly `c`; 255 if none.
pub open spec fn highest_with_count(counts: Seq<u8>, bound: int, c: u8) -> u8
    decreases bound,
{
    if bound <= 0 || bound > counts.len() {
        255
    } else if counts[bound - 1] == c {
        (bound - 1) as u8
    } else {
        highest_with_count(counts, bound - 1, c)
    }
}

/// The highest present rank below `bound`, other than `e0` and `e1`;
/// 255 if none.
pub open spec fn highest_present_excl(p: Seq<bool>, bound: int, e0: u8, e1: u8) -> u8
    decreases bound,
{
    if bound <= 0 || bound > p.len() {
        255
    } else if p[bound - 1] && bound - 1 != e0 && bound - 1 != e1 {
        (bound - 1) as u8
    } else {
        highest_present_excl(p, bound - 1, e0, e1)
    }
}

/// Five consecutive present ranks with high card `h`; `h == 3` is the
/// wheel (Ace, 5, 4, 3, 2).
pub open spec fn straight_at(p: Seq<bool>, h: int) -> bool
    recommends
        p.len() == 13,
        3 <= h <= 12,
{
    if h == 3 {
        p[12] && p[3] && p[2] && p[1] && p[0]
    } else {
        p[h] && p[h - 1] && p[h - 2] && p[h - 3] && p[h - 4]
    }
}

/// The highest straight high-card at or below `h` over the present
/// ranks `p`; 255 if there is none.
pub open spec fn straight_high(p: Seq<bool>, h: int) -> u8
    recommends
        p.len() == 13,
        h <= 12,
    decreases h,
{
    if h < 3 || p.len() != 13 {
        255
    } else if straight_at(p, h) {
        h as u8
    } else {
        straight_high(p, h - 1)
    }
}

/// The suit holding five or more of the cards; 255 if none does.
/// At most one suit of seven cards can reach five.
pub open spec fn flush_suit_of(cards: Seq<u8>) -> u8 {
    let sc = suit_counts_of(cards);
    if sc[3] >= 5 {
        3
    } else if sc[2] >= 5 {
        2
    } else if sc[1] >= 5 {
        1
    } else if sc[0] >= 5 {
        0
    } else {
        255
    }
}

/// The evaluation of a seven-card hand, by the fixed precedence:
/// straight flush, four of a kind, full house, flush, straight, three
/// of a kind, two pair, one pair, high card.  Within each category the
/// primary group ranks are the highest available and kickers are the
/// highest remaining ranks in descending order.
pub open spec fn spec_evaluate(cards: Seq<u8>) -> HandRank {
    let rc = rank_counts_of(cards);
    let pa = present_any(cards);
    let fs = flush_suit_of(cards);
    let sf = if fs != 255 {
        straight_high(present_of_suit(cards, fs as int), 12)
    } else {
        255
    };
    let quad = highest_with_count(rc, 13, 4);
    let trip = highest_with_count(rc, 13, 3);
    let pair = highest_with_count(rc, 13, 2);
    if sf != 255 {
        HandRank::StraightFlush { high_card_rank: sf }
    } else if quad != 255 {
        HandRank::FourOfAKind {
            quad_rank: quad,
            kicker_rank: highest_present_excl(pa, 13, quad, 255),
        }
    } else if trip != 255 && pair != 255 {
        HandRank::FullHouse { three_rank: trip, pair_rank: pair }
    } else if trip != 255 && highest_with_count(rc, trip as int, 3) != 255 {
        HandRank::FullHouse { three_rank: trip, pair_rank: highest_with_count(rc, trip as int, 3) }
    } else if fs != 255 {
        let ps = present_of_suit(cards, fs as int);
        let f0 = highest_present_excl(ps, 13, 255, 255);
        let f1 = highest_present_excl(ps, f0 as int, 255, 255);
        let f2 = highest_present_excl(ps, f1 as int, 255, 255);
        let f3 = highest_present_excl(ps, f2 as int, 255, 255);
        let f4 = highest_present_excl(ps, f3 as int, 255, 255);
        HandRank::Flush { ranks: [f0, f1, f2, f3, f4] }
    } else if straight_high(pa, 12) != 255 {
        HandRank::Straight { high_card_rank: straight_high(pa, 12) }
    } else if trip != 255 {
        let k0 = highest_present_excl(pa, 13, trip, 255);
        let k1 = highest_present_excl(pa, k0 as int, trip, 255);
        HandRank::ThreeOfAKind { three_rank: trip, kickers: [k0, k1] }
    } else if pair != 255 && highest_with_count(rc, pair as int, 2) != 255 {
        let pair2 = highest_with_count(rc, pair as int, 2);
        HandRank::TwoPair {
            high_pair_rank: pair,
            low_pair_rank: pair2,
            kicker_rank: highest_present_excl(pa, 13, pair, pair2),
        }
    } else if pair != 255 {
        let k0 = highest_present_excl(pa, 13, pair, 255);
        let k1 = highest_present_excl(pa, k0 as int, pair, 255);
        let k2 = highest_present_excl(pa, k1 as int, pair, 255);
        HandRank::OnePair { pair_rank: pair, kickers: [k0, k1, k2] }
    } else {
        let h0 = highest_present_excl(pa, 13, 255, 255);
        let h1 = highest_present_excl(pa, h0 as int, 255, 255);
        let h2 = highest_present_excl(pa, h1 as int, 255, 255);
        let h3 = highest_present_excl(pa, h2 as int, 255, 255);
        let h4 = highest_present_excl(pa, h3 as int, 255, 255);
        HandRank::HighCard { ranks: [h0, h1, h2, h3, h4] }
    }
}

/// A successful count scan names a rank below its bound.
pub proof fn lemma_hwc_below_bound(counts: Seq<u8>, bound: int, c: u8)
    ensures
        highest_with_count(counts, bound, c) == 255 || highest_with_count(counts, bound, c)
            < bound,
    decreases bound,
{
    if 0 < bound <= counts.len() {
        lemma_hwc_below_bound(counts, bound - 1, c);
    }
}

/// A successful presence scan names a rank below its bound.
pub proof fn lemma_hpe_below_bound(p: Seq<bool>, bound: int, e0: u8, e1: u8)
    ensures
        highest_present_excl(p, bound, e0, e1) == 255 || highest_present_excl(p, bound, e0, e1)
            < bound,
    decreases bound,
{
    if 0 < bound <= p.len() {
        lemma_hpe_below_bound(p, bound - 1, e0, e1);
    }
}

/// A found count scan names the highest matching rank: it matches,
/// and nothing above it below the bound does.
pub proof fn lemma_hwc_found(counts: Seq<u8>, bound: int, c: u8)
    requires
        0 <= bound <= counts.len(),
        bound <= 255,
        highest_with_count(counts, bound, c) != 255,
    ensures
        highest_with_count(counts, bound, c) < bound,
        counts[highest_with_count(counts, bound, c) as int] == c,
        forall|r: int| highest_with_count(counts, bound, c) < r < bound ==> counts[r] != c,
    decreases bound,
{
    if bound > 0 && counts[bound - 1] != c {
        lemma_hwc_found(counts, bound - 1, c);
    }
}

/// An empty count scan means no rank below the bound has that count.
pub proof fn lemma_hwc_none(counts: Seq<u8>, bound: int, c: u8)
    requires
        0 <= bound <= counts.len(),
        bound <= 255,
        highest_with_count(counts, bound, c) == 255,
    ensures
        forall|r: int| 0 <= r < bound ==> counts[r] != c,
    decreases bound,
{
    if bound > 0 {
        lemma_hwc_none(counts, bound - 1, c);
    }
}

/// How many ranks below `n` are present and not excluded.
pub open spec fn count_true_excl(p: Seq<bool>, n: int, e0: u8, e1: u8) -> int
    decreases n,
{
    if n <= 0 {
        0
    } else {
        count_true_excl(p, n - 1, e0, e1) + if p[n - 1] && n - 1 != e0 && n - 1 != e1 {
            1int
        } else {
            0int
        }
    }
}

/// When a present non-excluded rank exists below the bound, the scan
/// finds the highest one, and exactly one candidate is used up.
pub proof fn lemma_hpe_step(p: Seq<bool>, bound: int, e0: u8, e1: u8)
    requires
        0 <= bound <= p.len(),
        bound <= 255,
        count_true_excl(p, bound, e0, e1) >= 1,
    ensures
        highest_present_excl(p, bound, e0, e1) != 255,
        highest_present_excl(p, bound, e0, e1) < bound,
        count_true_excl(p, highest_present_excl(p, bound, e0, e1) as int, e0, e1)
            == count_true_excl(p, bound, e0, e1) - 1,
    decreases bound,
{
    if bound > 0 && !(p[bound - 1] && bound - 1 != e0 && bound - 1 != e1) {
        lemma_hpe_step(p, bound - 1, e0, e1);
    }
}

/// The straight scan yields a high card between the wheel's and the
/// bound.
pub proof fn lemma_straight_high_range(p: Seq<bool>, h: int)
    requires
        h <= 12,
    ensures
        straight_high(p, h) == 255 || 3 <= straight_high(p, h) <= h,
    decreases h,
{
    if h >= 3 && p.len() == 13 && !straight_at(p, h) {
        lemma_straight_high_range(p, h - 1);
    }
}

/// Pushing one element extends what a sequence contains by just it.
proof fn lemma_contains_push(s: Seq<u8>, c: u8, x: u8)
    ensures
        s.push(c).contains(x) <==> (s.contains(x) || c == x),
{
    if s.contains(x) {
        let j = choose|j: int| 0 <= j < s.len() && s[j] == x;
        assert(s.push(c)[j] == x);
    }
    if c == x {
        assert(s.push(c)[s.len() as int] == x);
    }
    if s.push(c).contains(x) {
        let j = choose|j: int| 0 <= j < s.push(c).len() && s.push(c)[j] == x;
        if j < s.len() {
            assert(s[j] == x);
        }
    }
}

/// No card carries a rank at or above 13.
proof fn lemma_count_rank_big(cards: Seq<u8>, r: int)
    requires
        r >= 13,
    ensures
        count_rank(cards, r) == 0,
    decreases cards.len(),
{
    if cards.len() > 0 {
        lemma_count_rank_big(cards.drop_last(), r);
    }
}

/// Sum, over the non-excluded ranks below `n`, of their card counts.
pub open spec fn rank_count_total(cards: Seq<u8>, n: int, e0: u8, e1: u8) -> int
    decreases n,
{
    if n <= 0 {
        0
    } else {
        rank_count_total(cards, n - 1, e0, e1) + if n - 1 != e0 && n - 1 != e1 {
            count_rank(cards, n - 1) as int
        } else {
            0int
        }
    }
}

/// How many cards carry a rank other than `e0` and `e1`.
pub open spec fn cards_outside(cards: Seq<u8>, e0: u8, e1: u8) -> int
    decreases cards.len(),
{
    if cards.len() == 0 {
        0
    } else {
        cards_outside(cards.drop_last(), e0, e1) + if spec_rank(cards.last()) != e0 && spec_rank(
            cards.last(),
        ) != e1 {
            1int
        } else {
            0int
        }
    }
}

proof fn lemma_rank_count_total_step(cards: Seq<u8>, n: int, e0: u8, e1: u8)
    requires
        cards.len() > 0,
    ensures
        rank_count_total(cards, n, e0, e1) == rank_count_total(cards.drop_last(), n, e0, e1) + if
            spec_rank(cards.last()) < n && spec_rank(cards.last()) != e0 && spec_rank(cards.last())
            != e1 {
            1int
        } else {
            0int
        },
    decreases n,
{
    if n > 0 {
        lemma_rank_count_total_step(cards, n - 1, e0, e1);
    }
}

proof fn lemma_rank_count_total_zero(cards: Seq<u8>, n: int, e0: u8, e1: u8)
    requires
        cards.len() == 0,
    ensures
        rank_count_total(cards, n, e0, e1) == 0,
    decreases n,
{
    if n > 0 {
        lemma_rank_count_total_zero(cards, n - 1, e0, e1);
    }
}

/// Counting by rank bucket counts each card once.
proof fn lemma_total_eq_outside(cards: Seq<u8>, e0: u8, e1: u8)
    ensures
        rank_count_total(cards, 13, e0, e1) == cards_outside(cards, e0, e1),
    decreases cards.len(),
{
    if cards.len() > 0 {
        lemma_total_eq_outside(cards.drop_last(), e0, e1);
        lemma_rank_count_total_step(cards, 13, e0, e1);
    } else {
        lemma_rank_count_total_zero(cards, 13, e0, e1);
    }
}

/// Excluding two ranks removes exactly their cards from the count.
proof fn lemma_outside_eq(cards: Seq<u8>, e0: u8, e1: u8)
    requires
        e0 != e1,
    ensures
        cards_outside(cards, e0, e1) == cards.len() - count_rank(cards, e0 as int) - count_rank(
            cards,
            e1 as int,
        ),
    decreases cards.len(),
{
    if cards.len() > 0 {
        lemma_outside_eq(cards.drop_last(), e0, e1);
    }
}

/// Where every non-excluded rank occurs at most once, the rank-bucket
/// total is exactly the number of present ranks.
proof fn lemma_total_eq_present(cards: Seq<u8>, n: int, e0: u8, e1: u8)
    requires
        n <= 13,
        forall|r: int| 0 <= r < n && r != e0 && r != e1 ==> count_rank(cards, r) <= 1,
    ensures
        rank_count_total(cards, n, e0, e1) == count_true_excl(present_any(cards), n, e0, e1),
    decreases n,
{
    if n > 0 {
        lemma_total_eq_present(cards, n - 1, e0, e1);
    }
}

proof fn lemma_count_true_excl_nonneg(p: Seq<bool>, n: int, e0: u8, e1: u8)
    ensures
        count_true_excl(p, n, e0, e1) >= 0,
    decreases n,
{
    if n > 0 {
        lemma_count_true_excl_nonneg(p, n - 1, e0, e1);
    }
}

/// A positive rank-bucket total means some non-excluded rank is
/// present.
proof fn lemma_total_pos_present(cards: Seq<u8>, n: int, e0: u8, e1: u8)
    requires
        n <= 13,
        rank_count_total(cards, n, e0, e1) >= 1,
    ensures
        count_true_excl(present_any(cards), n, e0, e1) >= 1,
    decreases n,
{
    if n > 0 {
        lemma_count_true_excl_nonneg(present_any(cards), n - 1, e0, e1);
        if n - 1 != e0 && n - 1 != e1 && count_rank(cards, n - 1) >= 1 {
        } else {
            lemma_total_pos_present(cards, n - 1, e0, e1);
        }
    }
}

/// How many of the four suits contribute a card of rank `r`.
pub open spec fn suits_with_rank(cards: Seq<u8>, r: int) -> int {
    (if cards.contains(card_of(0, r)) {
        1int
    } else {
        0int
    }) + (if cards.contains(card_of(1, r)) {
        1int
    } else {
        0int
    }) + (if cards.contains(card_of(2, r)) {
        1int
    } else {
        0int
    }) + (if cards.contains(card_of(3, r)) {
        1int
    } else {
        0int
    })
}

/// Distinct real cards of one rank differ in suit, so no rank occurs
/// more than four times.
proof fn lemma_count_rank_le_4(cards: Seq<u8>, r: int)
    requires
        0 <= r < 13,
        forall|i: int| 0 <= i < cards.len() ==> cards[i] < 52,
        forall|i: int, j: int| 0 <= i < j < cards.len() ==> cards[i] != cards[j],
    ensures
        count_rank(cards, r) == suits_with_rank(cards, r),
        count_rank(cards, r) <= 4,
    decreases cards.len(),
{
    if cards.len() == 0 {
    } else {
        let s0 = cards.drop_last();
        let c = cards.last();
        lemma_count_rank_le_4(s0, r);
        assert(cards =~= s0.push(c));
        assert forall|st: int| 0 <= st < 4 implies cards.contains(card_of(st, r)) == (s0.contains(
            card_of(st, r),
        ) || c == card_of(st, r)) by {
            lemma_contains_push(s0, c, card_of(st, r));
        }
        vstd::arithmetic::div_mod::lemma_fundamental_div_mod(c as int, 13);
        if spec_rank(c) == r {
            assert(c == card_of(spec_suit(c) as int, r));
            assert(!s0.contains(c)) by {
                if s0.contains(c) {
                    let j = choose|j: int| 0 <= j < s0.len() && s0[j] == c;
                    assert(cards[j] == cards[cards.len() - 1]);
                }
            }
            assert forall|st: int| 0 <= st < 4 && st != spec_suit(c) implies card_of(st, r)
                != c by {
                if card_of(st, r) == c {
                    vstd::arithmetic::div_mod::lemma_fundamental_div_mod_converse(
                        c as int,
                        13,
                        st,
                        r,
                    );
                }
            }
        } else {
            assert forall|st: int| 0 <= st < 4 implies card_of(st, r) != c by {
                if card_of(st, r) == c {
                    vstd::arithmetic::div_mod::lemma_fundamental_div_mod_converse(
                        c as int,
                        13,
                        st,
                        r,
                    );
                }
            }
        }
    }
}

proof fn lemma_count_true_excl_mono(p1: Seq<bool>, p2: Seq<bool>, n: int)
    requires
        forall|r: int| 0 <= r < n ==> (p1[r] ==> p2[r]),
    ensures
        count_true_excl(p2, n, 255, 255) >= count_true_excl(p1, n, 255, 255),
    decreases n,
{
    if n > 0 {
        lemma_count_true_excl_mono(p1, p2, n - 1);
    }
}

proof fn lemma_count_true_excl_flip(p1: Seq<bool>, p2: Seq<bool>, n: int, r0: int)
    requires
        n <= 255,
        forall|r: int| 0 <= r < n ==> (p1[r] ==> p2[r]),
        0 <= r0 < n,
        !p1[r0],
        p2[r0],
    ensures
        count_true_excl(p2, n, 255, 255) >= count_true_excl(p1, n, 255, 255) + 1,
    decreases n,
{
    if r0 == n - 1 {
        lemma_count_true_excl_mono(p1, p2, n - 1);
    } else {
        lemma_count_true_excl_flip(p1, p2, n - 1, r0);
    }
}

/// Each card of a suit contributes its own rank: a suit holding five
/// distinct cards has five of its ranks present.
proof fn lemma_suit_count_le_present(cards: Seq<u8>, st: int)
    requires
        0 <= st < 4,
        forall|i: int| 0 <= i < cards.len() ==> cards[i] < 52,
        forall|i: int, j: int| 0 <= i < j < cards.len() ==> cards[i] != cards[j],
    ensures
        count_suit(cards, st) <= count_true_excl(present_of_suit(cards, st), 13, 255, 255),
    decreases cards.len(),
{
    if cards.len() == 0 {
        lemma_count_true_excl_nonneg(present_of_suit(cards, st), 13, 255, 255);
    } else {
        let s0 = cards.drop_last();
        let c = cards.last();
        lemma_suit_count_le_present(s0, st);
        assert(cards =~= s0.push(c));
        let p0 = present_of_suit(s0, st);
        let p1 = present_of_suit(cards, st);
        assert forall|r: int| 0 <= r < 13 implies (p0[r] ==> p1[r]) by {
            lemma_contains_push(s0, c, card_of(st, r));
        }
        vstd::arithmetic::div_mod::lemma_fundamental_div_mod(c as int, 13);
        if spec_suit(c) == st {
            let r0 = spec_rank(c) as int;
            assert(c == card_of(st, r0));
            assert(!s0.contains(c)) by {
                if s0.contains(c) {
                    let j = choose|j: int| 0 <= j < s0.len() && s0[j] == c;
                    assert(cards[j] == cards[cards.len() - 1]);
                }
            }
            assert(p1[r0]) by {
                assert(cards[cards.len() - 1] == card_of(st, r0));
            }
            lemma_count_true_excl_flip(p0, p1, 13, r0);
        } else {
            lemma_count_true_excl_mono(p0, p1, 13);
        }
    }
}

/// Downward scan for the highest rank below `bound` whose count is `c`.
fn scan_highest_with_count(counts: &[u8; 13], bound: u8, c: u8) -> (res: u8)
    requires
        bound <= 13,
    ensures
        res == highest_with_count(counts@, bound as int, c),
{
    let mut res: u8 = 255;
    let mut h: usize = bound as usize;
    while h > 0
        invariant
            h <= bound <= 13,
            highest_with_count(counts@, bound as int, c) == if res == 255 {
                highest_with_count(counts@, h as int, c)
            } else {
                res
            },
        decreases h,
    {
        h = h - 1;
        if res == 255 && counts[h] == c {
            res = h as u8;
        }
    }
    res
}

/// Downward scan for the highest present rank below `bound`, skipping
/// the excluded ranks `e0` and `e1`.
fn scan_present_excl(p: &[bool; 13], bound: u8, e0: u8, e1: u8) -> (res: u8)
    requires
        bound <= 13,
    ensures
        res == highest_present_excl(p@, bound as int, e0, e1),
{
    let mut res: u8 = 255;
    let mut h: usize = bound as usize;
    while h > 0
        invariant
            h <= bound <= 13,
            highest_present_excl(p@, bound as int, e0, e1) == if res == 255 {
                highest_present_excl(p@, h as int, e0, e1)
            } else {
                res
            },
        decreases h,
    {
        h = h - 1;
        if res == 255 && p[h] && h as u8 != e0 && h as u8 != e1 {
            res = h as u8;
        }
    }
    res
}

/// Downward scan for the highest straight over the present ranks `p`,
/// including the wheel (high card 3) as the lowest possibility.
fn scan_straight(p: &[bool; 13]) -> (res: u8)
    ensures
        res == straight_high(p@, 12),
{
    let mut res: u8 = 255;
    let mut h: usize = 13;
    while h > 3
        invariant
            3 <= h <= 13,
            straight_high(p@, 12) == if res == 255 {
                straight_high(p@, h - 1)
            } else {
                res
            },
        decreases h,
    {
        h = h - 1;
        let hit = if h == 3 {
            p[12] && p[3] && p[2] && p[1] && p[0]
        } else {
            p[h] && p[h - 1] && p[h - 2] && p[h - 3] && p[h - 4]
        };
        if res == 255 && hit {
            res = h as u8;
        }
    }
    res
}

/// Presence scan that also accepts the sentinel 255 as bound (no rank
/// below it exists, so the scan yields 255); used to chain kicker
/// lookups, each bounded by the previous kicker found.
fn scan_below(p: &[bool; 13], bound: u8, e0: u8, e1: u8) -> (res: u8)
    requires
        bound <= 13 || bound == 255,
    ensures
        res == highest_present_excl(p@, bound as int, e0, e1),
        res == 255 || res < bound,
{
    if bound == 255 {
        255
    } else {
        let r = scan_present_excl(p, bound, e0, e1);
        proof {
            lemma_hpe_below_bound(p@, bound as int, e0, e1);
        }
        r
    }
}

/// All seven input cards are real and pairwise distinct.
pub open spec fn valid_seven(cards: Seq<u8>) -> bool {
    &&& cards.len() == 7
    &&& forall|i: int| 0 <= i < 7 ==> cards[i] < 52
    &&& forall|i: int, j: int| 0 <= i < j < 7 ==> cards[i] != cards[j]
}

/// Evaluates the best five-card hand of the seven given cards.
#[verifier::loop_isolation(false)]
#[verifier::rlimit(60)]
pub fn evaluate_7_cards(cards: [u8; 7]) -> (res: HandRank)
    requires
        valid_seven(cards@),
    ensures
        res == spec_evaluate(cards@),
{
    let ghost s = cards@;

    // Per-rank and per-suit occurrence counts.
    let mut rank_counts = [0u8; 13];
    let mut suit_counts = [0u8; 4];
    let mut i: usize = 0;
    while i < 7
        invariant
            0 <= i <= 7,
            forall|r: int| 0 <= r < 13 ==> rank_counts@[r] == count_rank(s.take(i as int), r),
            forall|st: int| 0 <= st < 4 ==> suit_counts@[st] == count_suit(s.take(i as int), st),
        decreases 7 - i,
    {
        let c = cards[i];
        proof {
            assert(s.take(i + 1).drop_last() =~= s.take(i as int));
            assert(s.take(i + 1).last() == c);
            lemma_count_rank_le_len(s.take(i as int), spec_rank(c) as int);
            lemma_count_suit_le_len(s.take(i as int), spec_suit(c) as int);
        }
        let rk = (c % 13) as usize;
        let st = (c / 13) as usize;
        rank_counts[rk] = rank_counts[rk] + 1;
        suit_counts[st] = suit_counts[st] + 1;
        i = i + 1;
    }
    proof {
        assert(s.take(7) =~= s);
        assert(rank_counts@ =~= rank_counts_of(s));
        assert(suit_counts@ =~= suit_counts_of(s));
    }

    // Which ranks occur at all.
    let mut present = [false; 13];
    let mut r: usize = 0;
    while r < 13
        invariant
            0 <= r <= 13,
            forall|q: int| 0 <= q < r ==> present@[q] == (count_rank(s, q) > 0),
        decreases 13 - r,
    {
        present[r] = rank_counts[r] > 0;
        r = r + 1;
    }
    proof {
        assert(present@ =~= present_any(s));
    }

    // Flush detection.
    let fs: u8 = if suit_counts[3] >= 5 {
        3
    } else if suit_counts[2] >= 5 {
        2
    } else if suit_counts[1] >= 5 {
        1
    } else if suit_counts[0] >= 5 {
        0
    } else {
        255
    };
    proof {
        assert(fs == flush_suit_of(s));
    }

    // Which ranks occur in the flush suit (only used when a flush exists).
    let mut suit_present = [false; 13];
    if fs != 255 {
        let mut i: usize = 0;
        while i < 7
            invariant
                0 <= i <= 7,
                fs < 4,
                forall|q: int|
                    0 <= q < 13 ==> suit_present@[q] == s.take(i as int).contains(
                        card_of(fs as int, q),
                    ),
            decreases 7 - i,
        {
            let c = cards[i];
            proof {
                assert(s.take(i + 1) =~= s.take(i as int).push(c));
                assert forall|x: u8|
                    s.take(i + 1).contains(x) == (s.take(i as int).contains(x) || c == x) by {
                    let s0 = s.take(i as int);
                    if s0.contains(x) {
                        let j = choose|j: int| 0 <= j < s0.len() && s0[j] == x;
                        assert(s0.push(c)[j] == x);
                    }
                    if c == x {
                        assert(s0.push(c)[s0.len() as int] == x);
                    }
                    if s0.push(c).contains(x) {
                        let j = choose|j: int| 0 <= j < s0.push(c).len() && s0.push(c)[j] == x;
                        if j < s0.len() {
                            assert(s0[j] == x);
                        }
                    }
                }
                assert forall|q: int| 0 <= q < 13 implies (card_of(fs as int, q) == c) == (
                spec_suit(c) == fs && spec_rank(c) == q) by {
                    vstd::arithmetic::div_mod::lemma_fundamental_div_mod(c as int, 13);
                    if card_of(fs as int, q) == c {
                        vstd::arithmetic::div_mod::lemma_fundamental_div_mod_converse(
                            c as int,
                            13,
                            fs as int,
                            q,
                        );
                    }
                }
            }
            if c / 13 == fs {
                let rk = (c % 13) as usize;
                suit_present[rk] = true;
            }
            i = i + 1;
        }
        proof {
            assert(s.take(7) =~= s);
            assert(suit_present@ =~= present_of_suit(s, fs as int));
        }
    }

    // Straight flush.
    let sf: u8 = if fs != 255 {
        scan_straight(&suit_present)
    } else {
        255
    };
    if sf != 255 {
        return HandRank::StraightFlush { high_card_rank: sf };
    }

    // Grouped ranks.
    let quad = scan_highest_with_count(&rank_counts, 13, 4);
    let trip = scan_highest_with_count(&rank_counts, 13, 3);
    let pair = scan_highest_with_count(&rank_counts, 13, 2);
    proof {
        lemma_hwc_below_bound(rank_counts@, 13, 4);
        lemma_hwc_below_bound(rank_counts@, 13, 3);
        lemma_hwc_below_bound(rank_counts@, 13, 2);
    }

    if quad != 255 {
        let kicker = scan_present_excl(&present, 13, quad, 255);
        return HandRank::FourOfAKind { quad_rank: quad, kicker_rank: kicker };
    }

    if trip != 255 && pair != 255 {
        return HandRank::FullHouse { three_rank: trip, pair_rank: pair };
    }
    if trip != 255 {
        let trip2 = scan_highest_with_count(&rank_counts, trip, 3);
        if trip2 != 255 {
            return HandRank::FullHouse { three_rank: trip, pair_rank: trip2 };
        }
    }

    if fs != 255 {
        let f0 = scan_below(&suit_present, 13, 255, 255);
        let f1 = scan_below(&suit_present, f0, 255, 255);
        let f2 = scan_below(&suit_present, f1, 255, 255);
        let f3 = scan_below(&suit_present, f2, 255, 255);
        let f4 = scan_below(&suit_present, f3, 255, 255);
        return HandRank::Flush { ranks: [f0, f1, f2, f3, f4] };
    }

    let straight = scan_straight(&present);
    if straight != 255 {
        return HandRank::Straight { high_card_rank: straight };
    }

    if trip != 255 {
        let k0 = scan_below(&present, 13, trip, 255);
        let k1 = scan_below(&present, k0, trip, 255);
        return HandRank::ThreeOfAKind { three_rank: trip, kickers: [k0, k1] };
    }

    if pair != 255 {
        let pair2 = scan_highest_with_count(&rank_counts, pair, 2);
        if pair2 != 255 {
            let kicker = scan_below(&present, 13, pair, pair2);
            return HandRank::TwoPair {
                high_pair_rank: pair,
                low_pair_rank: pair2,
                kicker_rank: kicker,
            };
        }
        let k0 = scan_below(&present, 13, pair, 255);
        let k1 = scan_below(&present, k0, pair, 255);
        let k2 = scan_below(&present, k1, pair, 255);
        return HandRank::OnePair { pair_rank: pair, kickers: [k0, k1, k2] };
    }

    let h0 = scan_below(&present, 13, 255, 255);
    let h1 = scan_below(&present, h0, 255, 255);
    let h2 = scan_below(&present, h1, 255, 255);
    let h3 = scan_below(&present, h2, 255, 255);
    let h4 = scan_below(&present, h3, 255, 255);
    HandRank::HighCard { ranks: [h0, h1, h2, h3, h4] }
}

/// Every rank value carried by the hand rank is a real rank (below 13).
pub open spec fn wf_hand_rank(h: HandRank) -> bool {
    match h {
        HandRank::StraightFlush { high_card_rank } => high_card_rank < 13,
        HandRank::FourOfAKind { quad_rank, kicker_rank } => quad_rank < 13 && kicker_rank < 13,
        HandRank::FullHouse { three_rank, pair_rank } => three_rank < 13 && pair_rank < 13,
        HandRank::Flush { ranks } => forall|i: int| 0 <= i < 5 ==> ranks[i] < 13,
        HandRank::Straight { high_card_rank } => high_card_rank < 13,
        HandRank::ThreeOfAKind { three_rank, kickers } => three_rank < 13 && kickers[0] < 13
            && kickers[1] < 13,
        HandRank::TwoPair { high_pair_rank, low_pair_rank, kicker_rank } => high_pair_rank < 13
            && low_pair_rank < 13 && kicker_rank < 13,
        HandRank::OnePair { pair_rank, kickers } => pair_rank < 13 && kickers[0] < 13 && kickers[1]
            < 13 && kickers[2] < 13,
        HandRank::HighCard { ranks } => forall|i: int| 0 <= i < 5 ==> ranks[i] < 13,
        HandRank::NoHand => true,
    }
}

/// Evaluating seven distinct real cards always yields a well-formed
/// hand rank: every carried field is a real rank.  Through the key
/// order below, the category and tie-break laws therefore apply to
/// every pair of evaluated hands.
#[verifier::rlimit(100)]
pub proof fn lemma_evaluate_wf(cards: Seq<u8>)
    requires
        valid_seven(cards),
    ensures
        wf_hand_rank(spec_evaluate(cards)),
{
    let rc = rank_counts_of(cards);
    let pa = present_any(cards);
    let fs = flush_suit_of(cards);
    let sf = if fs != 255 {
        straight_high(present_of_suit(cards, fs as int), 12)
    } else {
        255u8
    };
    let quad = highest_with_count(rc, 13, 4);
    let trip = highest_with_count(rc, 13, 3);
    let pair = highest_with_count(rc, 13, 2);
    assert forall|r: int| 0 <= r < 13 implies rc[r] == count_rank(cards, r) by {
        lemma_count_rank_le_len(cards, r);
    }
    assert forall|r: int| 0 <= r < 13 implies count_rank(cards, r) <= 4 by {
        lemma_count_rank_le_4(cards, r);
    }
    lemma_hwc_below_bound(rc, 13, 4);
    lemma_hwc_below_bound(rc, 13, 3);
    lemma_hwc_below_bound(rc, 13, 2);

    if sf != 255 {
        lemma_straight_high_range(present_of_suit(cards, fs as int), 12);
    } else if quad != 255 {
        lemma_hwc_found(rc, 13, 4);
        lemma_count_rank_big(cards, 255);
        lemma_total_eq_outside(cards, quad, 255);
        lemma_outside_eq(cards, quad, 255);
        assert(rank_count_total(cards, 13, quad, 255) == 3);
        lemma_total_pos_present(cards, 13, quad, 255);
        lemma_hpe_step(pa, 13, quad, 255);
    } else if trip != 255 && pair != 255 {
        // Both full-house fields come from bounded scans.
    } else if trip != 255 && highest_with_count(rc, trip as int, 3) != 255 {
        lemma_hwc_below_bound(rc, trip as int, 3);
    } else if fs != 255 {
        let ps = present_of_suit(cards, fs as int);
        assert(count_suit(cards, fs as int) >= 5) by {
            lemma_count_suit_le_len(cards, fs as int);
        }
        lemma_suit_count_le_present(cards, fs as int);
        lemma_hpe_step(ps, 13, 255, 255);
        let f0 = highest_present_excl(ps, 13, 255, 255);
        lemma_hpe_step(ps, f0 as int, 255, 255);
        let f1 = highest_present_excl(ps, f0 as int, 255, 255);
        lemma_hpe_step(ps, f1 as int, 255, 255);
        let f2 = highest_present_excl(ps, f1 as int, 255, 255);
        lemma_hpe_step(ps, f2 as int, 255, 255);
        let f3 = highest_present_excl(ps, f2 as int, 255, 255);
        lemma_hpe_step(ps, f3 as int, 255, 255);
    } else if straight_high(pa, 12) != 255 {
        lemma_straight_high_range(pa, 12);
    } else if trip != 255 {
        // Exactly one triple and no pair: every other rank occurs at
        // most once.
        lemma_hwc_found(rc, 13, 3);
        lemma_hwc_none(rc, trip as int, 3);
        lemma_hwc_none(rc, 13, 4);
        lemma_hwc_none(rc, 13, 2);
        assert(count_rank(cards, trip as int) == 3);
        assert forall|r: int| 0 <= r < 13 && r != trip && r != 255 implies count_rank(cards, r)
            <= 1 by {
            lemma_count_rank_le_4(cards, r);
        }
        lemma_count_rank_big(cards, 255);
        lemma_total_eq_outside(cards, trip, 255);
        lemma_outside_eq(cards, trip, 255);
        assert(rank_count_total(cards, 13, trip, 255) == 4);
        lemma_total_eq_present(cards, 13, trip, 255);
        lemma_hpe_step(pa, 13, trip, 255);
        let k0 = highest_present_excl(pa, 13, trip, 255);
        lemma_hpe_step(pa, k0 as int, trip, 255);
    } else if pair != 255 && highest_with_count(rc, pair as int, 2) != 255 {
        let pair2 = highest_with_count(rc, pair as int, 2);
        lemma_hwc_below_bound(rc, pair as int, 2);
        lemma_hwc_found(rc, 13, 2);
        lemma_hwc_found(rc, pair as int, 2);
        assert(count_rank(cards, pair as int) == 2);
        assert(count_rank(cards, pair2 as int) == 2);
        lemma_total_eq_outside(cards, pair, pair2);
        lemma_outside_eq(cards, pair, pair2);
        assert(rank_count_total(cards, 13, pair, pair2) == 3);
        lemma_total_pos_present(cards, 13, pair, pair2);
        lemma_hpe_step(pa, 13, pair, pair2);
    } else if pair != 255 {
        lemma_hwc_found(rc, 13, 2);
        lemma_hwc_none(rc, pair as int, 2);
        lemma_hwc_none(rc, 13, 4);
        lemma_hwc_none(rc, 13, 3);
        assert(count_rank(cards, pair as int) == 2);
        assert forall|r: int| 0 <= r < 13 && r != pair && r != 255 implies count_rank(cards, r)
            <= 1 by {
            lemma_count_rank_le_4(cards, r);
        }
        lemma_count_rank_big(cards, 255);
        lemma_total_eq_outside(cards, pair, 255);
        lemma_outside_eq(cards, pair, 255);
        assert(rank_count_total(cards, 13, pair, 255) == 5);
        lemma_total_eq_present(cards, 13, pair, 255);
        lemma_hpe_step(pa, 13, pair, 255);
        let k0 = highest_present_excl(pa, 13, pair, 255);
        lemma_hpe_step(pa, k0 as int, pair, 255);
        let k1 = highest_present_excl(pa, k0 as int, pair, 255);
        lemma_hpe_step(pa, k1 as int, pair, 255);
    } else {
        lemma_hwc_none(rc, 13, 4);
        lemma_hwc_none(rc, 13, 3);
        lemma_hwc_none(rc, 13, 2);
        assert forall|r: int| 0 <= r < 13 && r != 255 implies count_rank(cards, r) <= 1 by {
            lemma_count_rank_le_4(cards, r);
        }
        lemma_count_rank_big(cards, 255);
        lemma_count_rank_big(cards, 254);
        lemma_total_eq_outside(cards, 255, 255);
        lemma_outside_eq(cards, 255, 254);
        assert(cards_outside(cards, 255, 255) == cards_outside(cards, 255, 254)) by {
            lemma_outside_same(cards, 255, 254);
        }
        assert(rank_count_total(cards, 13, 255, 255) == 7);
        lemma_total_eq_present(cards, 13, 255, 255);
        lemma_hpe_step(pa, 13, 255, 255);
        let h0 = highest_present_excl(pa, 13, 255, 255);
        lemma_hpe_step(pa, h0 as int, 255, 255);
        let h1 = highest_present_excl(pa, h0 as int, 255, 255);
        lemma_hpe_step(pa, h1 as int, 255, 255);
        let h2 = highest_present_excl(pa, h1 as int, 255, 255);
        lemma_hpe_step(pa, h2 as int, 255, 255);
        let h3 = highest_present_excl(pa, h2 as int, 255, 255);
        lemma_hpe_step(pa, h3 as int, 255, 255);
    }
}

/// Two impossible rank exclusions exclude the same nothing.
proof fn lemma_outside_same(cards: Seq<u8>, ea: u8, eb: u8)
    requires
        ea >= 13,
        eb >= 13,
    ensures
        cards_outside(cards, 255, ea) == cards_outside(cards, 255, eb),
    decreases cards.len(),
{
    if cards.len() > 0 {
        lemma_outside_same(cards.drop_last(), ea, eb);
    }
}

/// The carried rank fields of the hand, packed lexicographically as
/// base-16 digits: primary group ranks first, then kickers in
/// descending order; absent fields read as 0.
pub open spec fn field_score(h: HandRank) -> int {
    match h {
        HandRank::StraightFlush { high_card_rank } => high_card_rank * 0x10000,
        HandRank::FourOfAKind { quad_rank, kicker_rank } => quad_rank * 0x10000 + kicker_rank
            * 0x1000,
        HandRank::FullHouse { three_rank, pair_rank } => three_rank * 0x10000 + pair_rank * 0x1000,
        HandRank::Flush { ranks } => ranks[0] * 0x10000 + ranks[1] * 0x1000 + ranks[2] * 0x100
            + ranks[3] * 0x10 + ranks[4],
        HandRank::Straight { high_card_rank } => high_card_rank * 0x10000,
        HandRank::ThreeOfAKind { three_rank, kickers } => three_rank * 0x10000 + kickers[0]
            * 0x1000 + kickers[1] * 0x100,
        HandRank::TwoPair { high_pair_rank, low_pair_rank, kicker_rank } => high_pair_rank
            * 0x10000 + low_pair_rank * 0x1000 + kicker_rank * 0x100,
        HandRank::OnePair { pair_rank, kickers } => pair_rank * 0x10000 + kickers[0] * 0x1000
            + kickers[1] * 0x100 + kickers[2] * 0x10,
        HandRank::HighCard { ranks } => ranks[0] * 0x10000 + ranks[1] * 0x1000 + ranks[2] * 0x100
            + ranks[3] * 0x10 + ranks[4],
        HandRank::NoHand => 0,
    }
}

/// Total strength order on evaluated hands: category first, then the
/// carried rank fields lexicographically.  Comparing two well-formed
/// hand ranks by this single number is the tie-break rule.
pub open spec fn rank_key(h: HandRank) -> int {
    spec_category(h) * 0x100000 + field_score(h)
}

/// Strength keys are never negative.
pub proof fn lemma_rank_key_nonneg(h: HandRank)
    ensures
        rank_key(h) >= 0,
{
}

/// The packed field score stays below one category step.
pub proof fn lemma_field_score_bound(h: HandRank)
    requires
        wf_hand_rank(h),
    ensures
        0 <= field_score(h) < 0x100000,
{
}

/// Categories dominate the tie-break fields: a hand of a stronger
/// category always carries the greater key.
pub proof fn lemma_category_dominates(a: HandRank, b: HandRank)
    requires
        wf_hand_rank(a),
        wf_hand_rank(b),
        spec_category(a) > spec_category(b),
    ensures
        rank_key(a) > rank_key(b),
{
    lemma_field_score_bound(a);
    lemma_field_score_bound(b);
}

/// A straight flush compares greater than any other well-formed hand.
pub proof fn lemma_straight_flush_beats_all(a: HandRank, b: HandRank)
    requires
        wf_hand_rank(a),
        wf_hand_rank(b),
        a is StraightFlush,
        !(b is StraightFlush),
    ensures
        rank_key(a) > rank_key(b),
{
    assert(spec_category(b) < 9);
    lemma_category_dominates(a, b);
}

/// Evaluated hands follow the category order: whenever two showdown
/// hands are evaluated and one comes out a straight flush while the
/// other does not, the straight flush holds the strictly greater key,
/// whatever the kickers are.
pub proof fn lemma_evaluated_straight_flush_beats(a_cards: Seq<u8>, b_cards: Seq<u8>)
    requires
        valid_seven(a_cards),
        valid_seven(b_cards),
        spec_evaluate(a_cards) is StraightFlush,
        !(spec_evaluate(b_cards) is StraightFlush),
    ensures
        rank_key(spec_evaluate(a_cards)) > rank_key(spec_evaluate(b_cards)),
{
    lemma_evaluate_wf(a_cards);
    lemma_evaluate_wf(b_cards);
    lemma_straight_flush_beats_all(spec_evaluate(a_cards), spec_evaluate(b_cards));
}

/// The single comparison number behind the tie-break order.
pub fn hand_rank_key(rank: HandRank) -> (v: u32)
    ensures
        v == rank_key(rank),
{
    let cat = hand_rank_to_u8(rank);
    let fields: u32 = match rank {
        HandRank::StraightFlush { high_card_rank } => (high_card_rank as u32) * 0x10000,
        HandRank::FourOfAKind { quad_rank, kicker_rank } => (quad_rank as u32) * 0x10000 + (
        kicker_rank as u32) * 0x1000,
        HandRank::FullHouse { three_rank, pair_rank } => (three_rank as u32) * 0x10000 + (
        pair_rank as u32) * 0x1000,
        HandRank::Flush { ranks } => (ranks[0] as u32) * 0x10000 + (ranks[1] as u32) * 0x1000 + (
        ranks[2] as u32) * 0x100 + (ranks[3] as u32) * 0x10 + (ranks[4] as u32),
        HandRank::Straight { high_card_rank } => (high_card_rank as u32) * 0x10000,
        HandRank::ThreeOfAKind { three_rank, kickers } => (three_rank as u32) * 0x10000 + (
        kickers[0] as u32) * 0x1000 + (kickers[1] as u32) * 0x100,
        HandRank::TwoPair { high_pair_rank, low_pair_rank, kicker_rank } => (high_pair_rank
            as u32) * 0x10000 + (low_pair_rank as u32) * 0x1000 + (kicker_rank as u32) * 0x100,
        HandRank::OnePair { pair_rank, kickers } => (pair_rank as u32) * 0x10000 + (kickers[0]
            as u32) * 0x1000 + (kickers[1] as u32) * 0x100 + (kickers[2] as u32) * 0x10,
        HandRank::HighCard { ranks } => (ranks[0] as u32) * 0x10000 + (ranks[1] as u32) * 0x1000
            + (ranks[2] as u32) * 0x100 + (ranks[3] as u32) * 0x10 + (ranks[4] as u32),
        HandRank::NoHand => 0,
    };
    (cat as u32) * 0x100000 + fields
}

/// Compares two evaluated hands by category, then by the carried rank
/// fields lexicographically.  Returns 1 if `rank_a` is stronger, 2 if
/// `rank_b` is stronger, 0 on a full tie.
pub fn compare_hand_ranks(rank_a: HandRank, rank_b: HandRank) -> (r: u8)
    ensures
        (r == 1) <==> rank_key(rank_a) > rank_key(rank_b),
        (r == 2) <==> rank_key(rank_a) < rank_key(rank_b),
        (r == 0) <==> rank_key(rank_a) == rank_key(rank_b),
{
    let ka = hand_rank_key(rank_a);
    let kb = hand_rank_key(rank_b);
    if ka > kb {
        1
    } else if kb > ka {
        2
    } else {
        0
    }
}

} // verus!
