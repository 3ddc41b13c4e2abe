//! Pot settlement: multi-way side-pot partitioning by all-in tiers.
//!
//! The distinct bet amounts of the seats still in the showdown cut the
//! pot into tiers.  A seat funds a tier iff its total bet reached that
//! tier's level (folded seats fund tiers as dead money but never win);
//! the tier is won by the still-active funders holding the strongest
//! evaluated hand, split equally, with any indivisible remainder going
//! to the lowest-numbered winning seat.

use vstd::prelude::*;
use vstd::arithmetic::div_mod::lemma_fundamental_div_mod;
use vstd::arithmetic::mul::lemma_mul_is_commutative;
use vstd::arithmetic::mul::lemma_mul_is_distributive_add_other_way;
use vstd::arithmetic::mul::lemma_mul_nonnegative;
use vstd::arithmetic::mul::lemma_mul_inequality;
use crate::evaluator::HandRank;
use crate::evaluator::rank_key;

verus! {

/// Number of seats at the table.
pub const MAX_PLAYERS: usize = 6;

/// Opaque identity token of a seat, used only to label the output.
#[derive(Clone, Copy, Debug, PartialEq, Eq)]
pub struct PlayerPubkey {
    pub bytes: [u8; 32],
}

/// A seat's settlement result: its identity and what it won.
#[derive(Clone, Copy, Debug, PartialEq, Eq)]
pub struct WinnerInfo {
    pub player_pubkey: PlayerPubkey,
    pub amount_won: u64,
}

/// The strength keys of the seats' evaluated hands.
pub open spec fn keys_of(ranks: Seq<HandRank>) -> Seq<int> {
    Seq::new(ranks.len(), |i: int| rank_key(ranks[i]))
}

/// Sum of all bets.
pub open spec fn sum_bets(bets: Seq<u64>) -> int
    decreases bets.len(),
{
    if bets.len() == 0 {
        0
    } else {
        sum_bets(bets.drop_last()) + bets.last()
    }
}

/// Seat `i` funded the tier level `t` and is still in the showdown.
pub open spec fn elig(bets: Seq<u64>, active: Seq<bool>, t: int, i: int) -> bool {
    active[i] && bets[i] >= t
}

/// The lowest bet above `prev` among the first `n` active seats;
/// -1 if no active seat bet more than `prev`.
pub open spec fn min_active_above(bets: Seq<u64>, active: Seq<bool>, prev: int, n: int) -> int
    decreases n,
{
    if n <= 0 {
        -1
    } else {
        let rest = min_active_above(bets, active, prev, n - 1);
        if active[n - 1] && bets[n - 1] > prev && (rest == -1 || bets[n - 1] < rest) {
            bets[n - 1] as int
        } else {
            rest
        }
    }
}

/// How many of the first `n` seats bet at least `t` (active or not).
pub open spec fn count_ge(bets: Seq<u64>, t: int, n: int) -> int
    decreases n,
{
    if n <= 0 {
        0
    } else {
        count_ge(bets, t, n - 1) + if bets[n - 1] >= t {
            1int
        } else {
            0int
        }
    }
}

/// The strongest key among the first `n` seats eligible at level `t`;
/// -1 if none is eligible.
pub open spec fn max_key_elig(
    bets: Seq<u64>,
    keys: Seq<int>,
    active: Seq<bool>,
    t: int,
    n: int,
) -> int
    decreases n,
{
    if n <= 0 {
        -1
    } else {
        let rest = max_key_elig(bets, keys, active, t, n - 1);
        if elig(bets, active, t, n - 1) && keys[n - 1] > rest {
            keys[n - 1]
        } else {
            rest
        }
    }
}

/// How many of the first `n` seats are eligible at `t` with key `k`.
pub open spec fn count_eq_key(
    bets: Seq<u64>,
    keys: Seq<int>,
    active: Seq<bool>,
    t: int,
    k: int,
    n: int,
) -> int
    decreases n,
{
    if n <= 0 {
        0
    } else {
        count_eq_key(bets, keys, active, t, k, n - 1) + if elig(bets, active, t, n - 1) && keys[n
            - 1] == k {
            1int
        } else {
            0int
        }
    }
}

/// The lowest-numbered seat below `n` eligible at `t` with key `k`;
/// -1 if none.
pub open spec fn first_eq_key(
    bets: Seq<u64>,
    keys: Seq<int>,
    active: Seq<bool>,
    t: int,
    k: int,
    n: int,
) -> int
    decreases n,
{
    if n <= 0 {
        -1
    } else {
        let rest = first_eq_key(bets, keys, active, t, k, n - 1);
        if rest != -1 {
            rest
        } else if elig(bets, active, t, n - 1) && keys[n - 1] == k {
            n - 1
        } else {
            -1
        }
    }
}

/// The chips a tier holds: its increment times the number of seats,
/// active or not, whose bet reached its level.
pub open spec fn tier_pot(bets: Seq<u64>, lo: int, hi: int) -> int {
    (hi - lo) * count_ge(bets, hi, 6)
}

/// What seat `i` wins from the tier `(lo, hi]`: winners split the tier
/// pot evenly; the lowest-numbered winner also takes the remainder.
pub open spec fn seat_tier_payout(
    bets: Seq<u64>,
    keys: Seq<int>,
    active: Seq<bool>,
    lo: int,
    hi: int,
    i: int,
) -> int {
    let mk = max_key_elig(bets, keys, active, hi, 6);
    let nw = count_eq_key(bets, keys, active, hi, mk, 6);
    let pot = tier_pot(bets, lo, hi);
    if elig(bets, active, hi, i) && keys[i] == mk {
        pot / nw + if i == first_eq_key(bets, keys, active, hi, mk, 6) {
            pot % nw
        } else {
            0int
        }
    } else {
        0
    }
}

/// Seat `i`'s total winnings over the tiers whose levels lie above
/// `prev`, walking the levels upward while `fuel` lasts.
pub open spec fn payout_from(
    bets: Seq<u64>,
    keys: Seq<int>,
    active: Seq<bool>,
    prev: int,
    fuel: nat,
    i: int,
) -> int
    decreases fuel,
{
    let nxt = min_active_above(bets, active, prev, 6);
    if fuel == 0 || nxt == -1 {
        0
    } else {
        seat_tier_payout(bets, keys, active, prev, nxt, i) + payout_from(
            bets,
            keys,
            active,
            nxt,
            (fuel - 1) as nat,
            i,
        )
    }
}

/// Seat `i`'s total settlement payout.  Six levels of fuel always
/// suffice: each tier level is a distinct active bet amount, and there
/// are at most six active seats.
pub open spec fn spec_payout(bets: Seq<u64>, keys: Seq<int>, active: Seq<bool>, i: int) -> int {
    payout_from(bets, keys, active, 0, 6, i)
}

/// The chips the tiers hold in total, walking levels as `payout_from`
/// does.
pub open spec fn total_pot_from(
    bets: Seq<u64>,
    active: Seq<bool>,
    prev: int,
    fuel: nat,
) -> int
    decreases fuel,
{
    let nxt = min_active_above(bets, active, prev, 6);
    if fuel == 0 || nxt == -1 {
        0
    } else {
        tier_pot(bets, prev, nxt) + total_pot_from(bets, active, nxt, (fuel - 1) as nat)
    }
}

/// The whole pot as the settlement carves it up.
pub open spec fn spec_total_pot(bets: Seq<u64>, active: Seq<bool>) -> int {
    total_pot_from(bets, active, 0, 6)
}

/// How many of the first `n` active seats bet strictly more than `t`.
pub open spec fn count_active_gt(bets: Seq<u64>, active: Seq<bool>, t: int, n: int) -> int
    decreases n,
{
    if n <= 0 {
        0
    } else {
        count_active_gt(bets, active, t, n - 1) + if active[n - 1] && bets[n - 1] > t {
            1int
        } else {
            0int
        }
    }
}

/// What the seats still owe above level `t`: the sum of the parts of
/// the bets exceeding `t`.
pub open spec fn sum_excess(bets: Seq<u64>, t: int, n: int) -> int
    decreases n,
{
    if n <= 0 {
        0
    } else {
        sum_excess(bets, t, n - 1) + if bets[n - 1] > t {
            bets[n - 1] - t
        } else {
            0int
        }
    }
}

pub proof fn lemma_count_ge_bounds(bets: Seq<u64>, t: int, n: int)
    ensures
        0 <= count_ge(bets, t, n) <= if n >= 0 {
            n
        } else {
            0
        },
    decreases n,
{
    if n > 0 {
        lemma_count_ge_bounds(bets, t, n - 1);
    }
}

pub proof fn lemma_count_eq_key_nonneg(
    bets: Seq<u64>,
    keys: Seq<int>,
    active: Seq<bool>,
    t: int,
    k: int,
    n: int,
)
    ensures
        count_eq_key(bets, keys, active, t, k, n) >= 0,
    decreases n,
{
    if n > 0 {
        lemma_count_eq_key_nonneg(bets, keys, active, t, k, n - 1);
    }
}

/// A positive level scan names an active bet above `prev`.
pub proof fn lemma_mab_props(bets: Seq<u64>, active: Seq<bool>, prev: int, n: int)
    ensures
        min_active_above(bets, active, prev, n) == -1 || (min_active_above(bets, active, prev, n)
            > prev && exists|w: int|
            0 <= w < n && active[w] && bets[w] == min_active_above(bets, active, prev, n)),
    decreases n,
{
    if n > 0 {
        lemma_mab_props(bets, active, prev, n - 1);
    }
}

pub proof fn lemma_count_active_gt_le(
    bets: Seq<u64>,
    active: Seq<bool>,
    t1: int,
    t2: int,
    n: int,
)
    requires
        t1 <= t2,
    ensures
        count_active_gt(bets, active, t2, n) <= count_active_gt(bets, active, t1, n),
    decreases n,
{
    if n > 0 {
        lemma_count_active_gt_le(bets, active, t1, t2, n - 1);
    }
}

/// Moving the floor up to an attained active bet value strictly drops
/// the number of active seats betting above the floor.
pub proof fn lemma_count_active_gt_strict(
    bets: Seq<u64>,
    active: Seq<bool>,
    prev: int,
    nxt: int,
    w: int,
    n: int,
)
    requires
        prev < nxt,
        0 <= w < n,
        active[w],
        bets[w] == nxt,
    ensures
        count_active_gt(bets, active, nxt, n) < count_active_gt(bets, active, prev, n),
    decreases n,
{
    if w == n - 1 {
        lemma_count_active_gt_le(bets, active, prev, nxt, n - 1);
    } else {
        lemma_count_active_gt_strict(bets, active, prev, nxt, w, n - 1);
    }
}

pub proof fn lemma_count_active_gt_bound(bets: Seq<u64>, active: Seq<bool>, t: int, n: int)
    ensures
        0 <= count_active_gt(bets, active, t, n) <= if n >= 0 {
            n
        } else {
            0
        },
    decreases n,
{
    if n > 0 {
        lemma_count_active_gt_bound(bets, active, t, n - 1);
    }
}

pub proof fn lemma_count_active_gt_pos(
    bets: Seq<u64>,
    active: Seq<bool>,
    t: int,
    n: int,
    w: int,
)
    requires
        0 <= w < n,
        active[w],
        bets[w] > t,
    ensures
        count_active_gt(bets, active, t, n) >= 1,
    decreases n,
{
    lemma_count_active_gt_bound(bets, active, t, n - 1);
    if w < n - 1 {
        lemma_count_active_gt_pos(bets, active, t, n - 1, w);
    }
}

/// The strongest eligible key is at least every eligible seat's key.
pub proof fn lemma_max_key_ge(
    bets: Seq<u64>,
    keys: Seq<int>,
    active: Seq<bool>,
    t: int,
    n: int,
    w: int,
)
    requires
        0 <= w < n,
        elig(bets, active, t, w),
    ensures
        max_key_elig(bets, keys, active, t, n) >= keys[w],
    decreases n,
{
    if w < n - 1 {
        lemma_max_key_ge(bets, keys, active, t, n - 1, w);
    }
}

/// The strongest eligible key is attained by some eligible seat.
pub proof fn lemma_max_key_witness(
    bets: Seq<u64>,
    keys: Seq<int>,
    active: Seq<bool>,
    t: int,
    n: int,
)
    ensures
        max_key_elig(bets, keys, active, t, n) == -1 || exists|w: int|
            0 <= w < n && elig(bets, active, t, w) && keys[w] == max_key_elig(
                bets,
                keys,
                active,
                t,
                n,
            ),
    decreases n,
{
    if n > 0 {
        lemma_max_key_witness(bets, keys, active, t, n - 1);
    }
}

/// At least one seat holds the key `k` if some eligible seat does.
pub proof fn lemma_count_eq_key_pos(
    bets: Seq<u64>,
    keys: Seq<int>,
    active: Seq<bool>,
    t: int,
    k: int,
    n: int,
    w: int,
)
    requires
        0 <= w < n,
        elig(bets, active, t, w),
        keys[w] == k,
    ensures
        count_eq_key(bets, keys, active, t, k, n) >= 1,
    decreases n,
{
    lemma_count_eq_key_nonneg(bets, keys, active, t, k, n - 1);
    if w < n - 1 {
        lemma_count_eq_key_pos(bets, keys, active, t, k, n - 1, w);
    }
}

/// The first seat holding key `k` exists exactly when some seat holds
/// it, and is itself eligible with that key.
pub proof fn lemma_first_eq_key_props(
    bets: Seq<u64>,
    keys: Seq<int>,
    active: Seq<bool>,
    t: int,
    k: int,
    n: int,
)
    ensures
        first_eq_key(bets, keys, active, t, k, n) == -1 ==> count_eq_key(
            bets,
            keys,
            active,
            t,
            k,
            n,
        ) == 0,
        first_eq_key(bets, keys, active, t, k, n) != -1 ==> {
            let f = first_eq_key(bets, keys, active, t, k, n);
            0 <= f < n && elig(bets, active, t, f) && keys[f] == k
        },
    decreases n,
{
    if n > 0 {
        lemma_first_eq_key_props(bets, keys, active, t, k, n - 1);
    }
}

/// What one seat takes from a tier is between nothing and the whole
/// tier pot.
pub proof fn lemma_seat_tier_payout_bounds(
    bets: Seq<u64>,
    keys: Seq<int>,
    active: Seq<bool>,
    lo: int,
    hi: int,
    i: int,
)
    requires
        lo < hi,
        0 <= i < 6,
    ensures
        0 <= seat_tier_payout(bets, keys, active, lo, hi, i) <= tier_pot(bets, lo, hi),
{
    let mk = max_key_elig(bets, keys, active, hi, 6);
    let nw = count_eq_key(bets, keys, active, hi, mk, 6);
    let pot = tier_pot(bets, lo, hi);
    lemma_count_ge_bounds(bets, hi, 6);
    lemma_mul_nonnegative(hi - lo, count_ge(bets, hi, 6));
    if elig(bets, active, hi, i) && keys[i] == mk {
        lemma_count_eq_key_pos(bets, keys, active, hi, mk, 6, i);
        lemma_fundamental_div_mod(pot, nw);
        vstd::arithmetic::div_mod::lemma_div_pos_is_pos(pot, nw);
        vstd::arithmetic::div_mod::lemma_mod_pos_bound(pot, nw);
        lemma_mul_inequality(1, nw, pot / nw);
    }
}

/// A seat's winnings lie between nothing and the whole pot.
pub proof fn lemma_payout_from_bounds(
    bets: Seq<u64>,
    keys: Seq<int>,
    active: Seq<bool>,
    prev: int,
    fuel: nat,
    i: int,
)
    requires
        0 <= i < 6,
    ensures
        0 <= payout_from(bets, keys, active, prev, fuel, i) <= total_pot_from(
            bets,
            active,
            prev,
            fuel,
        ),
    decreases fuel,
{
    let nxt = min_active_above(bets, active, prev, 6);
    if fuel > 0 && nxt != -1 {
        lemma_mab_props(bets, active, prev, 6);
        lemma_seat_tier_payout_bounds(bets, keys, active, prev, nxt, i);
        lemma_payout_from_bounds(bets, keys, active, nxt, (fuel - 1) as nat, i);
    }
}

pub proof fn lemma_sum_excess_nonneg(bets: Seq<u64>, t: int, n: int)
    ensures
        sum_excess(bets, t, n) >= 0,
    decreases n,
{
    if n > 0 {
        lemma_sum_excess_nonneg(bets, t, n - 1);
    }
}

/// Raising the floor from `prev` to `nxt` frees at least the tier pot
/// of `(prev, nxt]` out of the outstanding excess.
pub proof fn lemma_sum_excess_step(bets: Seq<u64>, prev: int, nxt: int, n: int)
    requires
        0 <= prev < nxt,
    ensures
        sum_excess(bets, prev, n) >= sum_excess(bets, nxt, n) + (nxt - prev) * count_ge(
            bets,
            nxt,
            n,
        ),
    decreases n,
{
    if n <= 0 {
        assert((nxt - prev) * 0 == 0) by (nonlinear_arith);
    } else {
        lemma_sum_excess_step(bets, prev, nxt, n - 1);
        let c = count_ge(bets, nxt, n - 1);
        if bets[n - 1] >= nxt {
            assert((nxt - prev) * (c + 1) == (nxt - prev) * c + (nxt - prev)) by {
                lemma_mul_is_distributive_add_other_way(nxt - prev, c, 1);
                assert((c + 1) * (nxt - prev) == c * (nxt - prev) + 1 * (nxt - prev));
                lemma_mul_is_commutative(nxt - prev, c + 1);
                lemma_mul_is_commutative(nxt - prev, c);
            }
        }
    }
}

/// The tiers never hold more than the bets put in.
pub proof fn lemma_total_pot_le_excess(
    bets: Seq<u64>,
    active: Seq<bool>,
    prev: int,
    fuel: nat,
)
    requires
        prev >= 0,
    ensures
        total_pot_from(bets, active, prev, fuel) <= sum_excess(bets, prev, 6),
    decreases fuel,
{
    let nxt = min_active_above(bets, active, prev, 6);
    if fuel == 0 || nxt == -1 {
        lemma_sum_excess_nonneg(bets, prev, 6);
    } else {
        lemma_mab_props(bets, active, prev, 6);
        lemma_total_pot_le_excess(bets, active, nxt, (fuel - 1) as nat);
        lemma_sum_excess_step(bets, prev, nxt, 6);
    }
}

/// With the floor at zero the outstanding excess is the whole sum of
/// the bets.
pub proof fn lemma_sum_excess_zero(bets: Seq<u64>, n: int)
    requires
        0 <= n <= bets.len(),
    ensures
        sum_excess(bets, 0, n) == sum_bets(bets.take(n)),
    decreases n,
{
    if n > 0 {
        lemma_sum_excess_zero(bets, n - 1);
        assert(bets.take(n).drop_last() =~= bets.take(n - 1));
    }
}

/// No seat wins more than the pot holds, and the pot holds no more
/// than the bets put in.
pub proof fn lemma_payout_le_sum_bets(
    bets: Seq<u64>,
    keys: Seq<int>,
    active: Seq<bool>,
    i: int,
)
    requires
        0 <= i < 6,
        bets.len() == 6,
    ensures
        0 <= spec_payout(bets, keys, active, i) <= spec_total_pot(bets, active),
        spec_total_pot(bets, active) <= sum_bets(bets),
{
    lemma_payout_from_bounds(bets, keys, active, 0, 6, i);
    lemma_total_pot_le_excess(bets, active, 0, 6);
    lemma_sum_excess_zero(bets, 6);
    assert(bets.take(6) =~= bets);
}

/// Finds the lowest active bet above `prev`: the next tier level.
fn find_next_level(player_bets: &[u64; 6], active_players: &[bool; 6], prev: u64) -> (res: (
    bool,
    u64,
))
    ensures
        res.0 ==> res.1 > prev && res.1 as int == min_active_above(
            player_bets@,
            active_players@,
            prev as int,
            6,
        ),
        !res.0 ==> min_active_above(player_bets@, active_players@, prev as int, 6) == -1,
{
    let mut nxt: u64 = 0;
    let mut have = false;
    let mut s: usize = 0;
    while s < 6
        invariant
            s <= 6,
            have ==> nxt > prev && nxt as int == min_active_above(
                player_bets@,
                active_players@,
                prev as int,
                s as int,
            ),
            !have ==> min_active_above(player_bets@, active_players@, prev as int, s as int)
                == -1,
        decreases 6 - s,
    {
        if active_players[s] && player_bets[s] > prev && (!have || player_bets[s] < nxt) {
            nxt = player_bets[s];
            have = true;
        }
        s = s + 1;
    }
    (have, nxt)
}

/// Settles the showdown.  Walks the distinct bet levels of the active
/// seats upward; each level's tier pot is funded by every seat whose
/// bet reached the level and is split evenly among the still-active
/// funders with the strongest hand, the lowest-numbered of them taking
/// the indivisible remainder.  Returns one entry per seat, in seat
/// order, carrying the seat's identity and its total winnings.
#[verifier::loop_isolation(false)]
#[verifier::rlimit(100)]
pub fn calculate_payouts(
    player_bets: [u64; 6],
    player_ranks: [HandRank; 6],
    active_players: [bool; 6],
    player_pubkeys: [PlayerPubkey; 6],
) -> (results: [WinnerInfo; 6])
    requires
        sum_bets(player_bets@) <= u64::MAX,
    ensures
        forall|i: int|
            0 <= i < 6 ==> results[i].amount_won == spec_payout(
                player_bets@,
                keys_of(player_ranks@),
                active_players@,
                i,
            ),
        forall|i: int| 0 <= i < 6 ==> results[i].player_pubkey == player_pubkeys[i],
{
    let ghost bets = player_bets@;
    let ghost keys = keys_of(player_ranks@);
    let ghost act = active_players@;

    // Strength key of every seat's evaluated hand.
    let mut key_arr = [0u32; 6];
    let mut i: usize = 0;
    while i < 6
        invariant
            i <= 6,
            forall|j: int| 0 <= j < i ==> key_arr@[j] == keys[j],
        decreases 6 - i,
    {
        key_arr[i] = crate::evaluator::hand_rank_key(player_ranks[i]);
        i = i + 1;
    }

    let mut payouts = [0u128; 6];
    let mut prev: u64 = 0;
    let ghost mut fuel_left: nat = 6;
    proof {
        lemma_count_active_gt_bound(bets, act, 0, 6);
    }
    let next = find_next_level(&player_bets, &active_players, prev);
    let mut have = next.0;
    let mut nxt = next.1;
    while have
        invariant
            fuel_left <= 6,
            count_active_gt(bets, act, prev as int, 6) <= fuel_left as int,
            have ==> nxt > prev && nxt as int == min_active_above(bets, act, prev as int, 6),
            !have ==> min_active_above(bets, act, prev as int, 6) == -1,
            forall|j: int|
                0 <= j < 6 ==> payouts@[j] + payout_from(bets, keys, act, prev as int, fuel_left, j)
                    == spec_payout(bets, keys, act, j),
            forall|j: int| 0 <= j < 6 ==> payouts@[j] <= 0xFFFFFFFFFFFFFFFFu128,
        decreases fuel_left,
    {
        proof {
            lemma_mab_props(bets, act, prev as int, 6);
            let w = choose|w: int| 0 <= w < 6 && act[w] && bets[w] == nxt as int;
            lemma_count_active_gt_pos(bets, act, prev as int, 6, w);
        }

        // How many seats (active or not) fund this tier.
        let mut cnt: u64 = 0;
        let mut s: usize = 0;
        while s < 6
            invariant
                s <= 6,
                cnt as int == count_ge(bets, nxt as int, s as int),
                cnt <= s as u64,
            decreases 6 - s,
        {
            if player_bets[s] >= nxt {
                cnt = cnt + 1;
            }
            s = s + 1;
        }

        // The strongest key among the eligible seats.
        let mut mk: u32 = 0;
        let mut have_mk = false;
        let mut s: usize = 0;
        while s < 6
            invariant
                s <= 6,
                have_mk ==> mk as int == max_key_elig(bets, keys, act, nxt as int, s as int),
                !have_mk ==> max_key_elig(bets, keys, act, nxt as int, s as int) == -1,
            decreases 6 - s,
        {
            proof {
                crate::evaluator::lemma_rank_key_nonneg(player_ranks@[s as int]);
            }
            if active_players[s] && player_bets[s] >= nxt && (!have_mk || key_arr[s] > mk) {
                mk = key_arr[s];
                have_mk = true;
            }
            s = s + 1;
        }
        proof {
            let w = choose|w: int| 0 <= w < 6 && act[w] && bets[w] == nxt as int;
            assert(elig(bets, act, nxt as int, w));
            lemma_max_key_ge(bets, keys, act, nxt as int, 6, w);
            crate::evaluator::lemma_rank_key_nonneg(player_ranks@[w]);
            assert(have_mk);
        }

        // The winners: eligible seats holding the strongest key.
        let mut nw: u64 = 0;
        let mut s: usize = 0;
        while s < 6
            invariant
                s <= 6,
                nw as int == count_eq_key(bets, keys, act, nxt as int, mk as int, s as int),
                nw <= s as u64,
            decreases 6 - s,
        {
            if active_players[s] && player_bets[s] >= nxt && key_arr[s] == mk {
                nw = nw + 1;
            }
            s = s + 1;
        }
        proof {
            lemma_max_key_witness(bets, keys, act, nxt as int, 6);
            let w = choose|w: int|
                0 <= w < 6 && elig(bets, act, nxt as int, w) && keys[w] == mk as int;
            lemma_count_eq_key_pos(bets, keys, act, nxt as int, mk as int, 6, w);
        }

        // The lowest-numbered winner takes the remainder.
        let mut fw: usize = 6;
        let mut s: usize = 0;
        while s < 6
            invariant
                s <= 6,
                fw == 6 ==> first_eq_key(bets, keys, act, nxt as int, mk as int, s as int) == -1,
                fw != 6 ==> fw as int == first_eq_key(bets, keys, act, nxt as int, mk as int,
                    s as int,
                ),
            decreases 6 - s,
        {
            if fw == 6 && active_players[s] && player_bets[s] >= nxt && key_arr[s] == mk {
                fw = s;
            }
            s = s + 1;
        }
        proof {
            lemma_first_eq_key_props(bets, keys, act, nxt as int, mk as int, 6);
            assert(fw != 6);
        }

        // Tier pot and the even split.
        proof {
            assert(((nxt - prev) as u128) * (cnt as u128) <= 6 * 0xFFFFFFFFFFFFFFFFu128)
                by (nonlinear_arith)
                requires
                    (nxt - prev) as u128 <= 0xFFFFFFFFFFFFFFFFu128,
                    0 <= cnt as u128 <= 6,
            ;
        }
        let pot: u128 = ((nxt - prev) as u128) * (cnt as u128);
        proof {
            assert(pot as int == tier_pot(bets, prev as int, nxt as int));
        }
        let nwu: u128 = nw as u128;
        let share: u128 = pot / nwu;
        let rem: u128 = pot % nwu;
        proof {
            lemma_fundamental_div_mod(pot as int, nwu as int);
            vstd::arithmetic::div_mod::lemma_div_pos_is_pos(pot as int, nwu as int);
            lemma_mul_inequality(1, nwu as int, pot as int / nwu as int);
            assert(share + rem <= pot);
        }

        // Hand each winner its share.
        let ghost pre = payouts@;
        let mut s: usize = 0;
        while s < 6
            invariant
                s <= 6,
                share + rem <= pot <= 6 * 0xFFFFFFFFFFFFFFFFu128,
                forall|j: int| 0 <= j < 6 ==> pre[j] <= 0xFFFFFFFFFFFFFFFFu128,
                forall|j: int| s <= j < 6 ==> payouts@[j] == pre[j],
                forall|j: int|
                    0 <= j < s ==> payouts@[j] == pre[j] + seat_tier_payout(
                        bets,
                        keys,
                        act,
                        prev as int,
                        nxt as int,
                        j,
                    ),
            decreases 6 - s,
        {
            if active_players[s] && player_bets[s] >= nxt && key_arr[s] == mk {
                let add: u128 = if s == fw {
                    share + rem
                } else {
                    share
                };
                proof {
                    assert(payouts@[s as int] == pre[s as int]);
                    assert(payouts@[s as int] <= 0xFFFFFFFFFFFFFFFFu128);
                    assert(add <= 6 * 0xFFFFFFFFFFFFFFFFu128);
                }
                payouts[s] = payouts[s] + add;
            }
            s = s + 1;
        }

        // Step the ghost level walk.
        proof {
            let w = choose|w: int| 0 <= w < 6 && act[w] && bets[w] == nxt as int;
            lemma_count_active_gt_strict(bets, act, prev as int, nxt as int, w, 6);
            fuel_left = (fuel_left - 1) as nat;
            assert forall|j: int| 0 <= j < 6 implies payouts@[j] + payout_from(
                bets,
                keys,
                act,
                nxt as int,
                fuel_left,
                j,
            ) == spec_payout(bets, keys, act, j) by {
                lemma_payout_from_bounds(bets, keys, act, nxt as int, fuel_left, j);
            }
            assert forall|j: int| 0 <= j < 6 implies payouts@[j]
                <= 0xFFFFFFFFFFFFFFFFu128 by {
                lemma_payout_from_bounds(bets, keys, act, nxt as int, fuel_left, j);
                lemma_payout_le_sum_bets(bets, keys, act, j);
            }
        }
        prev = nxt;
        let next = find_next_level(&player_bets, &active_players, prev);
        have = next.0;
        nxt = next.1;
    }

    // The level walk is exhausted: the accumulators hold the payouts.
    proof {
        assert forall|j: int| 0 <= j < 6 implies payouts@[j] == spec_payout(bets, keys, act, j) by {
            assert(payout_from(bets, keys, act, prev as int, fuel_left, j) == 0);
        }
    }
    let mut results = [WinnerInfo {
        player_pubkey: PlayerPubkey { bytes: [0u8; 32] },
        amount_won: 0u64,
    }; 6];
    let mut i: usize = 0;
    while i < 6
        invariant
            i <= 6,
            forall|j: int|
                0 <= j < i ==> results@[j].amount_won == spec_payout(bets, keys, act, j),
            forall|j: int| 0 <= j < i ==> results@[j].player_pubkey == player_pubkeys@[j],
        decreases 6 - i,
    {
        proof {
            lemma_payout_le_sum_bets(bets, keys, act, i as int);
            assert(payouts@[i as int] == spec_payout(bets, keys, act, i as int));
            assert(payouts@[i as int] <= u64::MAX);
        }
        let amount = payouts[i] as u64;
        proof {
            assert(amount == spec_payout(bets, keys, act, i as int));
        }
        results[i] = WinnerInfo { player_pubkey: player_pubkeys[i], amount_won: amount };
        proof {
            assert(results@[i as int].amount_won == spec_payout(bets, keys, act, i as int));
        }
        i = i + 1;
    }
    results
}

/// What the first `n` seats take from the tier `(lo, hi]`, combined.
pub open spec fn sum_tier_payout(
    bets: Seq<u64>,
    keys: Seq<int>,
    active: Seq<bool>,
    lo: int,
    hi: int,
    n: int,
) -> int
    decreases n,
{
    if n <= 0 {
        0
    } else {
        sum_tier_payout(bets, keys, active, lo, hi, n - 1) + seat_tier_payout(
            bets,
            keys,
            active,
            lo,
            hi,
            n - 1,
        )
    }
}

/// What the first `n` seats win over all tiers above `prev`, combined.
pub open spec fn sum_payout_from(
    bets: Seq<u64>,
    keys: Seq<int>,
    active: Seq<bool>,
    prev: int,
    fuel: nat,
    n: int,
) -> int
    decreases n,
{
    if n <= 0 {
        0
    } else {
        sum_payout_from(bets, keys, active, prev, fuel, n - 1) + payout_from(
            bets,
            keys,
            active,
            prev,
            fuel,
            n - 1,
        )
    }
}

/// The whole settlement output: all six seats' winnings combined.
pub open spec fn sum_payouts(bets: Seq<u64>, keys: Seq<int>, active: Seq<bool>) -> int {
    sum_payout_from(bets, keys, active, 0, 6, 6)
}

/// A tier with an eligible winner is distributed exactly: the even
/// shares and the remainder add up to the whole tier pot.
proof fn lemma_sum_tier_total(
    bets: Seq<u64>,
    keys: Seq<int>,
    active: Seq<bool>,
    lo: int,
    hi: int,
    n: int,
)
    requires
        lo < hi,
        max_key_elig(bets, keys, active, hi, 6) != -1,
        0 <= n <= 6,
    ensures
        sum_tier_payout(bets, keys, active, lo, hi, n) == tier_pot(bets, lo, hi) / count_eq_key(
            bets,
            keys,
            active,
            hi,
            max_key_elig(bets, keys, active, hi, 6),
            6,
        ) * count_eq_key(bets, keys, active, hi, max_key_elig(bets, keys, active, hi, 6), n) + if 0
            <= first_eq_key(bets, keys, active, hi, max_key_elig(bets, keys, active, hi, 6), 6)
            < n {
            tier_pot(bets, lo, hi) % count_eq_key(
                bets,
                keys,
                active,
                hi,
                max_key_elig(bets, keys, active, hi, 6),
                6,
            )
        } else {
            0int
        },
    decreases n,
{
    let mk = max_key_elig(bets, keys, active, hi, 6);
    let nw = count_eq_key(bets, keys, active, hi, mk, 6);
    let pot = tier_pot(bets, lo, hi);
    let share = pot / nw;
    if n > 0 {
        lemma_sum_tier_total(bets, keys, active, lo, hi, n - 1);
        lemma_first_eq_key_props(bets, keys, active, hi, mk, 6);
        let c = count_eq_key(bets, keys, active, hi, mk, n - 1);
        if elig(bets, active, hi, n - 1) && keys[n - 1] == mk {
            assert(share * (c + 1) == share * c + share) by {
                lemma_mul_is_distributive_add_other_way(share, c, 1);
                lemma_mul_is_commutative(share, c + 1);
                lemma_mul_is_commutative(share, c);
            }
        }
    }
}

/// Every tier that the level walk visits is fully distributed, so the
/// seats' combined winnings equal the combined tier pots.
proof fn lemma_sum_payout_total(
    bets: Seq<u64>,
    keys: Seq<int>,
    active: Seq<bool>,
    prev: int,
    fuel: nat,
)
    requires
        forall|i: int| 0 <= i < 6 ==> keys[i] >= 0,
    ensures
        sum_payout_from(bets, keys, active, prev, fuel, 6) == total_pot_from(
            bets,
            active,
            prev,
            fuel,
        ),
    decreases fuel,
{
    let nxt = min_active_above(bets, active, prev, 6);
    if fuel == 0 || nxt == -1 {
        assert forall|n: int| 0 <= n <= 6 implies sum_payout_from(bets, keys, active, prev, fuel, n)
            == 0 by {
            lemma_sum_payout_zero(bets, keys, active, prev, fuel, n);
        }
    } else {
        lemma_mab_props(bets, active, prev, 6);
        let w = choose|w: int| 0 <= w < 6 && active[w] && bets[w] == nxt;
        assert(elig(bets, active, nxt, w));
        lemma_max_key_ge(bets, keys, active, nxt, 6, w);
        let mk = max_key_elig(bets, keys, active, nxt, 6);
        assert(mk >= keys[w] >= 0);
        lemma_max_key_witness(bets, keys, active, nxt, 6);
        let ww = choose|ww: int| 0 <= ww < 6 && elig(bets, active, nxt, ww) && keys[ww] == mk;
        lemma_count_eq_key_pos(bets, keys, active, nxt, mk, 6, ww);
        lemma_first_eq_key_props(bets, keys, active, nxt, mk, 6);
        let nw = count_eq_key(bets, keys, active, nxt, mk, 6);
        let pot = tier_pot(bets, prev, nxt);
        lemma_sum_split(bets, keys, active, prev, fuel, 6);
        lemma_sum_tier_total(bets, keys, active, prev, nxt, 6);
        lemma_fundamental_div_mod(pot, nw);
        lemma_mul_is_commutative(pot / nw, nw);
        lemma_sum_payout_total(bets, keys, active, nxt, (fuel - 1) as nat);
    }
}

proof fn lemma_sum_payout_zero(
    bets: Seq<u64>,
    keys: Seq<int>,
    active: Seq<bool>,
    prev: int,
    fuel: nat,
    n: int,
)
    requires
        fuel == 0 || min_active_above(bets, active, prev, 6) == -1,
    ensures
        sum_payout_from(bets, keys, active, prev, fuel, n) == 0,
    decreases n,
{
    if n > 0 {
        lemma_sum_payout_zero(bets, keys, active, prev, fuel, n - 1);
    }
}

/// One level step of the combined winnings: the current tier's
/// distribution plus everything above it.
proof fn lemma_sum_split(
    bets: Seq<u64>,
    keys: Seq<int>,
    active: Seq<bool>,
    prev: int,
    fuel: nat,
    n: int,
)
    requires
        fuel >= 1,
        min_active_above(bets, active, prev, 6) != -1,
        0 <= n <= 6,
    ensures
        sum_payout_from(bets, keys, active, prev, fuel, n) == sum_tier_payout(
            bets,
            keys,
            active,
            prev,
            min_active_above(bets, active, prev, 6),
            n,
        ) + sum_payout_from(
            bets,
            keys,
            active,
            min_active_above(bets, active, prev, 6),
            (fuel - 1) as nat,
            n,
        ),
    decreases n,
{
    if n > 0 {
        lemma_sum_split(bets, keys, active, prev, fuel, n - 1);
    }
}

/// Settlement conserves chips: the seats' combined winnings equal the
/// combined tier pots exactly — no chip is created or destroyed — and
/// the tiers never hold more than the bets put in.
pub proof fn lemma_settlement_conserves(bets: Seq<u64>, ranks: Seq<HandRank>, active: Seq<bool>)
    requires
        bets.len() == 6,
        ranks.len() == 6,
    ensures
        sum_payouts(bets, keys_of(ranks), active) == spec_total_pot(bets, active),
        spec_total_pot(bets, active) <= sum_bets(bets),
{
    assert forall|i: int| 0 <= i < 6 implies keys_of(ranks)[i] >= 0 by {
        crate::evaluator::lemma_rank_key_nonneg(ranks[i]);
    }
    lemma_sum_payout_total(bets, keys_of(ranks), active, 0, 6);
    lemma_total_pot_le_excess(bets, active, 0, 6);
    lemma_sum_excess_zero(bets, 6);
    assert(bets.take(6) =~= bets);
}

/// A seat no longer in the showdown wins nothing: its chips stay in
/// the pot as dead money for the remaining seats.
pub proof fn lemma_inactive_payout_zero(
    bets: Seq<u64>,
    keys: Seq<int>,
    active: Seq<bool>,
    prev: int,
    fuel: nat,
    i: int,
)
    requires
        0 <= i < active.len(),
        !active[i],
    ensures
        payout_from(bets, keys, active, prev, fuel, i) == 0,
    decreases fuel,
{
    let nxt = min_active_above(bets, active, prev, 6);
    if fuel > 0 && nxt != -1 {
        lemma_inactive_payout_zero(bets, keys, active, nxt, (fuel - 1) as nat, i);
    }
}

/// A folded seat's payout is always zero, whatever it bet and whatever
/// hand it held.
pub proof fn lemma_folded_seat_wins_nothing(
    bets: Seq<u64>,
    keys: Seq<int>,
    active: Seq<bool>,
    i: int,
)
    requires
        0 <= i < active.len(),
        !active[i],
    ensures
        spec_payout(bets, keys, active, i) == 0,
{
    lemma_inactive_payout_zero(bets, keys, active, 0, 6, i);
}

} // verus!
