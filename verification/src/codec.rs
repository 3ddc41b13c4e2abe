//! Packed card encodings.  A deck is 52 six-bit card fields packed into
//! three wide integers (21 + 21 + 10 fields, base-64 positional); a hand
//! is 2 fields packed into one wide integer.  Packing is proved
//! invertible for every sequence of values below 64.

use vstd::prelude::*;
use vstd::arithmetic::div_mod::lemma_fundamental_div_mod_converse_div;
use vstd::arithmetic::div_mod::lemma_fundamental_div_mod_converse_mod;

verus! {

/// 64 raised to `n`.
pub open spec fn pow64(n: nat) -> int
    decreases n,
{
    if n == 0 {
        1
    } else {
        64 * pow64((n - 1) as nat)
    }
}

/// The base-64 number whose digit sequence is `s`, least significant first.
pub open spec fn pack_base64(s: Seq<u8>) -> int
    decreases s.len(),
{
    if s.len() == 0 {
        0
    } else {
        s[0] + 64 * pack_base64(s.drop_first())
    }
}

/// The `n` low base-64 digits of `v`, least significant first.
pub open spec fn unpack_base64(v: int, n: nat) -> Seq<u8>
    decreases n,
{
    if n == 0 {
        Seq::empty()
    } else {
        seq![(v % 64) as u8] + unpack_base64(v / 64, (n - 1) as nat)
    }
}

/// Every element fits a six-bit field.
pub open spec fn all_below_64(s: Seq<u8>) -> bool {
    forall|i: int| 0 <= i < s.len() ==> s[i] < 64
}

pub proof fn lemma_pow64_pos(n: nat)
    ensures
        pow64(n) >= 1,
    decreases n,
{
    if n > 0 {
        lemma_pow64_pos((n - 1) as nat);
    }
}

/// A packed digit sequence is bounded by 64^len.
pub proof fn lemma_pack_bound(s: Seq<u8>)
    requires
        all_below_64(s),
    ensures
        0 <= pack_base64(s) < pow64(s.len()),
    decreases s.len(),
{
    if s.len() > 0 {
        lemma_pack_bound(s.drop_first());
    }
}

/// Unpacking undoes packing: the round trip is the identity on every
/// sequence of six-bit values.
pub proof fn lemma_unpack_pack(s: Seq<u8>)
    requires
        all_below_64(s),
    ensures
        unpack_base64(pack_base64(s), s.len()) == s,
    decreases s.len(),
{
    if s.len() > 0 {
        let rest = s.drop_first();
        let v = pack_base64(s);
        lemma_pack_bound(rest);
        lemma_fundamental_div_mod_converse_mod(v, 64, pack_base64(rest), s[0] as int);
        lemma_fundamental_div_mod_converse_div(v, 64, pack_base64(rest), s[0] as int);
        lemma_unpack_pack(rest);
        assert(unpack_base64(v, s.len()) =~= s);
    } else {
        assert(unpack_base64(pack_base64(s), 0) =~= s);
    }
}

/// A full 52-card deck, packed into three wide integers.
#[derive(Clone, Copy, Debug, PartialEq, Eq)]
pub struct Deck {
    /// Cards 0..21 (21 six-bit fields).
    pub cards_chunk_0: u128,
    /// Cards 21..42 (21 six-bit fields).
    pub cards_chunk_1: u128,
    /// Cards 42..52 (10 six-bit fields).
    pub cards_chunk_2: u128,
}

/// `d` is the packed form of the 52-slot card sequence `s`.
pub open spec fn deck_encodes(d: Deck, s: Seq<u8>) -> bool {
    &&& s.len() == 52
    &&& d.cards_chunk_0 == pack_base64(s.subrange(0, 21))
    &&& d.cards_chunk_1 == pack_base64(s.subrange(21, 42))
    &&& d.cards_chunk_2 == pack_base64(s.subrange(42, 52))
}

/// The 52-slot card sequence read back out of the packed chunks.
pub open spec fn deck_decode(d: Deck) -> Seq<u8> {
    unpack_base64(d.cards_chunk_0 as int, 21) + unpack_base64(d.cards_chunk_1 as int, 21)
        + unpack_base64(d.cards_chunk_2 as int, 10)
}

/// Packing a deck and reading it back yields the original sequence.
pub proof fn lemma_deck_roundtrip(d: Deck, s: Seq<u8>)
    requires
        deck_encodes(d, s),
        all_below_64(s),
    ensures
        deck_decode(d) == s,
{
    lemma_unpack_pack(s.subrange(0, 21));
    lemma_unpack_pack(s.subrange(21, 42));
    lemma_unpack_pack(s.subrange(42, 52));
    assert(deck_decode(d) =~= s);
}

impl Deck {
    /// Packs 52 six-bit card values into the three chunks.
    pub fn from_array(array: [u8; 52]) -> (d: Deck)
        requires
            all_below_64(array@),
        ensures
            deck_encodes(d, array@),
    {
        let cards_chunk_0 = pack_chunk(&array, 0, 21);
        let cards_chunk_1 = pack_chunk(&array, 21, 42);
        let cards_chunk_2 = pack_chunk(&array, 42, 52);
        Deck { cards_chunk_0, cards_chunk_1, cards_chunk_2 }
    }

    /// Unpacks the three chunks back into the 52 card values.
    pub fn to_array(&self) -> (bytes: [u8; 52])
        ensures
            bytes@ == deck_decode(*self),
    {
        let mut bytes = [0u8; 52];
        unpack_chunk(&mut bytes, 0, 21, self.cards_chunk_0);
        unpack_chunk(&mut bytes, 21, 42, self.cards_chunk_1);
        unpack_chunk(&mut bytes, 42, 52, self.cards_chunk_2);
        proof {
            assert(bytes@ =~= deck_decode(*self));
        }
        bytes
    }
}

/// Packs `array[lo..hi]` into one wide integer, `array[lo]` least
/// significant.
fn pack_chunk(array: &[u8; 52], lo: usize, hi: usize) -> (v: u128)
    requires
        lo <= hi <= 52,
        hi - lo <= 21,
        all_below_64(array@),
    ensures
        v == pack_base64(array@.subrange(lo as int, hi as int)),
{
    let ghost s = array@.subrange(lo as int, hi as int);
    let mut v: u128 = 0;
    let mut i: usize = hi;
    proof {
        assert(s.subrange((hi - lo) as int, s.len() as int) =~= Seq::<u8>::empty());
    }
    while i > lo
        invariant
            lo <= i <= hi <= 52,
            hi - lo <= 21,
            all_below_64(array@),
            s == array@.subrange(lo as int, hi as int),
            v == pack_base64(s.subrange((i - lo) as int, s.len() as int)),
        decreases i,
    {
        i = i - 1;
        let ghost tail = s.subrange((i + 1 - lo) as int, s.len() as int);
        let ghost whole = s.subrange((i - lo) as int, s.len() as int);
        proof {
            assert(all_below_64(whole));
            lemma_pack_bound(whole);
            lemma_pack_bound(tail);
            assert(whole.drop_first() =~= tail);
            assert(pow64(whole.len()) <= pow64(21)) by {
                lemma_pow64_increases(whole.len(), 21);
            }
            lemma_pow64_21();
        }
        v = v * 64 + (array[i] as u128);
    }
    proof {
        assert(s.subrange(0, s.len() as int) =~= s);
    }
    v
}

/// 64^21 written out: the largest chunk fits a 128-bit integer.
pub proof fn lemma_pow64_21()
    ensures
        pow64(21) == 0x40000000000000000000000000000000,
{
    reveal_with_fuel(pow64, 22);
}

pub proof fn lemma_pow64_increases(m: nat, n: nat)
    requires
        m <= n,
    ensures
        pow64(m) <= pow64(n),
    decreases n,
{
    if m < n {
        lemma_pow64_increases(m, (n - 1) as nat);
        lemma_pow64_pos((n - 1) as nat);
    }
}

/// Writes the base-64 digits of `v` into `bytes[lo..hi]`, least
/// significant digit at `bytes[lo]`; other slots are untouched.
fn unpack_chunk(bytes: &mut [u8; 52], lo: usize, hi: usize, v: u128)
    requires
        lo <= hi <= 52,
    ensures
        final(bytes)@.subrange(lo as int, hi as int) == unpack_base64(v as int, (hi - lo) as nat),
        forall|j: int|
            0 <= j < 52 && !(lo <= j < hi) ==> final(bytes)@[j] == old(bytes)@[j],
{
    let mut i: usize = lo;
    let mut rest: u128 = v;
    while i < hi
        invariant
            lo <= i <= hi <= 52,
            unpack_base64(v as int, (hi - lo) as nat) == bytes@.subrange(lo as int, i as int)
                + unpack_base64(rest as int, (hi - i) as nat),
            forall|j: int| 0 <= j < 52 && !(lo <= j < i) ==> bytes@[j] == old(bytes)@[j],
        decreases hi - i,
    {
        let ghost pre = bytes@;
        let d = (rest % 64) as u8;
        bytes[i] = d;
        proof {
            assert(bytes@.subrange(lo as int, i + 1) =~= pre.subrange(lo as int, i as int).push(d));
            assert(pre.subrange(lo as int, i as int).push(d)
                + unpack_base64(rest as int / 64, (hi - i - 1) as nat)
                =~= pre.subrange(lo as int, i as int)
                + unpack_base64(rest as int, (hi - i) as nat));
        }
        rest = rest / 64;
        i = i + 1;
    }
    proof {
        assert(unpack_base64(rest as int, 0) =~= Seq::<u8>::empty());
        assert(bytes@.subrange(lo as int, hi as int)
            + unpack_base64(rest as int, 0) =~= bytes@.subrange(lo as int, hi as int));
    }
}

/// A seat's two hole cards, packed into one wide integer: the first card
/// in the low six bits, the second in the next six.
#[derive(Clone, Copy, Debug, PartialEq, Eq)]
pub struct Hand {
    /// `card0 + 64 * card1`.
    pub cards_packed: u128,
}

impl Hand {
    /// Packs two six-bit card values.
    pub fn from_array(cards: [u8; 2]) -> (h: Hand)
        requires
            cards[0] < 64,
            cards[1] < 64,
        ensures
            h.cards_packed == cards[0] + 64 * cards[1],
    {
        Hand { cards_packed: cards[0] as u128 + 64 * (cards[1] as u128) }
    }

    /// Unpacks the two card values.
    pub fn to_array(&self) -> (cards: [u8; 2])
        ensures
            cards[0] == self.cards_packed as int % 64,
            cards[1] == (self.cards_packed as int / 64) % 64,
    {
        let card0 = (self.cards_packed % 64) as u8;
        let card1 = ((self.cards_packed / 64) % 64) as u8;
        [card0, card1]
    }
}

/// Unpacking a packed hand recovers both cards: together with the
/// contracts of `Hand::from_array` and `Hand::to_array`, the hand
/// round trip is the identity on every pair of six-bit values.
pub proof fn lemma_hand_roundtrip(c0: u8, c1: u8)
    requires
        c0 < 64,
        c1 < 64,
    ensures
        (c0 + 64 * c1) % 64 == c0,
        ((c0 + 64 * c1) as int / 64) % 64 == c1,
{
    lemma_fundamental_div_mod_converse_mod(c0 + 64 * c1, 64, c1 as int, c0 as int);
    lemma_fundamental_div_mod_converse_div(c0 + 64 * c1, 64, c1 as int, c0 as int);
}

} // verus!
