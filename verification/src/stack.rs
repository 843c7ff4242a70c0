//! One tableau column's face-up run.
//!
//! A run is determined by its bottom (base) card, its length, and one
//! variant bit per position: position `i` holds the card whose rank is the
//! base rank minus `i`, whose color alternates with `i`'s parity starting
//! from the base color, and whose suit is picked within that color by the
//! stored variant bit.

use vstd::prelude::*;

use vstd::arithmetic::power2::{lemma2_to64, lemma_pow2_unfold, pow2};

use crate::card::Card;
use crate::rank::Rank;
use crate::suit::{Color, Suit, Variant};

verus! {

broadcast use vstd::array::group_array_axioms;

#[derive(Clone, Copy, PartialEq, Eq, Hash, Debug)]
pub struct Stack {
    /// The bottom-most face-up card, absent for an empty column.
    pub base: Option<Card>,
    /// The run length, 0..=13.
    pub n: u8,
    /// `vbits[i]` is the variant bit of the card at position `i`, for
    /// `1 <= i < n`; all other entries stay false.
    pub vbits: [bool; 13],
}

impl Stack {
    pub open spec fn spec_len(self) -> int {
        self.n as int
    }

    pub open spec fn wf(self) -> bool {
        &&& self.n <= 13
        &&& (self.base is None <==> self.n == 0)
        &&& (self.base matches Some(b) ==> b.rank.spec_num() >= self.n)
        &&& forall|i: int|
            0 <= i < 13 && (i == 0 || i >= self.n) ==> !(#[trigger] self.vbits@[i])
    }

    /// The color at position `i`: the base color for even `i`, its opposite
    /// for odd `i`.
    pub open spec fn spec_color_at(self, i: int) -> Color {
        if i % 2 == 0 {
            self.base->Some_0.suit.spec_color()
        } else {
            self.base->Some_0.suit.spec_color().spec_opposite()
        }
    }

    /// The variant at position `i`: the base card's own variant at the
    /// bottom, the stored bit above it.
    pub open spec fn spec_variant_at(self, i: int) -> Variant {
        if i == 0 {
            self.base->Some_0.suit.spec_variant()
        } else {
            Variant::spec_from_bit(self.vbits@[i])
        }
    }

    /// The card at position `i` of the run, reconstructed from the base
    /// card, the alternating colors and the variant bit.
    pub open spec fn spec_card_at(self, i: int) -> Card {
        Card {
            suit: Suit::spec_from_variant(self.spec_color_at(i), self.spec_variant_at(i)),
            rank: Rank::spec_from_num(self.base->Some_0.rank.spec_num() - i),
        }
    }

    /// The whole run, bottom first.
    pub open spec fn spec_cards(self) -> Seq<Card> {
        Seq::new(self.n as nat, |i: int| self.spec_card_at(i))
    }

    /// Whether `card` lies somewhere in the run.
    pub open spec fn spec_has(self, card: Card) -> bool {
        exists|i: int| 0 <= i < self.n && self.spec_card_at(i) == card
    }

    /// Whether `card` may be stacked on top: a King on an empty column, or
    /// the next lower rank in the opposite color otherwise.
    pub open spec fn spec_can_add(self, card: Card) -> bool {
        if self.n == 0 {
            card.rank == Rank::King
        } else {
            &&& card.suit.spec_color() != self.spec_card_at(self.n - 1).suit.spec_color()
            &&& card.rank.spec_num() == self.spec_card_at(self.n - 1).rank.spec_num() - 1
        }
    }

    pub fn new() -> (s: Stack)
        ensures
            s.wf(),
            s.n == 0,
            s.base is None,
            s.spec_cards() =~= Seq::<Card>::empty(),
            s.vbits@ =~= Seq::new(13, |i: int| false),
    {
        Stack { base: None, n: 0, vbits: [false; 13] }
    }

    /// A column holding exactly one face-up card.
    pub fn single(card: Card) -> (s: Stack)
        ensures
            s.wf(),
            s.n == 1,
            s.spec_cards() =~= seq![card],
    {
        let s = Stack { base: Some(card), n: 1, vbits: [false; 13] };
        proof {
            lemma_suit_reassemble(card.suit);
            crate::rank::lemma_rank_num_injective(
                Rank::spec_from_num(card.rank.spec_num()),
                card.rank,
            );
        }
        s
    }

    pub fn len(&self) -> (r: usize)
        ensures
            r == self.spec_len(),
    {
        self.n as usize
    }

    /// The card at position `i`, or none past the end of the run.
    pub fn get(&self, i: usize) -> (r: Option<Card>)
        requires
            self.wf(),
        ensures
            r == (if i < self.spec_len() {
                Option::Some(self.spec_card_at(i as int))
            } else {
                Option::<Card>::None
            }),
    {
        if i >= self.n as usize {
            return None;
        }
        let base = match self.base {
            Some(b) => b,
            None => {
                proof {
                    assert(false);
                }
                return None;
            },
        };
        if i == 0 {
            proof {
                lemma_suit_reassemble(base.suit);
                crate::rank::lemma_rank_num_injective(
                    Rank::spec_from_num(base.rank.spec_num()),
                    base.rank,
                );
            }
            return Some(base);
        }
        let color = if i % 2 == 0 {
            base.suit.color()
        } else {
            base.suit.color().opposite()
        };
        let variant = Variant::from_bit(self.vbits[i]);
        let suit = Suit::from_variant(color, variant);
        let rank = Rank::from_num(base.rank.num() - i);
        Some(rank.of(suit))
    }

    /// The top card of the run, if any.
    pub fn last(&self) -> (r: Option<Card>)
        requires
            self.wf(),
        ensures
            r == (if self.spec_len() == 0 {
                Option::<Card>::None
            } else {
                Option::Some(self.spec_card_at(self.spec_len() - 1))
            }),
    {
        if self.n == 0 {
            None
        } else {
            self.get(self.n as usize - 1)
        }
    }

    /// Appends a card if the stacking rule allows it; otherwise reports
    /// failure and leaves the column unchanged.
    pub fn add(&mut self, card: Card) -> (r: Result<(), ()>)
        requires
            old(self).wf(),
        ensures
            final(self).wf(),
            r is Ok <==> old(self).spec_can_add(card),
            r is Err ==> *final(self) == *old(self),
            r is Ok ==> final(self).spec_len() == old(self).spec_len() + 1,
            r is Ok ==> final(self).spec_cards() =~= old(self).spec_cards().push(card),
    {
        let last = self.last();
        match last {
            Some(last) => {
                if last.suit.color() != card.suit.color() && last.rank.num() - 1
                    == card.rank.num() {
                    proof {
                        // The run cannot already be full: a full run ends at
                        // or below the Ace, which nothing stacks onto.
                        assert(self.n < 13);
                    }
                    let idx = self.n as usize;
                    self.vbits[idx] = card.suit.variant().as_bit();
                    self.n = self.n + 1;
                    proof {
                        let pre = *old(self);
                        let m = pre.n as int;
                        lemma_suit_reassemble(card.suit);
                        crate::rank::lemma_rank_num_injective(
                            Rank::spec_from_num(card.rank.spec_num()),
                            card.rank,
                        );
                        assert(self.spec_card_at(m) == card);
                        assert forall|i: int| 0 <= i < m implies self.spec_card_at(i)
                            == pre.spec_card_at(i) by {
                            assert(self.vbits@[i] == pre.vbits@[i]);
                        }
                        assert(self.spec_cards() =~= pre.spec_cards().push(card));
                    }
                    Ok(())
                } else {
                    Err(())
                }
            },
            None => {
                if card.rank.num() == 13 {
                    self.base = Some(card);
                    self.n = 1;
                    proof {
                        let pre = *old(self);
                        lemma_suit_reassemble(card.suit);
                        crate::rank::lemma_rank_num_injective(
                            Rank::spec_from_num(card.rank.spec_num()),
                            card.rank,
                        );
                        crate::rank::lemma_rank_num_injective(card.rank, Rank::King);
                        assert(self.spec_cards() =~= pre.spec_cards().push(card));
                    }
                    Ok(())
                } else {
                    proof {
                        if card.rank == Rank::King {
                            assert(card.rank.spec_num() == 13);
                        }
                    }
                    Err(())
                }
            },
        }
    }

    /// Removes and returns the top card; fails on an empty column.
    pub fn take(&mut self) -> (r: Result<Card, ()>)
        requires
            old(self).wf(),
        ensures
            final(self).wf(),
            r is Ok <==> old(self).spec_len() > 0,
            r is Err ==> *final(self) == *old(self),
            r matches Ok(c) ==> c == old(self).spec_card_at(old(self).spec_len() - 1),
            r is Ok ==> final(self).spec_len() == old(self).spec_len() - 1,
            r is Ok ==> final(self).spec_cards() =~= old(self).spec_cards().drop_last(),
    {
        let last = self.last();
        match last {
            Some(card) => {
                self.n = self.n - 1;
                if self.n == 0 {
                    self.base = None;
                } else {
                    let idx = self.n as usize;
                    self.vbits[idx] = false;
                }
                proof {
                    let pre = *old(self);
                    assert forall|i: int| 0 <= i < self.n implies self.spec_card_at(i)
                        == pre.spec_card_at(i) by {
                        assert(self.vbits@[i] == pre.vbits@[i]);
                    }
                    assert(self.spec_cards() =~= pre.spec_cards().drop_last());
                }
                Ok(card)
            },
            None => Err(()),
        }
    }

    /// Whether the card lies within the current run.
    pub fn contains(&self, card: Card) -> (r: bool)
        requires
            self.wf(),
        ensures
            r == self.spec_has(card),
    {
        let base = match self.base {
            Some(b) => b,
            None => {
                return false;
            },
        };
        if card.rank.num() > base.rank.num() {
            proof {
                assert forall|i: int| 0 <= i < self.n implies self.spec_card_at(i) != card by {
                    assert(self.spec_card_at(i).rank.spec_num() == base.rank.spec_num() - i);
                }
            }
            return false;
        }
        let offset = base.rank.num() - card.rank.num();
        let r = match self.get(offset) {
            Some(c) => c == card,
            None => false,
        };
        proof {
            if r {
                assert(self.spec_card_at(offset as int) == card);
            } else {
                assert forall|i: int| 0 <= i < self.n implies self.spec_card_at(i) != card by {
                    if i != offset {
                        assert(self.spec_card_at(i).rank.spec_num() == base.rank.spec_num() - i);
                    }
                }
            }
        }
        r
    }

    /// The little-endian value of the variant bits from position `i` up.
    pub open spec fn vbits_val(s: Seq<bool>, i: int) -> int
        decreases 13 - i,
    {
        if i < 0 || i >= 13 {
            0
        } else {
            (if s[i] {
                1int
            } else {
                0int
            }) + 2 * Stack::vbits_val(s, i + 1)
        }
    }

    /// The packed run word: the length in the low four bits, the variant
    /// bits of positions 1..13 above them.
    pub open spec fn spec_next(self) -> int {
        self.n + 16 * Stack::vbits_val(self.vbits@, 1)
    }

    /// The column packed into a card byte (with two auxiliary bits) and a
    /// run word.
    pub fn to_bits(&self, two_extra_bits: u8) -> (r: (u8, u16))
        requires
            self.wf(),
            two_extra_bits < 4,
        ensures
            r.0 == Card::spec_option_to_bits(self.base, two_extra_bits as int),
            r.1 == self.spec_next(),
    {
        let x = Card::option_to_bits(self.base, two_extra_bits);
        let mut acc: u16 = 0;
        let mut i: usize = 13;
        proof {
            lemma2_to64();
        }
        while i > 1
            invariant
                1 <= i <= 13,
                acc == Stack::vbits_val(self.vbits@, i as int),
                acc < pow2((13 - i) as nat),
            decreases i,
        {
            proof {
                lemma_pow2_unfold((14 - i) as nat);
                lemma2_to64();
            }
            acc = 2 * acc + (if self.vbits[i - 1] {
                1
            } else {
                0
            });
            i = i - 1;
        }
        proof {
            lemma2_to64();
        }
        (x, self.n as u16 + 16 * acc)
    }

    /// Rebuilds a column from its packed form, returning the auxiliary bits
    /// alongside.
    pub fn from_bits(bits: (u8, u16)) -> (r: (Stack, u8))
        requires
            Card::valid_option_bits(bits.0 as int),
        ensures
            r.0.base == (if bits.0 as int % 64 == 0 {
                Option::<Card>::None
            } else {
                Option::Some(Card::spec_card_of_byte(bits.0 as int % 64))
            }),
            r.1 == bits.0 as int / 64,
            r.0.n == bits.1 as int % 16,
            r.0.vbits@[0] == false,
            forall|i: int|
                1 <= i < 13 ==> r.0.vbits@[i] == (bits.1 as int / 16 / pow2((i - 1) as nat) as int % 2
                    == 1),
    {
        let (base, extra) = Card::option_from_bits(bits.0);
        let n = (bits.1 % 16) as u8;
        let mut v: u16 = bits.1 / 16;
        let ghost v0 = v as int;
        let mut vbits: [bool; 13] = [false; 13];
        let mut i: usize = 1;
        proof {
            lemma2_to64();
            assert(v0 / pow2(0) as int == v0) by {
                assert(pow2(0) == 1);
            }
        }
        while i < 13
            invariant
                1 <= i <= 13,
                v == v0 / pow2((i - 1) as nat) as int,
                0 <= v0 < pow2(12),
                vbits@[0] == false,
                forall|k: int| 1 <= k < i ==> vbits@[k] == (v0 / pow2((k - 1) as nat) as int % 2 == 1),
                forall|k: int| i <= k < 13 ==> !(#[trigger] vbits@[k]),
            decreases 13 - i,
        {
            vbits[i] = v % 2 == 1;
            v = v / 2;
            proof {
                lemma_pow2_unfold(i as nat);
                vstd::arithmetic::power2::lemma_pow2_pos((i - 1) as nat);
                vstd::arithmetic::div_mod::lemma_div_denominator(
                    v0,
                    pow2((i - 1) as nat) as int,
                    2,
                );
            }
            i += 1;
        }
        (Stack { base, n, vbits }, extra)
    }
}

/// Holding a card and the run sequence containing it are the same thing.
pub proof fn lemma_has_is_contains(st: Stack, x: Card)
    ensures
        st.spec_has(x) == st.spec_cards().contains(x),
{
    if st.spec_has(x) {
        let i = choose|i: int| 0 <= i < st.n && st.spec_card_at(i) == x;
        assert(st.spec_cards()[i] == x);
    }
    if st.spec_cards().contains(x) {
        let i = choose|i: int| 0 <= i < st.spec_cards().len() && st.spec_cards()[i] == x;
        assert(st.spec_card_at(i) == x);
    }
}

/// The run sequence determines the whole column: two well-formed columns
/// with the same cards are equal.
pub proof fn lemma_cards_determine_stack(s1: Stack, s2: Stack)
    requires
        s1.wf(),
        s2.wf(),
        s1.spec_cards() == s2.spec_cards(),
    ensures
        s1 == s2,
{
    assert(s1.spec_cards().len() == s1.n);
    assert(s1.n == s2.n);
    if s1.n > 0 {
        let b1 = s1.base->Some_0;
        let b2 = s2.base->Some_0;
        lemma_suit_reassemble(b1.suit);
        lemma_suit_reassemble(b2.suit);
        crate::rank::lemma_rank_num_range(b1.rank);
        crate::rank::lemma_rank_num_range(b2.rank);
        assert(s1.spec_card_at(0) == b1);
        assert(s2.spec_card_at(0) == b2);
        assert(s1.spec_cards()[0] == s1.spec_card_at(0));
        assert(b1 == b2);
    }
    assert forall|i: int| 0 <= i < 13 implies s1.vbits@[i] == s2.vbits@[i] by {
        if 1 <= i < s1.n {
            assert(s1.spec_cards()[i] == s1.spec_card_at(i));
            assert(s1.spec_card_at(i).suit.spec_variant() == Variant::spec_from_bit(
                s1.vbits@[i],
            ));
            assert(s2.spec_card_at(i).suit.spec_variant() == Variant::spec_from_bit(
                s2.vbits@[i],
            ));
        }
    }
    assert(s1.vbits =~= s2.vbits);
}

/// A suit is recovered from its own color and variant.
pub proof fn lemma_suit_reassemble(s: Suit)
    ensures
        Suit::spec_from_variant(s.spec_color(), s.spec_variant()) == s,
{
}

/// The variant-bit word determines every stored bit: shifting the packed
/// value down to position `i` leaves that position's value.
pub proof fn lemma_vbits_val_shift(s: Seq<bool>, i: int)
    requires
        1 <= i <= 13,
    ensures
        Stack::vbits_val(s, 1) / pow2((i - 1) as nat) as int == Stack::vbits_val(s, i),
    decreases i,
{
    lemma2_to64();
    if i == 1 {
        assert(pow2(0) == 1);
        vstd::arithmetic::div_mod::lemma_div_basics(Stack::vbits_val(s, 1));
    } else {
        let x = Stack::vbits_val(s, 1);
        let bit: int = if s[i - 1] {
            1
        } else {
            0
        };
        lemma_vbits_val_shift(s, i - 1);
        lemma_vbits_val_bound(s, i);
        lemma_vbits_val_bound(s, 1);
        lemma_pow2_unfold((i - 1) as nat);
        vstd::arithmetic::power2::lemma_pow2_pos((i - 2) as nat);
        vstd::arithmetic::div_mod::lemma_div_denominator(x, pow2((i - 2) as nat) as int, 2);
        assert(x / pow2((i - 1) as nat) as int == (x / pow2((i - 2) as nat) as int) / 2);
        assert(Stack::vbits_val(s, i - 1) == bit + 2 * Stack::vbits_val(s, i));
        crate::codec::lemma_pack_unpack(bit, Stack::vbits_val(s, i), 2);
    }
}

/// The packed variant bits fit below two to the thirteen-minus-`i`.
pub proof fn lemma_vbits_val_bound(s: Seq<bool>, i: int)
    requires
        0 <= i <= 13,
    ensures
        0 <= Stack::vbits_val(s, i) < pow2((13 - i) as nat),
    decreases 13 - i,
{
    lemma2_to64();
    if i == 13 {
        assert(pow2(0) == 1);
    } else {
        lemma_vbits_val_bound(s, i + 1);
        lemma_pow2_unfold((13 - i) as nat);
    }
}

/// Unpacking the packed run word of a well-formed column restores its
/// length and every variant bit.
pub proof fn lemma_next_unpack(s: Stack)
    requires
        s.wf(),
    ensures
        s.spec_next() % 16 == s.n,
        s.spec_next() / 16 == Stack::vbits_val(s.vbits@, 1),
        forall|i: int|
            1 <= i < 13 ==> s.vbits@[i] == (s.spec_next() / 16 / pow2((i - 1) as nat) as int % 2 == 1),
        0 <= s.spec_next() < 65536,
{
    lemma_vbits_val_bound(s.vbits@, 1);
    lemma2_to64();
    crate::codec::lemma_pack_unpack(s.n as int, Stack::vbits_val(s.vbits@, 1), 16);
    assert forall|i: int|
        1 <= i < 13 implies s.vbits@[i] == (s.spec_next() / 16 / pow2((i - 1) as nat) as int % 2
        == 1) by {
        lemma_vbits_val_shift(s.vbits@, i);
        lemma_vbits_val_bound(s.vbits@, i);
        crate::codec::lemma_pack_unpack(
            if s.vbits@[i] {
                1int
            } else {
                0int
            },
            Stack::vbits_val(s.vbits@, i + 1),
            2,
        );
    }
}

/// The rank at position `i` descends one step per position from the base
/// rank, and the color alternates with `i`'s parity relative to the base.
pub proof fn lemma_run_shape(s: Stack, i: int)
    requires
        s.wf(),
        0 <= i < s.spec_len(),
    ensures
        s.spec_card_at(i).rank.spec_num() == s.base->Some_0.rank.spec_num() - i,
        s.spec_card_at(i).suit.spec_color() == s.spec_color_at(i),
        i % 2 == 0 ==> s.spec_card_at(i).suit.spec_color()
            == s.base->Some_0.suit.spec_color(),
        i % 2 == 1 ==> s.spec_card_at(i).suit.spec_color()
            == s.base->Some_0.suit.spec_color().spec_opposite(),
{
}

} // verus!
