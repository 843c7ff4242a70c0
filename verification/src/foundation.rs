//! The four per-suit foundation piles.
//!
//! Each suit's pile always holds exactly the ranks `1..=n` for some `n`,
//! so a single count per suit is the whole state.

use vstd::prelude::*;

use crate::card::Card;
use crate::rank::Rank;
use crate::suit::Suit;

verus! {

broadcast use vstd::array::group_array_axioms;

#[derive(Clone, Copy, PartialEq, Eq, Hash, Debug)]
pub struct Foundation {
    /// One count per suit, indexed by the suit's number.
    pub counts: [u8; 4],
}

impl Foundation {
    /// How many cards of the given suit have been completed, equally the
    /// rank of the suit's top card.
    pub open spec fn spec_n_cards(self, suit: Suit) -> int {
        self.counts@[suit.spec_num()] as int
    }

    pub open spec fn wf(self) -> bool {
        forall|i: int| 0 <= i < 4 ==> 0 <= #[trigger] self.counts@[i] <= 13
    }

    pub open spec fn spec_is_complete(self) -> bool {
        forall|i: int| 0 <= i < 4 ==> #[trigger] self.counts@[i] == 13
    }

    /// A card is on the foundation iff its rank is at most its suit's count.
    pub open spec fn spec_contains(self, card: Card) -> bool {
        card.rank.spec_num() <= self.spec_n_cards(card.suit)
    }

    /// Whether the given card may be added: it must be the next rank of its
    /// suit (an empty pile accepts only the Ace).
    pub open spec fn spec_can_add(self, card: Card) -> bool {
        card.rank.spec_num() == self.spec_n_cards(card.suit) + 1
    }

    pub fn new() -> (f: Foundation)
        ensures
            forall|s: Suit| f.spec_n_cards(s) == 0,
            f.wf(),
            !f.spec_is_complete(),
    {
        let f = Foundation { counts: [0; 4] };
        proof {
            assert(f.counts@[Suit::Spades.spec_num()] == 0);
            assert forall|s: Suit| f.spec_n_cards(s) == 0 by {
                assert(0 <= s.spec_num() < 4);
            }
        }
        f
    }

    pub fn is_complete(&self) -> (r: bool)
        ensures
            r == self.spec_is_complete(),
    {
        self.counts[0] == 13 && self.counts[1] == 13 && self.counts[2] == 13 && self.counts[3]
            == 13
    }

    /// Adds a card if it is the next rank of its suit; otherwise reports
    /// failure and leaves the pile unchanged. A successful add raises
    /// exactly the card's suit count, by exactly one.
    pub fn add(&mut self, card: Card) -> (r: Result<(), ()>)
        requires
            old(self).wf(),
        ensures
            final(self).wf(),
            r is Ok <==> old(self).spec_can_add(card),
            r is Err ==> *final(self) == *old(self),
            r is Ok ==> final(self).spec_n_cards(card.suit) == old(self).spec_n_cards(card.suit)
                + 1,
            r is Ok ==> forall|s: Suit| s != card.suit ==> final(self).spec_n_cards(s) == old(
                self,
            ).spec_n_cards(s),
            r is Ok ==> forall|c: Card|
                final(self).spec_contains(c) <==> old(self).spec_contains(c) || c == card,
    {
        let i = card.suit.num();
        if card.rank.num() == self.counts[i] as usize + 1 {
            self.counts[i] = self.counts[i] + 1;
            proof {
                assert forall|s: Suit| s != card.suit implies self.spec_n_cards(s) == old(
                    self,
                ).spec_n_cards(s) by {
                    assert(s.spec_num() != card.suit.spec_num());
                }
                assert forall|c: Card|
                    self.spec_contains(c) <==> old(self).spec_contains(c) || c == card by {
                    if c.suit == card.suit {
                        if c.rank.spec_num() == card.rank.spec_num() {
                            crate::rank::lemma_rank_num_injective(c.rank, card.rank);
                        }
                    } else {
                        assert(c.suit.spec_num() != card.suit.spec_num());
                    }
                }
            }
            Ok(())
        } else {
            Err(())
        }
    }

    /// The suit's highest completed card, if any.
    pub fn top_card(&self, suit: Suit) -> (r: Option<Card>)
        requires
            self.wf(),
        ensures
            r == (if self.spec_n_cards(suit) == 0 {
                Option::<Card>::None
            } else {
                Option::Some(
                    Card { suit, rank: Rank::spec_from_num(self.spec_n_cards(suit)) },
                )
            }),
    {
        let n = self.counts[suit.num()];
        if n == 0 {
            None
        } else {
            Some(Rank::from_num(n as usize).of(suit))
        }
    }

    pub fn contains(&self, card: Card) -> (r: bool)
        ensures
            r == self.spec_contains(card),
    {
        card.rank.num() <= self.counts[card.suit.num()] as usize
    }

    pub fn n_cards(&self, suit: Suit) -> (n: usize)
        ensures
            n == self.spec_n_cards(suit),
    {
        self.counts[suit.num()] as usize
    }

    /// The four counts packed as base-16 digits, spades lowest.
    pub open spec fn spec_to_bits(self) -> int {
        self.counts@[0] + 16 * (self.counts@[1] + 16 * (self.counts@[2] + 16 * (
        self.counts@[3] as int)))
    }

    pub open spec fn spec_from_bits(bits: int) -> Foundation {
        Foundation {
            counts: [
                (bits % 16) as u8,
                (bits / 16 % 16) as u8,
                (bits / 256 % 16) as u8,
                (bits / 4096 % 16) as u8,
            ],
        }
    }

    pub fn to_bits(&self) -> (bits: u16)
        requires
            self.wf(),
        ensures
            bits == self.spec_to_bits(),
            bits < 0xE000,
    {
        self.counts[0] as u16 + 16 * (self.counts[1] as u16 + 16 * (self.counts[2] as u16 + 16
            * (self.counts[3] as u16)))
    }

    pub fn from_bits(bits: u16) -> (f: Foundation)
        ensures
            f == Foundation::spec_from_bits(bits as int),
    {
        Foundation {
            counts: [
                (bits % 16) as u8,
                (bits / 16 % 16) as u8,
                (bits / 256 % 16) as u8,
                (bits / 4096 % 16) as u8,
            ],
        }
    }
}

/// Equal per-suit counts mean equal foundations.
pub proof fn lemma_counts_determine_foundation(f1: Foundation, f2: Foundation)
    requires
        forall|s: Suit| f1.spec_n_cards(s) == f2.spec_n_cards(s),
    ensures
        f1 == f2,
{
    assert forall|i: int| 0 <= i < 4 implies f1.counts@[i] == f2.counts@[i] by {
        let s = Suit::spec_from_num(i);
        assert(s.spec_num() == i);
        assert(f1.spec_n_cards(s) == f2.spec_n_cards(s));
    }
    assert(f1.counts =~= f2.counts);
}

/// Packing the counts and unpacking them restores the foundation exactly.
pub proof fn lemma_foundation_bits_round_trip(f: Foundation)
    requires
        f.wf(),
    ensures
        Foundation::spec_from_bits(f.spec_to_bits()) == f,
{
    let c0 = f.counts@[0] as int;
    let c1 = f.counts@[1] as int;
    let c2 = f.counts@[2] as int;
    let c3 = f.counts@[3] as int;
    let bits = f.spec_to_bits();
    crate::codec::lemma_pack_unpack(c0, c1 + 16 * (c2 + 16 * c3), 16);
    crate::codec::lemma_pack_unpack(c1, c2 + 16 * c3, 16);
    crate::codec::lemma_pack_unpack(c2, c3, 16);
    assert(bits / 16 == c1 + 16 * (c2 + 16 * c3));
    assert(bits / 256 == (bits / 16) / 16) by {
        vstd::arithmetic::div_mod::lemma_div_denominator(bits, 16, 16);
    }
    assert(bits / 4096 == (bits / 256) / 16) by {
        vstd::arithmetic::div_mod::lemma_div_denominator(bits, 256, 16);
    }
    assert(Foundation::spec_from_bits(bits).counts@ =~= f.counts@);
    assert(Foundation::spec_from_bits(bits).counts == f.counts);
}

} // verus!
