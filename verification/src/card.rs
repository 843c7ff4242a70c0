//! A playing card: a rank and a suit, with a compact one-byte encoding.
//!
//! The byte encoding multiplexes an optional card (the zero byte means
//! "absent") with two unrelated auxiliary bits, so that an `Option<Card>`
//! and a small tag can travel together in one byte.

use vstd::prelude::*;

use crate::rank::Rank;
use crate::suit::Suit;

verus! {

#[derive(Clone, Copy, PartialEq, Eq, Structural, PartialOrd, Ord, Hash, Debug)]
pub struct Card {
    pub suit: Suit,
    pub rank: Rank,
}

impl Rank {
    /// Builds the card with this rank and the given suit.
    pub fn of(self, suit: Suit) -> (c: Card)
        ensures
            c == (Card { suit, rank: self }),
    {
        Card { suit, rank: self }
    }
}

impl Card {
    pub open spec fn spec_suit(self) -> Suit {
        self.suit
    }

    pub open spec fn spec_rank(self) -> Rank {
        self.rank
    }

    /// The card's nonzero byte value: rank number plus sixteen times the
    /// suit number, always in 1..=61.
    pub open spec fn spec_byte(self) -> int {
        self.rank.spec_num() + 16 * self.suit.spec_num()
    }

    /// The byte holding an optional card in its low six bits and two
    /// auxiliary bits above them.
    pub open spec fn spec_option_to_bits(card: Option<Card>, two_extra_bits: int) -> int {
        (match card {
            Option::None => 0,
            Option::Some(c) => c.spec_byte(),
        }) + 64 * two_extra_bits
    }

    /// The card encoded by a nonzero low-six-bits byte value.
    pub open spec fn spec_card_of_byte(n: int) -> Card {
        Card { suit: Suit::spec_from_num(n / 16), rank: Rank::spec_from_num(n % 16) }
    }

    /// Whether a byte is a well-formed optional-card encoding: its low six
    /// bits are either zero or a valid card byte.
    pub open spec fn valid_option_bits(bits: int) -> bool {
        bits % 64 == 0 || (1 <= bits % 64 % 16 <= 13 && bits % 64 / 16 < 4)
    }

    pub fn all() -> (r: Vec<Card>)
        ensures
            r@.len() == 52,
            forall|i: int| 0 <= i < 52 ==> r@[i] == Card::spec_at_index(i),
    {
        let mut v: Vec<Card> = Vec::new();
        let mut s: usize = 0;
        while s < 4
            invariant
                s <= 4,
                v@.len() == s * 13,
                forall|i: int| 0 <= i < v@.len() ==> v@[i] == Card::spec_at_index(i),
            decreases 4 - s,
        {
            let mut n: usize = 1;
            while n <= 13
                invariant
                    s < 4,
                    1 <= n <= 14,
                    v@.len() == s * 13 + (n - 1),
                    forall|i: int| 0 <= i < v@.len() ==> v@[i] == Card::spec_at_index(i),
                decreases 14 - n,
            {
                let c = Card { suit: Suit::from_num(s), rank: Rank::from_num(n) };
                proof {
                    let i = s * 13 + (n - 1);
                    crate::codec::lemma_pack_unpack(n - 1, s as int, 13);
                    assert(i / 13 == s && i % 13 == n - 1);
                }
                v.push(c);
                n += 1;
            }
            s += 1;
        }
        v
    }

    /// The card at position `i` of the canonical suit-major ordering.
    pub open spec fn spec_at_index(i: int) -> Card {
        Card { suit: Suit::spec_from_num(i / 13), rank: Rank::spec_from_num(i % 13 + 1) }
    }

    #[verifier::when_used_as_spec(spec_suit)]
    pub fn suit(self) -> (s: Suit)
        ensures
            s == self.suit,
    {
        self.suit
    }

    #[verifier::when_used_as_spec(spec_rank)]
    pub fn rank(self) -> (r: Rank)
        ensures
            r == self.rank,
    {
        self.rank
    }

    pub fn to_bits(self, two_extra_bits: u8) -> (bits: u8)
        requires
            two_extra_bits < 4,
        ensures
            bits == Card::spec_option_to_bits(Some(self), two_extra_bits as int),
    {
        Card::option_to_bits(Some(self), two_extra_bits)
    }

    pub fn from_bits(bits: u8) -> (r: (Card, u8))
        requires
            Card::valid_option_bits(bits as int),
            bits as int % 64 != 0,
        ensures
            r.0 == Card::spec_card_of_byte(bits as int % 64),
            r.1 == bits as int / 64,
            Card::spec_option_to_bits(Some(r.0), r.1 as int) == bits,
    {
        let (card, extra) = Card::option_from_bits(bits);
        match card {
            Some(c) => (c, extra),
            None => {
                proof {
                    assert(false);
                }
                (Rank::Ace.of(Suit::Spades), 0)
            },
        }
    }

    pub fn option_to_bits(card: Option<Card>, two_extra_bits: u8) -> (bits: u8)
        requires
            two_extra_bits < 4,
        ensures
            bits == Card::spec_option_to_bits(card, two_extra_bits as int),
            Card::valid_option_bits(bits as int),
            bits as int % 64 == (match card {
                Option::None => 0,
                Option::Some(c) => c.spec_byte(),
            }),
            bits as int / 64 == two_extra_bits,
    {
        let low: u8 = match card {
            None => 0,
            Some(c) => {
                let b = c.rank.num() + 16 * c.suit.num();
                b as u8
            },
        };
        proof {
            crate::codec::lemma_pack_unpack(low as int, two_extra_bits as int, 64);
            if let Some(c) = card {
                crate::codec::lemma_pack_unpack(c.rank.spec_num(), c.suit.spec_num(), 16);
            }
        }
        low + 64 * two_extra_bits
    }

    pub fn option_from_bits(bits: u8) -> (r: (Option<Card>, u8))
        requires
            Card::valid_option_bits(bits as int),
        ensures
            r.0 == (if bits as int % 64 == 0 {
                Option::<Card>::None
            } else {
                Option::Some(Card::spec_card_of_byte(bits as int % 64))
            }),
            r.1 == bits as int / 64,
            Card::spec_option_to_bits(r.0, r.1 as int) == bits,
    {
        let low = bits % 64;
        let extra = bits / 64;
        if low == 0 {
            (None, extra)
        } else {
            let rank = Rank::from_num((low % 16) as usize);
            let suit = Suit::from_num((low / 16) as usize);
            let c = Card { suit, rank };
            proof {
                crate::codec::lemma_pack_unpack(rank.spec_num(), suit.spec_num(), 16);
            }
            (Some(c), extra)
        }
    }
}

/// A card's byte is nonzero, fits in six bits, is a valid encoding, and
/// parses back to the card itself.
pub proof fn lemma_byte_round_trip(c: Card)
    ensures
        1 <= c.spec_byte() <= 61,
        Card::valid_option_bits(c.spec_byte()),
        c.spec_byte() % 64 == c.spec_byte(),
        Card::spec_card_of_byte(c.spec_byte()) == c,
{
    crate::rank::lemma_rank_num_range(c.rank);
    crate::codec::lemma_pack_unpack(c.rank.spec_num(), c.suit.spec_num(), 16);
    crate::codec::lemma_pack_unpack(c.spec_byte(), 0, 64);
}

/// Encoding an optional card with auxiliary bits is injective: equal bytes
/// mean equal cards and equal auxiliary bits.
pub proof fn lemma_option_bits_injective(c1: Option<Card>, a1: int, c2: Option<Card>, a2: int)
    requires
        0 <= a1 < 4,
        0 <= a2 < 4,
        Card::spec_option_to_bits(c1, a1) == Card::spec_option_to_bits(c2, a2),
    ensures
        c1 == c2,
        a1 == a2,
{
    let b1 = match c1 {
        Option::None => 0,
        Option::Some(c) => c.spec_byte(),
    };
    let b2 = match c2 {
        Option::None => 0,
        Option::Some(c) => c.spec_byte(),
    };
    crate::codec::lemma_pack_unpack(b1, a1, 64);
    crate::codec::lemma_pack_unpack(b2, a2, 64);
    if let Option::Some(c) = c1 {
        crate::codec::lemma_pack_unpack(c.rank.spec_num(), c.suit.spec_num(), 16);
    }
    if let Option::Some(c) = c2 {
        crate::codec::lemma_pack_unpack(c.rank.spec_num(), c.suit.spec_num(), 16);
    }
}

} // verus!
