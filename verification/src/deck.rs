//! A fixed ordering of the 52 cards.
//!
//! Every pile addresses cards by index into one immutable `Deck`; the deck
//! itself is never mutated during play.

use vstd::prelude::*;

use crate::card::Card;
use crate::rank::Rank;
use crate::suit::Suit;

verus! {

#[derive(Clone, Copy, Debug)]
pub struct Deck {
    pub cards: [Card; 52],
}

impl Deck {
    /// A valid deck holds 52 pairwise distinct cards, that is, a permutation
    /// of the whole pack.
    pub open spec fn wf(self) -> bool {
        forall|i: int, j: int| 0 <= i < j < 52 ==> self.cards@[i] != self.cards@[j]
    }

    /// The canonical unshuffled deck, ordered by suit and then by rank.
    pub fn new() -> (d: Deck)
        ensures
            forall|i: int| 0 <= i < 52 ==> d.cards@[i] == Card::spec_at_index(i),
            d.wf(),
    {
        let all = Card::all();
        let mut cards: [Card; 52] = [Card { suit: Suit::Clubs, rank: Rank::Ace }; 52];
        let mut i: usize = 0;
        while i < 52
            invariant
                i <= 52,
                all@.len() == 52,
                forall|k: int| 0 <= k < 52 ==> all@[k] == Card::spec_at_index(k),
                forall|k: int| 0 <= k < i ==> cards@[k] == Card::spec_at_index(k),
            decreases 52 - i,
        {
            cards[i] = all[i];
            i += 1;
        }
        let d = Deck { cards };
        proof {
            assert forall|a: int, b: int| 0 <= a < b < 52 implies d.cards@[a] != d.cards@[b] by {
                lemma_at_index_injective(a, b);
            }
        }
        d
    }

    /// Checks at run time that this deck is a permutation of the 52 cards.
    pub fn is_valid(&self) -> (r: bool)
        ensures
            r == self.wf(),
    {
        let mut i: usize = 0;
        while i < 52
            invariant
                i <= 52,
                forall|a: int, b: int| 0 <= a < b < 52 && a < i ==> self.cards@[a] != self.cards@[b],
            decreases 52 - i,
        {
            let mut j: usize = i + 1;
            while j < 52
                invariant
                    i < j <= 52,
                    forall|b: int| i < b < j ==> self.cards@[i as int] != self.cards@[b],
                decreases 52 - j,
            {
                if self.cards[i] == self.cards[j] {
                    return false;
                }
                j += 1;
            }
            i += 1;
        }
        true
    }
}

/// Distinct positions of the canonical ordering hold distinct cards.
pub proof fn lemma_at_index_injective(i: int, j: int)
    requires
        0 <= i < 52,
        0 <= j < 52,
        i != j,
    ensures
        Card::spec_at_index(i) != Card::spec_at_index(j),
{
    vstd::arithmetic::div_mod::lemma_fundamental_div_mod(i, 13);
    vstd::arithmetic::div_mod::lemma_fundamental_div_mod(j, 13);
}

} // verus!
