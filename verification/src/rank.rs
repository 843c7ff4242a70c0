//! The thirteen ranks, Ace (1) through King (13).

use vstd::prelude::*;

verus! {

#[derive(Clone, Copy, PartialEq, Eq, Structural, PartialOrd, Ord, Hash, Debug)]
pub enum Rank {
    Ace,
    Two,
    Three,
    Four,
    Five,
    Six,
    Seven,
    Eight,
    Nine,
    Ten,
    Jack,
    Queen,
    King,
}

impl Rank {
    /// The rank's number: Ace is 1, King is 13.
    pub open spec fn spec_num(self) -> int {
        match self {
            Rank::Ace => 1,
            Rank::Two => 2,
            Rank::Three => 3,
            Rank::Four => 4,
            Rank::Five => 5,
            Rank::Six => 6,
            Rank::Seven => 7,
            Rank::Eight => 8,
            Rank::Nine => 9,
            Rank::Ten => 10,
            Rank::Jack => 11,
            Rank::Queen => 12,
            Rank::King => 13,
        }
    }

    pub open spec fn spec_from_num(n: int) -> Rank {
        if n == 1 {
            Rank::Ace
        } else if n == 2 {
            Rank::Two
        } else if n == 3 {
            Rank::Three
        } else if n == 4 {
            Rank::Four
        } else if n == 5 {
            Rank::Five
        } else if n == 6 {
            Rank::Six
        } else if n == 7 {
            Rank::Seven
        } else if n == 8 {
            Rank::Eight
        } else if n == 9 {
            Rank::Nine
        } else if n == 10 {
            Rank::Ten
        } else if n == 11 {
            Rank::Jack
        } else if n == 12 {
            Rank::Queen
        } else {
            Rank::King
        }
    }

    /// All thirteen ranks, from Ace up to King.
    pub fn all() -> (r: Vec<Rank>)
        ensures
            r@.len() == 13,
            forall|i: int| 0 <= i < 13 ==> r@[i] == Rank::spec_from_num(i + 1),
    {
        let mut v: Vec<Rank> = Vec::new();
        v.push(Rank::Ace);
        v.push(Rank::Two);
        v.push(Rank::Three);
        v.push(Rank::Four);
        v.push(Rank::Five);
        v.push(Rank::Six);
        v.push(Rank::Seven);
        v.push(Rank::Eight);
        v.push(Rank::Nine);
        v.push(Rank::Ten);
        v.push(Rank::Jack);
        v.push(Rank::Queen);
        v.push(Rank::King);
        assert forall|i: int| 0 <= i < 13 implies v@[i] == Rank::spec_from_num(i + 1) by {}
        v
    }

    pub fn num(self) -> (n: usize)
        ensures
            n == self.spec_num(),
    {
        match self {
            Rank::Ace => 1,
            Rank::Two => 2,
            Rank::Three => 3,
            Rank::Four => 4,
            Rank::Five => 5,
            Rank::Six => 6,
            Rank::Seven => 7,
            Rank::Eight => 8,
            Rank::Nine => 9,
            Rank::Ten => 10,
            Rank::Jack => 11,
            Rank::Queen => 12,
            Rank::King => 13,
        }
    }

    pub fn from_num(n: usize) -> (r: Rank)
        requires
            1 <= n <= 13,
        ensures
            r == Rank::spec_from_num(n as int),
            r.spec_num() == n,
    {
        match n {
            1 => Rank::Ace,
            2 => Rank::Two,
            3 => Rank::Three,
            4 => Rank::Four,
            5 => Rank::Five,
            6 => Rank::Six,
            7 => Rank::Seven,
            8 => Rank::Eight,
            9 => Rank::Nine,
            10 => Rank::Ten,
            11 => Rank::Jack,
            12 => Rank::Queen,
            _ => Rank::King,
        }
    }
}

/// Every rank's number lies between 1 (Ace) and 13 (King).
pub proof fn lemma_rank_num_range(r: Rank)
    ensures
        1 <= r.spec_num() <= 13,
        Rank::spec_from_num(r.spec_num()) == r,
{
}

/// Numbering the ranks is injective: distinct ranks have distinct numbers.
pub proof fn lemma_rank_num_injective(a: Rank, b: Rank)
    requires
        a.spec_num() == b.spec_num(),
    ensures
        a == b,
{
}

} // verus!
