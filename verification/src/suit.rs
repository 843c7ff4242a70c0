//! The four suits, their colors, and the variant bit.
//!
//! `Color` and `Variant` are two orthogonal 2-way partitions of the suits;
//! together they uniquely determine a suit, which lets a tableau run store a
//! single bit per card instead of a whole suit.

use vstd::prelude::*;

verus! {

#[derive(Clone, Copy, PartialEq, Eq, Structural, PartialOrd, Ord, Hash, Debug)]
pub enum Suit {
    Spades,
    Hearts,
    Clubs,
    Diamonds,
}

#[derive(Clone, Copy, PartialEq, Eq, Structural, PartialOrd, Ord, Hash, Debug)]
pub enum Color {
    Black,
    Red,
}

#[derive(Clone, Copy, PartialEq, Eq, Structural, PartialOrd, Ord, Hash, Debug)]
pub enum Variant {
    First,
    Second,
}

impl Suit {
    pub open spec fn spec_color(self) -> Color {
        match self {
            Suit::Spades => Color::Black,
            Suit::Hearts => Color::Red,
            Suit::Clubs => Color::Black,
            Suit::Diamonds => Color::Red,
        }
    }

    pub open spec fn spec_variant(self) -> Variant {
        match self {
            Suit::Spades => Variant::First,
            Suit::Hearts => Variant::First,
            Suit::Clubs => Variant::Second,
            Suit::Diamonds => Variant::Second,
        }
    }

    pub open spec fn spec_from_variant(color: Color, variant: Variant) -> Suit {
        match (color, variant) {
            (Color::Black, Variant::First) => Suit::Spades,
            (Color::Red, Variant::First) => Suit::Hearts,
            (Color::Black, Variant::Second) => Suit::Clubs,
            (Color::Red, Variant::Second) => Suit::Diamonds,
        }
    }

    pub open spec fn spec_num(self) -> int {
        match self {
            Suit::Spades => 0,
            Suit::Hearts => 1,
            Suit::Clubs => 2,
            Suit::Diamonds => 3,
        }
    }

    pub open spec fn spec_from_num(n: int) -> Suit {
        if n == 0 {
            Suit::Spades
        } else if n == 1 {
            Suit::Hearts
        } else if n == 2 {
            Suit::Clubs
        } else {
            Suit::Diamonds
        }
    }

    /// All four suits, in canonical order.
    pub fn all() -> (r: Vec<Suit>)
        ensures
            r@ =~= seq![Suit::Spades, Suit::Hearts, Suit::Clubs, Suit::Diamonds],
    {
        let mut v: Vec<Suit> = Vec::new();
        v.push(Suit::Spades);
        v.push(Suit::Hearts);
        v.push(Suit::Clubs);
        v.push(Suit::Diamonds);
        v
    }

    #[verifier::when_used_as_spec(spec_color)]
    pub fn color(self) -> (c: Color)
        ensures
            c == self.spec_color(),
    {
        match self {
            Suit::Spades => Color::Black,
            Suit::Hearts => Color::Red,
            Suit::Clubs => Color::Black,
            Suit::Diamonds => Color::Red,
        }
    }

    #[verifier::when_used_as_spec(spec_variant)]
    pub fn variant(self) -> (v: Variant)
        ensures
            v == self.spec_variant(),
    {
        match self {
            Suit::Spades => Variant::First,
            Suit::Hearts => Variant::First,
            Suit::Clubs => Variant::Second,
            Suit::Diamonds => Variant::Second,
        }
    }

    /// Reconstructs the unique suit with the given color and variant.
    #[verifier::when_used_as_spec(spec_from_variant)]
    pub fn from_variant(color: Color, variant: Variant) -> (s: Suit)
        ensures
            s == Suit::spec_from_variant(color, variant),
    {
        match (color, variant) {
            (Color::Black, Variant::First) => Suit::Spades,
            (Color::Red, Variant::First) => Suit::Hearts,
            (Color::Black, Variant::Second) => Suit::Clubs,
            (Color::Red, Variant::Second) => Suit::Diamonds,
        }
    }

    pub fn num(self) -> (n: usize)
        ensures
            n == self.spec_num(),
    {
        match self {
            Suit::Spades => 0,
            Suit::Hearts => 1,
            Suit::Clubs => 2,
            Suit::Diamonds => 3,
        }
    }

    pub fn from_num(n: usize) -> (s: Suit)
        requires
            n < 4,
        ensures
            s == Suit::spec_from_num(n as int),
            s.spec_num() == n,
    {
        match n {
            0 => Suit::Spades,
            1 => Suit::Hearts,
            2 => Suit::Clubs,
            _ => Suit::Diamonds,
        }
    }
}

impl Color {
    pub open spec fn spec_opposite(self) -> Color {
        match self {
            Color::Red => Color::Black,
            Color::Black => Color::Red,
        }
    }

    #[verifier::when_used_as_spec(spec_opposite)]
    pub fn opposite(self) -> (c: Color)
        ensures
            c == self.spec_opposite(),
    {
        match self {
            Color::Red => Color::Black,
            Color::Black => Color::Red,
        }
    }
}

impl Variant {
    pub open spec fn spec_as_bit(self) -> bool {
        match self {
            Variant::First => false,
            Variant::Second => true,
        }
    }

    pub open spec fn spec_from_bit(b: bool) -> Variant {
        if b {
            Variant::Second
        } else {
            Variant::First
        }
    }

    #[verifier::when_used_as_spec(spec_as_bit)]
    pub fn as_bit(self) -> (b: bool)
        ensures
            b == self.spec_as_bit(),
    {
        match self {
            Variant::First => false,
            Variant::Second => true,
        }
    }

    #[verifier::when_used_as_spec(spec_from_bit)]
    pub fn from_bit(b: bool) -> (v: Variant)
        ensures
            v == Variant::spec_from_bit(b),
    {
        if b {
            Variant::Second
        } else {
            Variant::First
        }
    }
}

} // verus!
