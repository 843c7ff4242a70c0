use klondike::{Card, Deck, Rank, Suit, Variant};

#[test]
fn card_test() {
    assert_eq!(Card::all().len(), 52);
    for (i, card) in Card::all().into_iter().enumerate() {
        let suit = Suit::from_num(i / 13);
        let rank = Rank::from_num(i % 13 + 1);
        assert_eq!(card.suit(), suit);
        assert_eq!(card.rank(), rank);
        let extra = i as u8 % 4;
        let bits = card.to_bits(extra);
        assert_eq!(Card::option_to_bits(Some(card), extra), bits);
        assert_eq!(Card::from_bits(bits), (card, extra));
        assert_eq!(Card::option_from_bits(bits), (Some(card), extra));
    }
    assert_eq!(Card::option_to_bits(None, 0), 0);
    assert_eq!(Card::option_from_bits(0), (None, 0));
}

#[test]
fn suit_test() {
    assert_eq!(Suit::all().len(), 4);
    for (i, suit) in Suit::all().into_iter().enumerate() {
        let c = suit.color();
        let v = suit.variant();
        assert_eq!(Suit::from_variant(c, v), suit);
        assert_eq!(suit.num(), i);
        assert_eq!(Suit::from_num(i), suit);
        assert_eq!(Variant::from_bit(v.as_bit()), v);
        assert_ne!(Variant::from_bit(!v.as_bit()), v);
        assert_ne!(c, c.opposite());
        assert_eq!(c, c.opposite().opposite());
    }
}

#[test]
fn rank_test() {
    assert_eq!(Rank::all().len(), 13);
    for (i, rank) in Rank::all().into_iter().enumerate() {
        assert_eq!(rank.num(), i + 1);
        assert_eq!(Rank::from_num(i + 1), rank);
    }
}

#[test]
fn deck_test() {
    let deck = Deck::new();
    assert_eq!(deck.cards[0], Rank::Ace.of(Suit::Spades));
    assert_eq!(deck.cards[1], Rank::Two.of(Suit::Spades));
    assert_eq!(deck.cards[2], Rank::Three.of(Suit::Spades));
    assert_eq!(deck.cards[13], Rank::Ace.of(Suit::Hearts));
    assert_eq!(deck.cards[30], Rank::Five.of(Suit::Clubs));
    assert_eq!(deck.cards[51], Rank::King.of(Suit::Diamonds));
}

#[test]
fn deck_validity_test() {
    let deck = Deck::new();
    assert!(deck.is_valid());
    let mut broken = Deck::new();
    broken.cards[3] = broken.cards[40];
    assert!(!broken.is_valid());
}
