use klondike::{ClosedState, Deck, Foundation, Rank, Stack, Stock, Suit};

#[test]
fn stock_test() {
    let deck = Deck::new(); // Sorted deck

    let mut stock = Stock::new(); // Uses cards 0..24 from the deck.

    // Starting situation:
    //  Closed cards: (bottom) spades A..K, hearts A..J (top)
    //  No open cards.

    assert_eq!(stock.is_empty(), false);
    assert_eq!(stock.n_cards(), 24);
    assert_eq!(stock.n_closed_cards(), 24);
    assert_eq!(stock.top_open_card(&deck), None);

    stock.next(1);

    assert_eq!(stock.top_open_card(&deck), Some(Rank::Jack.of(Suit::Hearts)));
    assert_eq!(stock.top_open_card(&deck), Some(Rank::Jack.of(Suit::Hearts)));

    stock.next(3);

    assert_eq!(stock.top_open_card(&deck), Some(Rank::Eight.of(Suit::Hearts)));

    assert_eq!(stock.is_empty(), false);
    assert_eq!(stock.n_cards(), 24);
    assert_eq!(stock.n_closed_cards(), 20);

    assert_eq!(stock.take(), Ok(()));

    assert_eq!(stock.is_empty(), false);
    assert_eq!(stock.n_cards(), 23);
    assert_eq!(stock.n_closed_cards(), 20);
    assert_eq!(stock.top_open_card(&deck), Some(Rank::Nine.of(Suit::Hearts)));

    stock.next(1);

    assert_eq!(stock.is_empty(), false);
    assert_eq!(stock.n_cards(), 23);
    assert_eq!(stock.n_closed_cards(), 19);
    assert_eq!(stock.top_open_card(&deck), Some(Rank::Seven.of(Suit::Hearts)));

    assert_eq!(stock.take(), Ok(()));
    assert_eq!(stock.top_open_card(&deck), Some(Rank::Nine.of(Suit::Hearts)));
    assert_eq!(stock.take(), Ok(()));
    assert_eq!(stock.top_open_card(&deck), Some(Rank::Ten.of(Suit::Hearts)));
    assert_eq!(stock.take(), Ok(()));
    assert_eq!(stock.top_open_card(&deck), Some(Rank::Jack.of(Suit::Hearts)));
    assert_eq!(stock.take(), Ok(()));
    assert_eq!(stock.top_open_card(&deck), None);
    assert_eq!(stock.take(), Err(()));
    assert_eq!(stock.top_open_card(&deck), None);
    assert_eq!(stock.is_empty(), false);
    assert_eq!(stock.n_cards(), 19);
    assert_eq!(stock.n_closed_cards(), 19);

    stock.next(17);

    assert_eq!(stock.top_open_card(&deck), Some(Rank::Three.of(Suit::Spades)));
    assert_eq!(stock.take(), Ok(()));

    assert_eq!(stock.n_closed_cards(), 2);
    assert_eq!(stock.n_cards(), 18);

    stock.next(10);

    assert_eq!(stock.n_closed_cards(), 0);
    assert_eq!(stock.n_cards(), 18);
    assert_eq!(stock.top_open_card(&deck), Some(Rank::Ace.of(Suit::Spades)));

    stock.next(10);

    assert_eq!(stock.n_closed_cards(), 18);
    assert_eq!(stock.n_cards(), 18);

    assert_eq!(stock.top_open_card(&deck), None);

    stock.next(18);

    for _ in 0..18 {
        assert_eq!(stock.take(), Ok(()));
    }

    assert_eq!(stock.is_empty(), true);
    assert_eq!(stock.n_cards(), 0);
    assert_eq!(stock.n_closed_cards(), 0);
    assert_eq!(stock.top_open_card(&deck), None);

    assert_eq!(stock.take(), Err(()));

    stock.next(1);

    assert_eq!(stock.is_empty(), true);
    assert_eq!(stock.n_cards(), 0);
    assert_eq!(stock.n_closed_cards(), 0);
    assert_eq!(stock.top_open_card(&deck), None);

    assert_eq!(stock.take(), Err(()));
}

#[test]
fn closed_test() {
    let deck = Deck::new();
    // With an ordered deck, the initially closed cards are, per column,
    // the diamonds, clubs and king of hearts dealt from the deck's tail.

    let mut state = ClosedState::new();
    for i in 0..7 {
        assert_eq!(state.n_closed(i), i);
    }
    assert_eq!(ClosedState::from_bits(state.to_bits(0)), (state.clone(), 0));
    assert_eq!(state.open(0, &deck), Err(()));
    assert_eq!(state.open(1, &deck), Ok(Rank::Queen.of(Suit::Diamonds)));
    assert_eq!(state.open(1, &deck), Err(()));
    assert_eq!(state.n_closed(0), 0);
    assert_eq!(state.n_closed(1), 0);
    assert_eq!(state.n_closed(2), 2);
    assert_eq!(state.open(5, &deck), Ok(Rank::Three.of(Suit::Clubs)));
    assert_eq!(ClosedState::from_bits(state.to_bits(1)), (state.clone(), 1));
    assert_eq!(state.open(5, &deck), Ok(Rank::Six.of(Suit::Clubs)));
    assert_eq!(state.open(5, &deck), Ok(Rank::Ten.of(Suit::Clubs)));
    assert_eq!(ClosedState::from_bits(state.to_bits(3)), (state.clone(), 3));
    assert_eq!(state.n_closed(5), 2);
    assert_eq!(state.open(6, &deck), Ok(Rank::King.of(Suit::Hearts)));
    assert_eq!(state.n_closed(6), 5);
    assert_eq!(state.open(5, &deck), Ok(Rank::Two.of(Suit::Diamonds)));
    assert_eq!(ClosedState::from_bits(state.to_bits(2)), (state.clone(), 2));
    assert_eq!(state.open(5, &deck), Ok(Rank::Eight.of(Suit::Diamonds)));
    assert_eq!(state.open(5, &deck), Err(()));
    assert_eq!(state.n_closed(5), 0);
}

#[test]
fn foundation_test() {
    let mut f = Foundation::new();
    assert_eq!(f.top_card(Suit::Spades), None);
    assert_eq!(f.top_card(Suit::Hearts), None);
    assert_eq!(f.top_card(Suit::Clubs), None);
    assert_eq!(f.top_card(Suit::Diamonds), None);
    assert!(!f.contains(Rank::Ace.of(Suit::Hearts)));
    assert!(f.add(Rank::Ace.of(Suit::Hearts)).is_ok());
    assert!(f.contains(Rank::Ace.of(Suit::Hearts)));
    assert!(!f.contains(Rank::Two.of(Suit::Hearts)));
    assert_eq!(f.top_card(Suit::Spades), None);
    assert_eq!(f.top_card(Suit::Hearts), Some(Rank::Ace.of(Suit::Hearts)));
    assert_eq!(f.top_card(Suit::Clubs), None);
    assert_eq!(f.top_card(Suit::Diamonds), None);
    assert!(f.add(Rank::Ace.of(Suit::Hearts)).is_err());
    assert!(f.add(Rank::Three.of(Suit::Hearts)).is_err());
    assert!(f.add(Rank::Two.of(Suit::Hearts)).is_ok());
    assert!(f.add(Rank::Two.of(Suit::Spades)).is_err());
    assert!(f.add(Rank::Ace.of(Suit::Spades)).is_ok());
    assert_eq!(f.top_card(Suit::Spades), Some(Rank::Ace.of(Suit::Spades)));
    assert_eq!(f.top_card(Suit::Hearts), Some(Rank::Two.of(Suit::Hearts)));
    assert_eq!(f.top_card(Suit::Clubs), None);
    assert_eq!(f.top_card(Suit::Diamonds), None);
    assert!(f.contains(Rank::Two.of(Suit::Hearts)));
    assert!(!f.contains(Rank::Three.of(Suit::Hearts)));
    for rank in Rank::all() {
        let card = rank.of(Suit::Diamonds);
        assert!(!f.contains(card));
        assert!(f.add(card).is_ok());
        assert!(f.add(card).is_err());
        assert_eq!(f.top_card(Suit::Diamonds), Some(card));
        assert!(f.contains(card));
    }
}

#[test]
fn test_single() {
    let mut stack = Stack::new();
    assert!(!stack.contains(Rank::Nine.of(Suit::Hearts)));
    assert_eq!(stack.len(), 0);
    assert_eq!(stack.to_bits(0), (0, 0));
    assert_eq!(Stack::from_bits((0, 0)), (Stack::new(), 0));
    assert_eq!(stack.take(), Err(()));
    assert!(stack.add(Rank::Nine.of(Suit::Hearts)).is_err());
    assert!(stack.add(Rank::King.of(Suit::Hearts)).is_ok());
    assert!(stack.contains(Rank::King.of(Suit::Hearts)));
    assert!(!stack.contains(Rank::King.of(Suit::Diamonds)));
    assert!(!stack.contains(Rank::Queen.of(Suit::Spades)));
    assert_eq!(stack.len(), 1);
    assert_eq!(stack, Stack::single(Rank::King.of(Suit::Hearts)));
    assert_eq!(Stack::from_bits(stack.to_bits(2)), (stack.clone(), 2));
    assert_eq!(stack.take(), Ok(Rank::King.of(Suit::Hearts)));
    assert_eq!(stack.len(), 0);
    assert_eq!(stack.take(), Err(()));
}

#[test]
fn test_multiple() {
    let mut stack = Stack::single(Rank::Seven.of(Suit::Clubs));
    assert_eq!(stack.len(), 1);
    assert!(stack.contains(Rank::Seven.of(Suit::Clubs)));
    assert!(!stack.contains(Rank::Six.of(Suit::Diamonds)));
    assert!(stack.add(Rank::Six.of(Suit::Diamonds)).is_ok());
    assert_eq!(stack.len(), 2);
    assert!(stack.contains(Rank::Seven.of(Suit::Clubs)));
    assert!(stack.contains(Rank::Six.of(Suit::Diamonds)));
    assert!(!stack.contains(Rank::Six.of(Suit::Hearts)));
    assert!(stack.add(Rank::Five.of(Suit::Diamonds)).is_err());
    assert_eq!(stack.len(), 2);
    assert!(stack.add(Rank::Five.of(Suit::Clubs)).is_ok());
    assert_eq!(stack.len(), 3);
    assert!(stack.add(Rank::Four.of(Suit::Hearts)).is_ok());
    assert_eq!(stack.len(), 4);
    assert!(stack.add(Rank::Three.of(Suit::Spades)).is_ok());
    assert_eq!(stack.len(), 5);
    assert_eq!(Stack::from_bits(stack.to_bits(1)), (stack.clone(), 1));
    assert_eq!(stack.get(0), Some(Rank::Seven.of(Suit::Clubs)));
    assert_eq!(stack.get(1), Some(Rank::Six.of(Suit::Diamonds)));
    assert_eq!(stack.get(2), Some(Rank::Five.of(Suit::Clubs)));
    assert_eq!(stack.get(3), Some(Rank::Four.of(Suit::Hearts)));
    assert_eq!(stack.get(4), Some(Rank::Three.of(Suit::Spades)));
    assert_eq!(stack.get(5), None);
    assert!(stack.contains(Rank::Four.of(Suit::Hearts)));
    assert!(!stack.contains(Rank::Four.of(Suit::Diamonds)));
    assert!(stack.contains(Rank::Three.of(Suit::Spades)));
    assert!(!stack.contains(Rank::Three.of(Suit::Clubs)));
    assert!(!stack.contains(Rank::Two.of(Suit::Hearts)));
    assert!(!stack.contains(Rank::Two.of(Suit::Diamonds)));
    assert_eq!(stack.take(), Ok(Rank::Three.of(Suit::Spades)));
    assert_eq!(stack.take(), Ok(Rank::Four.of(Suit::Hearts)));
    assert_eq!(stack.take(), Ok(Rank::Five.of(Suit::Clubs)));
    assert_eq!(stack.take(), Ok(Rank::Six.of(Suit::Diamonds)));
    assert_eq!(stack.take(), Ok(Rank::Seven.of(Suit::Clubs)));
    assert_eq!(stack.take(), Err(()));
    assert_eq!(stack, Stack::new());
}

/// The run shape: ranks descend one per position and colors alternate.
#[test]
fn stack_run_shape_test() {
    let mut stack = Stack::single(Rank::King.of(Suit::Spades));
    assert!(stack.add(Rank::Queen.of(Suit::Hearts)).is_ok());
    assert!(stack.add(Rank::Jack.of(Suit::Clubs)).is_ok());
    assert!(stack.add(Rank::Ten.of(Suit::Diamonds)).is_ok());
    for i in 0..4 {
        let card = stack.get(i).unwrap();
        assert_eq!(card.rank().num(), 13 - i);
        assert_eq!(
            card.suit().color(),
            if i % 2 == 0 {
                Suit::Spades.color()
            } else {
                Suit::Spades.color().opposite()
            }
        );
    }
}

/// Foundation counts only ever grow, by one, with the card's rank equal to
/// the new count.
#[test]
fn foundation_monotonic_test() {
    let mut f = Foundation::new();
    for (i, rank) in Rank::all().into_iter().enumerate() {
        assert_eq!(f.n_cards(Suit::Clubs), i);
        assert_eq!(rank.num(), i + 1);
        assert!(f.add(rank.of(Suit::Clubs)).is_ok());
        assert_eq!(f.n_cards(Suit::Clubs), i + 1);
        assert_eq!(f.n_cards(Suit::Hearts), 0);
    }
    assert!(!f.is_complete());
}

/// Stock conservation: `take` removes exactly one card, `next` none.
#[test]
fn stock_conservation_test() {
    let deck = Deck::new();
    let mut stock = Stock::new();
    assert_eq!(stock.n_cards(), 24);
    stock.next(3);
    assert_eq!(stock.n_cards(), 24);
    assert_eq!(stock.take(), Ok(()));
    assert_eq!(stock.n_cards(), 23);
    stock.next(3);
    stock.next(3);
    assert_eq!(stock.n_cards(), 23);
    assert!(stock.top_open_card(&deck).is_some());
}
