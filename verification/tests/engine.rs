use klondike::{Action, ClosedState, Deck, Explorer, Foundation, Game, GameState, Rank, Stack, SearchOverrun, Suit};

#[test]
fn test_encode_decode() {
    let deck = Deck::new();
    let mut s = GameState::new(&deck);
    assert_eq!(s, GameState::decode(s.encode(), &deck));
    s.stock.next(3);
    assert_eq!(s, GameState::decode(s.encode(), &deck));
    // The queen of hearts moves from column 6 onto the king of clubs.
    let q = s.stacks[6].take().unwrap();
    assert_eq!(q, Rank::Queen.of(Suit::Hearts));
    s.stacks[2].add(q).unwrap();
    s.stacks[6] = Stack::single(s.closed.open(6, &deck).unwrap());
    assert_eq!(s, GameState::decode(s.encode(), &deck));
    // The ace of clubs goes up, revealing a backing card on column 5.
    let a = s.stacks[5].take().unwrap();
    assert_eq!(a, Rank::Ace.of(Suit::Clubs));
    s.foundation.add(a).unwrap();
    s.stacks[5] = Stack::single(s.closed.open(5, &deck).unwrap());
    assert_eq!(s, GameState::decode(s.encode(), &deck));
    // Draw through the stock to the ace of spades and play it up: the
    // decoded stock must reconstruct the removed card's absence.
    s.stock.next(24);
    assert_eq!(s.stock.top_open_card(&deck), Some(Rank::Ace.of(Suit::Spades)));
    s.foundation.add(Rank::Ace.of(Suit::Spades)).unwrap();
    s.stock.take().unwrap();
    assert_eq!(s, GameState::decode(s.encode(), &deck));
}

/// The canonical deal: stock advance shows the jack of hearts, the columns
/// hide a triangular count, and the foundation takes aces before twos.
#[test]
fn initial_deal_test() {
    let deck = Deck::new();
    let s = GameState::new(&deck);
    let mut stock = s.stock;
    stock.next(1);
    assert_eq!(stock.top_open_card(&deck), Some(Rank::Jack.of(Suit::Hearts)));
    for i in 0..7 {
        assert_eq!(s.closed.n_closed(i), i);
    }
    let mut f = Foundation::new();
    assert!(f.add(Rank::Two.of(Suit::Hearts)).is_err());
    assert!(f.add(Rank::Ace.of(Suit::Hearts)).is_ok());
    assert!(f.add(Rank::Two.of(Suit::Hearts)).is_ok());
}

#[test]
fn action_engine_test() {
    let deck = Deck::new();
    let mut g = Game::new(&deck);
    // No stock card is open yet.
    assert_eq!(g.action(Action::StockToFoundation), Err(()));
    assert_eq!(g.action(Action::StockToStack(0)), Err(()));
    // The queen of hearts moves onto the king of clubs, revealing the king
    // of hearts beneath it.
    assert_eq!(g.action(Action::StackToStack { from: 6, to: 2, n: 1 }), Ok(()));
    assert_eq!(g.state.stacks[2].len(), 2);
    assert_eq!(g.state.stacks[2].get(1), Some(Rank::Queen.of(Suit::Hearts)));
    assert_eq!(g.state.stacks[6].len(), 1);
    assert_eq!(g.state.stacks[6].get(0), Some(Rank::King.of(Suit::Hearts)));
    assert_eq!(g.state.closed.n_closed(6), 5);
    // The ace of clubs goes up, revealing the three of clubs.
    assert_eq!(g.action(Action::StackToFoundation(5)), Ok(()));
    assert_eq!(g.state.foundation.top_card(Suit::Clubs), Some(Rank::Ace.of(Suit::Clubs)));
    assert_eq!(g.state.stacks[5].get(0), Some(Rank::Three.of(Suit::Clubs)));
    // Drawing advances the stock by three.
    assert_eq!(g.action(Action::NextStock), Ok(()));
    assert_eq!(g.state.stock.top_open_card(&g.deck), Some(Rank::Nine.of(Suit::Hearts)));
    // Rejected moves change nothing.
    let before = g.state;
    assert_eq!(g.action(Action::StackToStack { from: 1, to: 3, n: 1 }), Err(()));
    assert_eq!(g.action(Action::StackToStack { from: 0, to: 1, n: 5 }), Err(()));
    assert_eq!(g.action(Action::StockToFoundation), Err(()));
    assert_eq!(g.state, before);
}

#[test]
fn possible_actions_test() {
    let deck = Deck::new();
    let g = Game::new(&deck);
    let acts = g.for_all_possible_actions();
    assert_eq!(acts[0], Action::StockToFoundation);
    assert_eq!(acts[1], Action::StockToStack(0));
    assert_eq!(acts[8], Action::StackToFoundation(0));
    assert_eq!(acts[15], Action::NextStock);
    // Whole-run candidates follow, source-major; each moves the full run.
    assert!(acts.contains(&Action::StackToStack { from: 6, to: 2, n: 1 }));
    assert!(!acts.contains(&Action::StackToStack { from: 0, to: 0, n: 1 }));
}

/// A completed foundation is recognized, and the explorer reports the win
/// at once — but never explores the same encoding productively twice.
#[test]
fn win_and_dedup_test() {
    let deck = Deck::new();
    let mut g = Game::new(&deck);
    let mut f = Foundation::new();
    for suit in Suit::all() {
        for rank in Rank::all() {
            assert!(f.add(rank.of(suit)).is_ok());
        }
    }
    assert!(f.is_complete());
    g.state.foundation = f;
    assert!(g.state.foundation.is_complete());
    let mut e = Explorer::new();
    assert_eq!(e.explore(&g, 0), Ok(true));
    assert_eq!(e.n_seen(), 1);
    // The same position again: the seen-set check short-circuits.
    assert_eq!(e.explore(&g, 0), Ok(false));
    assert_eq!(e.n_seen(), 1);
    // The closest visited state is that very win, 52 cards up.
    let best = e.closest().unwrap();
    let bf = best.get_foundation();
    assert!(bf.is_complete());
}

/// One move from victory: the search finds the win and records the move
/// path that reaches it.
#[test]
fn solver_path_test() {
    let deck = Deck::new();
    let mut g = Game::new(&deck);
    // Everything is up but the king of diamonds, which waits on column 0;
    // the stock is exhausted and no column hides anything.
    let mut f = Foundation::new();
    for suit in [Suit::Spades, Suit::Hearts, Suit::Clubs] {
        for rank in Rank::all() {
            assert!(f.add(rank.of(suit)).is_ok());
        }
    }
    for rank in Rank::all() {
        if rank != Rank::King {
            assert!(f.add(rank.of(Suit::Diamonds)).is_ok());
        }
    }
    g.state.foundation = f;
    g.state.stock = klondike::Stock { cursor: 0, present: [false; 24] };
    g.state.closed = ClosedState { counts: [0; 7] };
    g.state.stacks = [Stack::new(); 7];
    g.state.stacks[0] = Stack::single(Rank::King.of(Suit::Diamonds));
    assert_eq!(g.state, GameState::decode(g.state.encode(), &deck));
    let mut e = Explorer::new();
    assert_eq!(e.explore(&g, 0), Ok(true));
    assert_eq!(e.n_seen(), 2);
    assert_eq!(e.actions.len(), 1);
    assert_eq!(e.actions[0].1, Action::StackToFoundation(0));
    let reached = GameState::decode(e.actions[0].0, &deck);
    assert!(reached.foundation.is_complete());
}

/// A stuck position: nothing can move, so the search reports no win after
/// visiting exactly this one state.
#[test]
fn solver_no_win_test() {
    let deck = Deck::new();
    let mut g = Game::new(&deck);
    g.state.stock = klondike::Stock { cursor: 0, present: [false; 24] };
    g.state.closed = ClosedState { counts: [0; 7] };
    g.state.stacks = [Stack::new(); 7];
    g.state.stacks[0] = Stack::single(Rank::Queen.of(Suit::Spades));
    let mut e = Explorer::new();
    assert_eq!(e.explore(&g, 0), Ok(false));
    assert_eq!(e.n_seen(), 1);
    assert_eq!(e.actions.len(), 0);
}

/// Past the hard depth ceiling the search reports the fatal overrun.
#[test]
fn overrun_test() {
    let deck = Deck::new();
    let g = Game::new(&deck);
    let mut e = Explorer::new();
    assert_eq!(e.explore(&g, 501), Err(SearchOverrun));
}

/// A packed key carries its foundation: encode, then read it back without
/// the deck.
#[test]
fn key_foundation_test() {
    let deck = Deck::new();
    let mut s = GameState::new(&deck);
    let a = s.stacks[5].take().unwrap();
    s.foundation.add(a).unwrap();
    s.stacks[5] = Stack::single(s.closed.open(5, &deck).unwrap());
    let key = s.encode();
    let f = key.get_foundation();
    assert_eq!(f.top_card(Suit::Clubs), Some(Rank::Ace.of(Suit::Clubs)));
    assert_eq!(f.top_card(Suit::Spades), None);
    assert_eq!(f.n_cards(Suit::Clubs), 1);
}
