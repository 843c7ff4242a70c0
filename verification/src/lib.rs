//! A Klondike Solitaire rules engine and exhaustive solver.
//!
//! The engine models the four pile types (stock/waste, face-down tableau
//! backing, face-up tableau stacks, foundations), the aggregate game state
//! with its compact fixed-width encoding, the rule engine that validates and
//! applies player actions, and a memoized depth-first solver.

pub mod card;
pub mod closed;
pub mod codec;
pub mod deck;
pub mod explorer;
pub mod foundation;
pub mod game;
pub mod gamestate;
pub mod rank;
pub mod stack;
pub mod stock;
pub mod suit;

pub use card::Card;
pub use closed::ClosedState;
pub use deck::Deck;
pub use explorer::{Explorer, SearchOverrun};
pub use foundation::Foundation;
pub use game::{Action, Game};
pub use gamestate::{EncodedGameState, GameState};
pub use rank::Rank;
pub use stack::Stack;
pub use stock::Stock;
pub use suit::{Color, Suit, Variant};
