//! A verified engine for a turn-based concentration (memory) card game.
//!
//! The crate has two halves. The card-set generator builds a shuffled
//! layout of packed card codes that is guaranteed to be pairable under
//! the chosen match rule. The match engine ([`deck::Deck`]) owns such a
//! layout together with the live game state and applies moves, evaluates
//! the match rule, advances turns and scores, and reports the terminal
//! outcome. Randomness enters only through [`rng::GameRng`]; everything
//! downstream of the random draws is verified.

pub mod cards;
pub mod components;
pub mod deck;
pub mod gen;
pub mod laws;
pub mod rng;
pub mod text;

pub use cards::{MatchRules, Mode};
pub use components::{Card, Coordinates, Idx, Player, PlayerOps};
pub use deck::{Cell, Deck, FlipPhase, InitError, PlayError};
pub use rng::GameRng;
