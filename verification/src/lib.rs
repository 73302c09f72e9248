//! Playing cards, a 52-card deck that can be shuffled, and the rules of the
//! card game War, with their contracts proved by Verus.

pub mod card;
pub mod deck;
pub mod input;
pub mod rng;
pub mod war;
pub mod war_laws;

pub use card::{Card, CardValue, Suit};
pub use deck::Deck;
pub use war::Table;
