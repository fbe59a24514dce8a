//! Rule engine for a shedding-type climbing card game.
//!
//! The engine decides whether a group of cards forms a legal combination
//! (a `CardSet`), whether such a combination counts as a bomb, whether one
//! combination beats another, and how a played combination is removed from a
//! player's `Hand`. All of it is pure value logic; the surrounding session
//! layer only moves these values around.

pub mod card;
pub mod card_set;
pub mod hand;
pub mod laws;
pub mod message;
pub mod user;
