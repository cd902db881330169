//! A five-card poker hand classifier and comparator.
//!
//! Hands are given as text, five space-separated card tokens each.
//! Every hand is parsed into cards, classified into one of nine ordered
//! categories, and given a tie-break key; the winner selector returns the
//! input hands whose `(category, tie-break)` pair is maximal.

pub mod card;
pub mod classify;
pub mod parse;
pub mod ranks;
pub mod winner;

pub use card::{Card, ParseError, Suit, parse_card};
pub use classify::{HandType, determine_hand_type, profile_hand};
pub use parse::{Hand, parse_hand};
pub use winner::winning_hands;
