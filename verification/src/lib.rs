//! A verified five-card poker hand analyzer.
//!
//! The library models cards, classifies five-card hands into the ten
//! ranked categories, totally orders hands with category-specific
//! tie-breaks, sorts collections of hands from strongest to weakest,
//! and loads hands from textual card tokens.

pub mod card;
pub mod deck;
pub mod errors;
pub mod hand;
pub mod hand_rank;
pub mod source;
pub mod suit;
