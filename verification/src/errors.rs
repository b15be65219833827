use vstd::prelude::*;

verus! {

/// Why a card token or a hand description was rejected.
#[derive(Debug, Clone, Copy, PartialEq, Eq, Structural)]
pub enum ParseError {
    /// The rank part of a card token is not one of "2".."10", "J", "Q", "K", "A".
    InvalidRank,
    /// The suit character of a card token is not one of 'D', 'C', 'H', 'S'.
    InvalidSuit,
    /// A card token is too short to hold a rank and a suit.
    MalformedToken,
    /// The same card token occurs more than once across the loaded hands.
    DuplicateCard,
    /// The hand description could not be read at all.
    SourceUnavailable,
}

} // verus!
