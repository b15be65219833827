use crate::errors::ParseError;
use vstd::prelude::*;

verus! {

/// A card suit. Each suit carries a fixed tie-break weight
/// (see [`Suit::rank`]); the weight never affects the category a
/// hand is classified into, only final tie-breaks.
#[derive(Debug, Clone, Copy, PartialEq, Eq, Hash, Structural)]
pub enum Suit {
    Diamonds,
    Clubs,
    Hearts,
    Spades,
}

impl Suit {
    /// The canonical character naming this suit: 'D', 'C', 'H' or 'S'.
    pub open spec fn spec_char(self) -> char {
        match self {
            Suit::Diamonds => 'D',
            Suit::Clubs => 'C',
            Suit::Hearts => 'H',
            Suit::Spades => 'S',
        }
    }

    /// The suit a character names, if any.
    pub open spec fn spec_from_char(c: char) -> Option<Suit> {
        if c == 'D' {
            Some(Suit::Diamonds)
        } else if c == 'C' {
            Some(Suit::Clubs)
        } else if c == 'H' {
            Some(Suit::Hearts)
        } else if c == 'S' {
            Some(Suit::Spades)
        } else {
            None
        }
    }

    /// The fixed tie-break weight of this suit:
    /// Diamonds 1, Clubs 2, Hearts 3, Spades 4.
    pub open spec fn spec_rank(self) -> u8 {
        match self {
            Suit::Diamonds => 1,
            Suit::Clubs => 2,
            Suit::Hearts => 3,
            Suit::Spades => 4,
        }
    }

    /// Convert a character to a suit; any unrecognized character is
    /// rejected with `ParseError::InvalidSuit`.
    pub fn from_char(c: char) -> (r: Result<Suit, ParseError>)
        ensures
            r == match Suit::spec_from_char(c) {
                Some(s) => Ok::<Suit, ParseError>(s),
                None => Err::<Suit, ParseError>(ParseError::InvalidSuit),
            },
    {
        match c {
            'D' => Ok(Suit::Diamonds),
            'C' => Ok(Suit::Clubs),
            'H' => Ok(Suit::Hearts),
            'S' => Ok(Suit::Spades),
            _ => Err(ParseError::InvalidSuit),
        }
    }

    /// The canonical character for this suit.
    pub fn to_char(&self) -> (c: char)
        ensures
            c == self.spec_char(),
    {
        match self {
            Suit::Diamonds => 'D',
            Suit::Clubs => 'C',
            Suit::Hearts => 'H',
            Suit::Spades => 'S',
        }
    }

    /// The fixed tie-break weight of this suit.
    pub fn rank(&self) -> (r: u8)
        ensures
            r == self.spec_rank(),
    {
        match self {
            Suit::Diamonds => 1,
            Suit::Clubs => 2,
            Suit::Hearts => 3,
            Suit::Spades => 4,
        }
    }
}

} // verus!
