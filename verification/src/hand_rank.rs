use vstd::prelude::*;

verus! {

/// The ten hand categories, listed weakest first. The strength table
/// ([`HandRank::strength`]) is the primary comparison axis between any
/// two hands.
#[derive(Debug, Clone, Copy, PartialEq, Eq, Structural)]
pub enum HandRank {
    HighCard,
    Pair,
    TwoPair,
    ThreeOfAKind,
    Straight,
    Flush,
    FullHouse,
    FourOfAKind,
    StraightFlush,
    RoyalFlush,
}

impl HandRank {
    /// The strength of this category, strictly increasing from
    /// HighCard (1) to RoyalFlush (10).
    pub open spec fn spec_strength(self) -> u8 {
        match self {
            HandRank::HighCard => 1,
            HandRank::Pair => 2,
            HandRank::TwoPair => 3,
            HandRank::ThreeOfAKind => 4,
            HandRank::Straight => 5,
            HandRank::Flush => 6,
            HandRank::FullHouse => 7,
            HandRank::FourOfAKind => 8,
            HandRank::StraightFlush => 9,
            HandRank::RoyalFlush => 10,
        }
    }

    /// The strength of this category.
    pub fn strength(&self) -> (s: u8)
        ensures
            s == self.spec_strength(),
    {
        match self {
            HandRank::HighCard => 1,
            HandRank::Pair => 2,
            HandRank::TwoPair => 3,
            HandRank::ThreeOfAKind => 4,
            HandRank::Straight => 5,
            HandRank::Flush => 6,
            HandRank::FullHouse => 7,
            HandRank::FourOfAKind => 8,
            HandRank::StraightFlush => 9,
            HandRank::RoyalFlush => 10,
        }
    }

    /// The human-readable label of this category.
    pub open spec fn spec_label(self) -> Seq<char> {
        match self {
            HandRank::HighCard => "High Card"@,
            HandRank::Pair => "Pair"@,
            HandRank::TwoPair => "Two Pair"@,
            HandRank::ThreeOfAKind => "Three Of A Kind"@,
            HandRank::Straight => "Straight"@,
            HandRank::Flush => "Flush"@,
            HandRank::FullHouse => "Full House"@,
            HandRank::FourOfAKind => "Four Of A Kind"@,
            HandRank::StraightFlush => "Straight Flush"@,
            HandRank::RoyalFlush => "Royal Straight Flush"@,
        }
    }

    /// The human-readable label of this category.
    pub fn to_string(&self) -> (r: &'static str)
        ensures
            r@ == self.spec_label(),
    {
        match self {
            HandRank::HighCard => "High Card",
            HandRank::Pair => "Pair",
            HandRank::TwoPair => "Two Pair",
            HandRank::ThreeOfAKind => "Three Of A Kind",
            HandRank::Straight => "Straight",
            HandRank::Flush => "Flush",
            HandRank::FullHouse => "Full House",
            HandRank::FourOfAKind => "Four Of A Kind",
            HandRank::StraightFlush => "Straight Flush",
            HandRank::RoyalFlush => "Royal Straight Flush",
        }
    }
}

/// The category ordering is total and fixed: RoyalFlush > StraightFlush
/// > FourOfAKind > FullHouse > Flush > Straight > ThreeOfAKind >
/// TwoPair > Pair > HighCard, and no two categories share a strength.
pub proof fn lemma_category_order_total()
    ensures
        HandRank::RoyalFlush.spec_strength() > HandRank::StraightFlush.spec_strength(),
        HandRank::StraightFlush.spec_strength() > HandRank::FourOfAKind.spec_strength(),
        HandRank::FourOfAKind.spec_strength() > HandRank::FullHouse.spec_strength(),
        HandRank::FullHouse.spec_strength() > HandRank::Flush.spec_strength(),
        HandRank::Flush.spec_strength() > HandRank::Straight.spec_strength(),
        HandRank::Straight.spec_strength() > HandRank::ThreeOfAKind.spec_strength(),
        HandRank::ThreeOfAKind.spec_strength() > HandRank::TwoPair.spec_strength(),
        HandRank::TwoPair.spec_strength() > HandRank::Pair.spec_strength(),
        HandRank::Pair.spec_strength() > HandRank::HighCard.spec_strength(),
        forall|a: HandRank, b: HandRank| a.spec_strength() == b.spec_strength() ==> a == b,
{
    assert forall|a: HandRank, b: HandRank| a.spec_strength() == b.spec_strength() implies a
        == b by {
        match a {
            HandRank::HighCard => {},
            HandRank::Pair => {},
            HandRank::TwoPair => {},
            HandRank::ThreeOfAKind => {},
            HandRank::Straight => {},
            HandRank::Flush => {},
            HandRank::FullHouse => {},
            HandRank::FourOfAKind => {},
            HandRank::StraightFlush => {},
            HandRank::RoyalFlush => {},
        }
    }
}

} // verus!
