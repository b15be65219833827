use crate::errors::ParseError;
use crate::suit::Suit;
use vstd::prelude::*;

verus! {

/// A playing card: a rank in 2..=14, where 11..=14 stand for Jack,
/// Queen, King and Ace, and a suit. Two cards are equal iff both rank
/// and suit are equal.
#[derive(Debug, Clone, Copy, PartialEq, Eq, Structural)]
pub struct Card {
    pub rank: u8,
    pub suit: Suit,
}

/// `String::push` is not specified by vstd.
/// Relies on `alloc::string::String::push` appending exactly the given
/// character to the end of the string.
pub assume_specification[ String::push ](s: &mut String, ch: char)
    ensures
        final(s)@ == old(s)@.push(ch),
;

impl Card {
    /// A card that can come from a standard deck.
    pub open spec fn valid(self) -> bool {
        2 <= self.rank <= 14
    }

    /// The rank named by a single-character rank token, if any.
    pub open spec fn spec_rank_of_char(c: char) -> Option<u8> {
        if c == '2' {
            Some(2u8)
        } else if c == '3' {
            Some(3u8)
        } else if c == '4' {
            Some(4u8)
        } else if c == '5' {
            Some(5u8)
        } else if c == '6' {
            Some(6u8)
        } else if c == '7' {
            Some(7u8)
        } else if c == '8' {
            Some(8u8)
        } else if c == '9' {
            Some(9u8)
        } else if c == 'J' {
            Some(11u8)
        } else if c == 'Q' {
            Some(12u8)
        } else if c == 'K' {
            Some(13u8)
        } else if c == 'A' {
            Some(14u8)
        } else {
            None
        }
    }

    /// The rank named by a rank token, if any. The recognized tokens
    /// are exactly "2".."10", "J", "Q", "K" and "A".
    pub open spec fn spec_rank_of_token(s: Seq<char>) -> Option<u8> {
        if s.len() == 1 {
            Card::spec_rank_of_char(s[0])
        } else if s.len() == 2 && s[0] == '1' && s[1] == '0' {
            Some(10u8)
        } else {
            None
        }
    }

    /// The canonical token of a rank value; ranks outside 2..=14 have
    /// no token and render as "Unknown".
    pub open spec fn spec_rank_token(rank: u8) -> Seq<char> {
        if rank == 2 {
            seq!['2']
        } else if rank == 3 {
            seq!['3']
        } else if rank == 4 {
            seq!['4']
        } else if rank == 5 {
            seq!['5']
        } else if rank == 6 {
            seq!['6']
        } else if rank == 7 {
            seq!['7']
        } else if rank == 8 {
            seq!['8']
        } else if rank == 9 {
            seq!['9']
        } else if rank == 10 {
            seq!['1', '0']
        } else if rank == 11 {
            seq!['J']
        } else if rank == 12 {
            seq!['Q']
        } else if rank == 13 {
            seq!['K']
        } else if rank == 14 {
            seq!['A']
        } else {
            seq!['U', 'n', 'k', 'n', 'o', 'w', 'n']
        }
    }

    /// The canonical token of this card: its rank token followed by
    /// its suit character, e.g. "10D" or "AS".
    pub open spec fn spec_token(self) -> Seq<char> {
        Card::spec_rank_token(self.rank).push(self.suit.spec_char())
    }

    /// What constructing a card from a rank token and a suit character
    /// yields: the rank token is checked first, then the suit.
    pub open spec fn spec_new(rank_token: Seq<char>, suit_char: char) -> Result<Card, ParseError> {
        match Card::spec_rank_of_token(rank_token) {
            None => Err(ParseError::InvalidRank),
            Some(rank) => match Suit::spec_from_char(suit_char) {
                None => Err(ParseError::InvalidSuit),
                Some(suit) => Ok(Card { rank, suit }),
            },
        }
    }

    /// What parsing a whole card token yields. A token shorter than
    /// two characters is malformed; otherwise its last character must
    /// name a suit and the rest must be a rank token.
    pub open spec fn spec_parse(s: Seq<char>) -> Result<Card, ParseError> {
        if s.len() < 2 {
            Err(ParseError::MalformedToken)
        } else {
            match Suit::spec_from_char(s.last()) {
                None => Err(ParseError::InvalidSuit),
                Some(suit) => match Card::spec_rank_of_token(s.take(s.len() - 1)) {
                    None => Err(ParseError::InvalidRank),
                    Some(rank) => Ok(Card { rank, suit }),
                },
            }
        }
    }

    /// Construct a card from a rank token and a suit character.
    pub fn new(rank: &str, suit_char: char) -> (r: Result<Card, ParseError>)
        ensures
            r == Card::spec_new(rank@, suit_char),
    {
        let rank = match Card::rank_to_int(rank) {
            Ok(v) => v,
            Err(e) => {
                return Err(e);
            },
        };
        let suit = match Suit::from_char(suit_char) {
            Ok(s) => s,
            Err(e) => {
                return Err(e);
            },
        };
        Ok(Card { rank, suit })
    }

    /// The rank a token names, or `None` for an unrecognized token.
    pub fn string_to_rank(s: &str) -> (r: Option<u8>)
        ensures
            r == Card::spec_rank_of_token(s@),
    {
        let n = s.unicode_len();
        if n == 1 {
            let c = s.get_char(0);
            if c == '2' {
                Some(2)
            } else if c == '3' {
                Some(3)
            } else if c == '4' {
                Some(4)
            } else if c == '5' {
                Some(5)
            } else if c == '6' {
                Some(6)
            } else if c == '7' {
                Some(7)
            } else if c == '8' {
                Some(8)
            } else if c == '9' {
                Some(9)
            } else if c == 'J' {
                Some(11)
            } else if c == 'Q' {
                Some(12)
            } else if c == 'K' {
                Some(13)
            } else if c == 'A' {
                Some(14)
            } else {
                None
            }
        } else if n == 2 {
            let c0 = s.get_char(0);
            let c1 = s.get_char(1);
            if c0 == '1' && c1 == '0' {
                Some(10)
            } else {
                None
            }
        } else {
            None
        }
    }

    /// The rank a token names, or `ParseError::InvalidRank`.
    fn rank_to_int(rank: &str) -> (r: Result<u8, ParseError>)
        ensures
            r == match Card::spec_rank_of_token(rank@) {
                Some(v) => Ok::<u8, ParseError>(v),
                None => Err::<u8, ParseError>(ParseError::InvalidRank),
            },
    {
        match Card::string_to_rank(rank) {
            Some(v) => Ok(v),
            None => Err(ParseError::InvalidRank),
        }
    }

    /// Render a rank value as its canonical token.
    pub fn rank_to_string(rank: u8) -> (r: String)
        ensures
            r@ == Card::spec_rank_token(rank),
    {
        proof {
            reveal_strlit("2");
            reveal_strlit("3");
            reveal_strlit("4");
            reveal_strlit("5");
            reveal_strlit("6");
            reveal_strlit("7");
            reveal_strlit("8");
            reveal_strlit("9");
            reveal_strlit("10");
            reveal_strlit("J");
            reveal_strlit("Q");
            reveal_strlit("K");
            reveal_strlit("A");
            reveal_strlit("Unknown");
        }
        let r = match rank {
            2 => "2",
            3 => "3",
            4 => "4",
            5 => "5",
            6 => "6",
            7 => "7",
            8 => "8",
            9 => "9",
            10 => "10",
            11 => "J",
            12 => "Q",
            13 => "K",
            14 => "A",
            _ => "Unknown",
        };
        assert(r@ =~= Card::spec_rank_token(rank));
        r.to_owned()
    }

    /// Render this card as its canonical token.
    pub fn to_string(&self) -> (r: String)
        ensures
            r@ == self.spec_token(),
    {
        let mut r = Card::rank_to_string(self.rank);
        r.push(self.suit.to_char());
        r
    }

    /// Parse a whole card token, e.g. "10D" or "AS".
    pub fn parse_token(token: &str) -> (r: Result<Card, ParseError>)
        ensures
            r == Card::spec_parse(token@),
    {
        let n = token.unicode_len();
        if n < 2 {
            return Err(ParseError::MalformedToken);
        }
        let suit_char = token.get_char(n - 1);
        let rank_str = token.substring_char(0, n - 1);
        let suit = match Suit::from_char(suit_char) {
            Ok(s) => s,
            Err(_) => {
                return Err(ParseError::InvalidSuit);
            },
        };
        match Card::string_to_rank(rank_str) {
            Some(rank) => Ok(Card { rank, suit }),
            None => Err(ParseError::InvalidRank),
        }
    }
}

/// Round trip: rendering a card from a standard deck to its canonical
/// token and parsing the token back yields the same card, for every
/// rank in 2..=14 and every suit.
pub proof fn lemma_token_round_trip(c: Card)
    requires
        c.valid(),
    ensures
        Card::spec_parse(c.spec_token()) == Ok::<Card, ParseError>(c),
{
    let t = c.spec_token();
    let rt = Card::spec_rank_token(c.rank);
    assert(t.len() == rt.len() + 1);
    assert(t.last() == c.suit.spec_char());
    assert(t.take(t.len() - 1) =~= rt);
    assert(Suit::spec_from_char(c.suit.spec_char()) == Some(c.suit));
    assert(Card::spec_rank_of_token(rt) == Some(c.rank));
}

} // verus!
