use poker_hands::card::Card;
use poker_hands::deck::Deck;
use poker_hands::errors::ParseError;
use poker_hands::source::load_hands;
use poker_hands::suit::Suit;

#[test]
fn card_token_round_trip_for_all_fifty_two_cards() {
    for suit_char in ['D', 'C', 'H', 'S'] {
        let suit = Suit::from_char(suit_char).unwrap();
        for rank in 2u8..=14 {
            let card = Card { rank, suit };
            let token = card.to_string();
            let back = Card::parse_token(&token).unwrap();
            assert_eq!(back, card);
        }
    }
}

#[test]
fn rank_tokens_render_canonically() {
    assert_eq!(Card::rank_to_string(2), "2");
    assert_eq!(Card::rank_to_string(9), "9");
    assert_eq!(Card::rank_to_string(10), "10");
    assert_eq!(Card::rank_to_string(11), "J");
    assert_eq!(Card::rank_to_string(12), "Q");
    assert_eq!(Card::rank_to_string(13), "K");
    assert_eq!(Card::rank_to_string(14), "A");
    assert_eq!(Card::rank_to_string(1), "Unknown");
    assert_eq!(Card::rank_to_string(15), "Unknown");
}

#[test]
fn rank_tokens_parse() {
    assert_eq!(Card::string_to_rank("A"), Some(14));
    assert_eq!(Card::string_to_rank("K"), Some(13));
    assert_eq!(Card::string_to_rank("Q"), Some(12));
    assert_eq!(Card::string_to_rank("J"), Some(11));
    assert_eq!(Card::string_to_rank("10"), Some(10));
    assert_eq!(Card::string_to_rank("2"), Some(2));
    assert_eq!(Card::string_to_rank("1"), None);
    assert_eq!(Card::string_to_rank("11"), None);
    assert_eq!(Card::string_to_rank(""), None);
    assert_eq!(Card::string_to_rank("AA"), None);
}

#[test]
fn card_new_checks_rank_then_suit() {
    let card = Card::new("10", 'D').unwrap();
    assert_eq!(card, Card { rank: 10, suit: Suit::Diamonds });
    assert_eq!(Card::new("Z", 'D'), Err(ParseError::InvalidRank));
    assert_eq!(Card::new("Z", 'X'), Err(ParseError::InvalidRank));
    assert_eq!(Card::new("5", 'X'), Err(ParseError::InvalidSuit));
}

#[test]
fn card_tokens_render() {
    assert_eq!(Card { rank: 10, suit: Suit::Diamonds }.to_string(), "10D");
    assert_eq!(Card { rank: 14, suit: Suit::Spades }.to_string(), "AS");
    assert_eq!(Card { rank: 2, suit: Suit::Hearts }.to_string(), "2H");
}

#[test]
fn parse_token_rejects_malformed_tokens() {
    assert_eq!(Card::parse_token(""), Err(ParseError::MalformedToken));
    assert_eq!(Card::parse_token("5"), Err(ParseError::MalformedToken));
    assert_eq!(Card::parse_token("5X"), Err(ParseError::InvalidSuit));
    assert_eq!(Card::parse_token("1D"), Err(ParseError::InvalidRank));
    assert_eq!(Card::parse_token("11D"), Err(ParseError::InvalidRank));
}

#[test]
fn suit_round_trip() {
    for suit in [Suit::Diamonds, Suit::Clubs, Suit::Hearts, Suit::Spades] {
        assert_eq!(Suit::from_char(suit.to_char()), Ok(suit));
    }
    assert_eq!(Suit::from_char('X'), Err(ParseError::InvalidSuit));
    assert_eq!(Suit::from_char('d'), Err(ParseError::InvalidSuit));
}

fn line(tokens: &[&str]) -> Vec<String> {
    tokens.iter().map(|t| t.to_string()).collect()
}

#[test]
fn loading_six_hands_succeeds() {
    let lines = vec![
        line(&["2D", "3D", "4D", "5D", "6D"]),
        line(&["2C", "3C", "4C", "5C", "6C"]),
        line(&["2H", "3H", "4H", "5H", "6H"]),
        line(&["2S", "3S", "4S", "5S", "6S"]),
        line(&["7D", "7C", "7H", "7S", "8D"]),
        line(&["10D", "JD", "QD", "KD", "AD"]),
    ];
    let hands = load_hands(&lines).unwrap();
    assert_eq!(hands.len(), 6);
    assert_eq!(hands[0].len(), 5);
    assert_eq!(hands[0][0], Card { rank: 2, suit: Suit::Diamonds });
    assert_eq!(hands[5][4], Card { rank: 14, suit: Suit::Diamonds });
}

#[test]
fn loading_rejects_a_token_seen_in_two_hands() {
    // "2D" appears in two different hands: the load aborts with
    // DuplicateCard.
    let lines = vec![
        line(&["2D", "3D", "4D", "5D", "6D"]),
        line(&["2D", "3C", "4C", "5C", "6C"]),
    ];
    assert_eq!(load_hands(&lines), Err(ParseError::DuplicateCard));
}

#[test]
fn loading_rejects_a_token_seen_twice_in_one_hand() {
    let lines = vec![line(&["2D", "2D", "4D", "5D", "6D"])];
    assert_eq!(load_hands(&lines), Err(ParseError::DuplicateCard));
}

#[test]
fn loading_surfaces_parse_errors() {
    assert_eq!(
        load_hands(&vec![line(&["2D", "3"])]),
        Err(ParseError::MalformedToken)
    );
    assert_eq!(
        load_hands(&vec![line(&["2D", "3Z"])]),
        Err(ParseError::InvalidSuit)
    );
    assert_eq!(
        load_hands(&vec![line(&["2D", "0D"])]),
        Err(ParseError::InvalidRank)
    );
}

#[test]
fn fresh_deck_holds_each_card_once() {
    let deck = Deck::new();
    assert_eq!(deck.cards.len(), 52);
    for suit_char in ['D', 'C', 'H', 'S'] {
        let suit = Suit::from_char(suit_char).unwrap();
        for rank in 2u8..=14 {
            let wanted = Card { rank, suit };
            let found = deck.cards.iter().filter(|c| **c == wanted).count();
            assert_eq!(found, 1);
        }
    }
    // The deck is grouped by suit in creation order.
    assert_eq!(deck.cards[0], Card { rank: 2, suit: Suit::Diamonds });
    assert_eq!(deck.cards[13], Card { rank: 2, suit: Suit::Clubs });
    assert_eq!(deck.cards[51], Card { rank: 14, suit: Suit::Spades });
}

#[test]
fn shuffling_keeps_exactly_the_same_cards() {
    let mut deck = Deck::new();
    deck.shuffle();
    assert_eq!(deck.cards.len(), 52);
    for suit_char in ['D', 'C', 'H', 'S'] {
        let suit = Suit::from_char(suit_char).unwrap();
        for rank in 2u8..=14 {
            let wanted = Card { rank, suit };
            let found = deck.cards.iter().filter(|c| **c == wanted).count();
            assert_eq!(found, 1);
        }
    }
}

#[test]
fn dealing_hands_goes_round_robin_off_the_front() {
    let mut deck = Deck::new();
    let mut hands: Vec<Vec<Card>> = vec![Vec::new(); 6];
    let before = deck.cards.clone();
    deck.deal_hands(&mut hands);
    assert_eq!(deck.cards.len(), 52 - 30);
    for (j, hand) in hands.iter().enumerate() {
        assert_eq!(hand.len(), 5);
        for (r, card) in hand.iter().enumerate() {
            assert_eq!(*card, before[r * 6 + j]);
        }
    }
    assert_eq!(deck.cards[0], before[30]);
}
