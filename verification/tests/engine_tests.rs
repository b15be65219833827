use poker_hands::card::Card;
use poker_hands::hand::{
    classify_hand, compare_hands, count_occurrences, get_highest_card, get_highest_non_pair_card,
    get_highest_pair_rank, get_kicker, get_lowest_pair_rank, get_pair_rank, get_quad_rank,
    get_triplet_rank, is_ace_low_straight, is_straight, sort_hands, suit_rank,
};
use poker_hands::hand_rank::HandRank;
use poker_hands::suit::Suit;

fn c(rank: u8, suit: Suit) -> Card {
    Card { rank, suit }
}

const D: Suit = Suit::Diamonds;
const C: Suit = Suit::Clubs;
const H: Suit = Suit::Hearts;
const S: Suit = Suit::Spades;

#[test]
fn royal_flush_classifies() {
    // {10D, JD, QD, KD, AD}
    let hand = vec![c(10, D), c(11, D), c(12, D), c(13, D), c(14, D)];
    assert_eq!(classify_hand(&hand), HandRank::RoyalFlush);
}

#[test]
fn ace_low_straight_classifies() {
    // {2D, 3C, 4H, 5S, AD}
    let hand = vec![c(2, D), c(3, C), c(4, H), c(5, S), c(14, D)];
    assert_eq!(classify_hand(&hand), HandRank::Straight);
    assert!(is_ace_low_straight(&hand));
    assert!(is_straight(&hand));
}

#[test]
fn straight_flush_classifies() {
    let hand = vec![c(5, H), c(6, H), c(7, H), c(8, H), c(9, H)];
    assert_eq!(classify_hand(&hand), HandRank::StraightFlush);
}

#[test]
fn four_of_a_kind_classifies() {
    let hand = vec![c(9, D), c(9, C), c(9, H), c(9, S), c(2, D)];
    assert_eq!(classify_hand(&hand), HandRank::FourOfAKind);
    assert_eq!(get_quad_rank(&hand), 9);
}

#[test]
fn full_house_classifies() {
    let hand = vec![c(8, D), c(8, C), c(8, H), c(3, S), c(3, D)];
    assert_eq!(classify_hand(&hand), HandRank::FullHouse);
    assert_eq!(get_triplet_rank(&hand), 8);
    assert_eq!(get_pair_rank(&hand), 3);
}

#[test]
fn flush_classifies() {
    let hand = vec![c(2, S), c(7, S), c(9, S), c(11, S), c(13, S)];
    assert_eq!(classify_hand(&hand), HandRank::Flush);
}

#[test]
fn straight_classifies() {
    let hand = vec![c(6, D), c(7, C), c(8, H), c(9, S), c(10, D)];
    assert_eq!(classify_hand(&hand), HandRank::Straight);
    assert!(is_straight(&hand));
}

#[test]
fn three_of_a_kind_classifies() {
    let hand = vec![c(4, D), c(4, C), c(4, H), c(9, S), c(12, D)];
    assert_eq!(classify_hand(&hand), HandRank::ThreeOfAKind);
    assert_eq!(get_triplet_rank(&hand), 4);
}

#[test]
fn two_pair_classifies() {
    let hand = vec![c(6, D), c(6, C), c(10, H), c(10, S), c(3, D)];
    assert_eq!(classify_hand(&hand), HandRank::TwoPair);
    assert_eq!(get_highest_pair_rank(&hand), 10);
    assert_eq!(get_lowest_pair_rank(&hand), 6);
    assert_eq!(get_kicker(&hand), Some(4));
}

#[test]
fn pair_classifies() {
    let hand = vec![c(12, D), c(12, C), c(2, H), c(7, S), c(9, D)];
    assert_eq!(classify_hand(&hand), HandRank::Pair);
    assert_eq!(get_pair_rank(&hand), 12);
}

#[test]
fn high_card_classifies() {
    let hand = vec![c(2, D), c(5, C), c(9, H), c(11, S), c(13, D)];
    assert_eq!(classify_hand(&hand), HandRank::HighCard);
}

#[test]
fn classification_is_permutation_invariant() {
    let hand = vec![c(8, D), c(8, C), c(8, H), c(3, S), c(3, D)];
    let permuted = vec![c(3, D), c(8, H), c(3, S), c(8, D), c(8, C)];
    assert_eq!(classify_hand(&hand), classify_hand(&permuted));
    let wheel = vec![c(14, D), c(5, S), c(3, C), c(2, D), c(4, H)];
    assert_eq!(classify_hand(&wheel), HandRank::Straight);
}

#[test]
fn two_pair_tiebreak_prefers_higher_second_pair() {
    // {AD,AC,KD,KC,2S} vs {AD,AC,QD,QC,KS}: the first wins on K > Q.
    let first = vec![c(14, D), c(14, C), c(13, D), c(13, C), c(2, S)];
    let second = vec![c(14, D), c(14, C), c(12, D), c(12, C), c(13, S)];
    assert_eq!(compare_hands(&first, &second), 1);
    assert_eq!(compare_hands(&second, &first), -1);
}

#[test]
fn three_of_a_kind_tiebreak_prefers_higher_triplet() {
    // {7D,7C,7H,2S,3D} vs {9D,9C,9H,2S,3D}: the second wins.
    let first = vec![c(7, D), c(7, C), c(7, H), c(2, S), c(3, D)];
    let second = vec![c(9, D), c(9, C), c(9, H), c(2, S), c(3, D)];
    assert_eq!(compare_hands(&first, &second), -1);
    assert_eq!(compare_hands(&second, &first), 1);
}

#[test]
fn categories_beat_lower_categories() {
    let royal = vec![c(10, D), c(11, D), c(12, D), c(13, D), c(14, D)];
    let quad = vec![c(9, D), c(9, C), c(9, H), c(9, S), c(2, D)];
    let pair = vec![c(12, D), c(12, C), c(2, H), c(7, S), c(9, D)];
    assert_eq!(compare_hands(&royal, &quad), 1);
    assert_eq!(compare_hands(&quad, &royal), -1);
    assert_eq!(compare_hands(&quad, &pair), 1);
    assert_eq!(compare_hands(&pair, &quad), -1);
}

#[test]
fn ace_low_straight_loses_to_six_high_straight() {
    let wheel = vec![c(14, D), c(2, C), c(3, H), c(4, S), c(5, D)];
    let six_high = vec![c(2, D), c(3, C), c(4, H), c(5, S), c(6, D)];
    // The wheel's effective high card is the 5, the other's is the 6.
    assert_eq!(compare_hands(&wheel, &six_high), -1);
    assert_eq!(compare_hands(&six_high, &wheel), 1);
}

#[test]
fn flush_tiebreak_falls_to_suit_of_highest_card() {
    let spades = vec![c(2, S), c(7, S), c(9, S), c(11, S), c(13, S)];
    let hearts = vec![c(2, H), c(7, H), c(9, H), c(11, H), c(13, H)];
    // Equal high ranks: the suit weight of the king decides, S > H.
    assert_eq!(compare_hands(&spades, &hearts), 1);
    assert_eq!(compare_hands(&hearts, &spades), -1);
}

#[test]
fn equal_pair_hands_with_equal_kicker_ranks_stay_undecided() {
    let first = vec![c(5, D), c(5, C), c(13, D), c(12, D), c(9, D)];
    let second = vec![c(5, H), c(5, S), c(13, H), c(12, H), c(9, H)];
    assert_eq!(compare_hands(&first, &second), 0);
}

#[test]
fn sorting_six_hands_of_distinct_categories_descends() {
    let mut hands = vec![
        vec![c(2, D), c(5, C), c(9, H), c(11, S), c(13, D)],   // high card
        vec![c(10, D), c(11, D), c(12, D), c(13, D), c(14, D)], // royal flush
        vec![c(12, D), c(12, C), c(2, H), c(7, S), c(9, D)],   // pair
        vec![c(9, D), c(9, C), c(9, H), c(9, S), c(2, D)],     // four of a kind
        vec![c(6, D), c(7, C), c(8, H), c(9, S), c(10, H)],    // straight
        vec![c(8, D), c(8, C), c(8, H), c(3, S), c(3, D)],     // full house
    ];
    let ranks = sort_hands(&mut hands);
    assert_eq!(
        ranks,
        vec![
            HandRank::RoyalFlush,
            HandRank::FourOfAKind,
            HandRank::FullHouse,
            HandRank::Straight,
            HandRank::Pair,
            HandRank::HighCard,
        ]
    );
    // The returned categories describe the sorted hands.
    for (i, hand) in hands.iter().enumerate() {
        assert_eq!(classify_hand(hand), ranks[i]);
    }
}

#[test]
fn getters_report_exact_values() {
    let hand = vec![c(6, D), c(6, C), c(10, H), c(10, S), c(3, D)];
    assert_eq!(count_occurrences(&hand, 6), 2);
    assert_eq!(count_occurrences(&hand, 10), 2);
    assert_eq!(count_occurrences(&hand, 3), 1);
    assert_eq!(count_occurrences(&hand, 14), 0);
    let top = get_highest_card(&hand, false);
    assert_eq!(top.rank, 10);
    assert_eq!(top.suit, S);
    assert_eq!(get_highest_non_pair_card(&hand), Some(c(3, D)));
    let no_pairs = vec![c(2, D), c(5, C), c(9, H), c(11, S), c(13, D)];
    assert_eq!(get_pair_rank(&no_pairs), -1);
    assert_eq!(get_highest_pair_rank(&no_pairs), -1);
    assert_eq!(get_lowest_pair_rank(&no_pairs), -1);
    assert_eq!(get_triplet_rank(&no_pairs), -1);
    assert_eq!(get_quad_rank(&no_pairs), -1);
    assert_eq!(get_kicker(&no_pairs), Some(4));
}

#[test]
fn highest_card_counts_ace_low_in_wheel() {
    let wheel = vec![c(14, D), c(2, C), c(3, H), c(4, S), c(5, D)];
    let top = get_highest_card(&wheel, true);
    assert_eq!(top.rank, 5);
    assert_eq!(top.suit, D);
    let top_high = get_highest_card(&wheel, false);
    assert_eq!(top_high.rank, 14);
}

#[test]
fn suit_weights_are_fixed() {
    assert_eq!(suit_rank(Suit::Diamonds), 1);
    assert_eq!(suit_rank(Suit::Clubs), 2);
    assert_eq!(suit_rank(Suit::Hearts), 3);
    assert_eq!(suit_rank(Suit::Spades), 4);
}

#[test]
fn category_strengths_are_totally_ordered() {
    let order = [
        HandRank::HighCard,
        HandRank::Pair,
        HandRank::TwoPair,
        HandRank::ThreeOfAKind,
        HandRank::Straight,
        HandRank::Flush,
        HandRank::FullHouse,
        HandRank::FourOfAKind,
        HandRank::StraightFlush,
        HandRank::RoyalFlush,
    ];
    for (i, cat) in order.iter().enumerate() {
        assert_eq!(cat.strength() as usize, i + 1);
    }
}

#[test]
fn category_labels() {
    assert_eq!(HandRank::HighCard.to_string(), "High Card");
    assert_eq!(HandRank::TwoPair.to_string(), "Two Pair");
    assert_eq!(HandRank::RoyalFlush.to_string(), "Royal Straight Flush");
}

#[test]
fn high_card_tiebreak_uses_rank_then_suit() {
    let first = vec![c(2, D), c(5, C), c(9, H), c(11, S), c(13, D)];
    let second = vec![c(2, H), c(5, S), c(9, C), c(10, S), c(13, H)];
    // Equal king-high: the king's suit decides, H > D.
    assert_eq!(compare_hands(&first, &second), -1);
    assert_eq!(compare_hands(&second, &first), 1);
    let third = vec![c(2, H), c(5, S), c(9, C), c(12, S), c(14, H)];
    // Ace-high beats king-high.
    assert_eq!(compare_hands(&first, &third), -1);
    assert_eq!(compare_hands(&third, &first), 1);
}

#[test]
fn four_of_a_kind_tiebreak_uses_quad_rank() {
    let nines = vec![c(9, D), c(9, C), c(9, H), c(9, S), c(2, D)];
    let jacks = vec![c(11, D), c(11, C), c(11, H), c(11, S), c(2, C)];
    assert_eq!(compare_hands(&nines, &jacks), -1);
    assert_eq!(compare_hands(&jacks, &nines), 1);
}

#[test]
fn full_house_tiebreak_uses_triplet_then_pair() {
    let eights_over_threes = vec![c(8, D), c(8, C), c(8, H), c(3, S), c(3, D)];
    let eights_over_kings = vec![c(8, S), c(8, D), c(8, C), c(13, S), c(13, D)];
    // Same triplet rank cannot occur from one deck, so compare by pair
    // via hands with distinct triplets first.
    let tens_over_twos = vec![c(10, D), c(10, C), c(10, H), c(2, S), c(2, D)];
    assert_eq!(compare_hands(&eights_over_threes, &tens_over_twos), -1);
    assert_eq!(compare_hands(&tens_over_twos, &eights_over_threes), 1);
    // Equal triplet (same hand family): the pair decides.
    assert_eq!(compare_hands(&eights_over_threes, &eights_over_kings), -1);
    assert_eq!(compare_hands(&eights_over_kings, &eights_over_threes), 1);
}

#[test]
fn pair_tiebreak_with_distinct_kicker_ranks_uses_kicker_suit() {
    // Equal pairs of fives; kickers K vs Q have distinct ranks, so the
    // kickers' suits decide: D (1) vs H (3).
    let first = vec![c(5, D), c(5, C), c(13, D), c(4, D), c(9, D)];
    let second = vec![c(5, H), c(5, S), c(12, H), c(4, H), c(9, H)];
    assert_eq!(compare_hands(&first, &second), -1);
    assert_eq!(compare_hands(&second, &first), 1);
}

#[test]
fn straight_tiebreak_falls_to_suit_of_high_card() {
    let first = vec![c(6, D), c(7, C), c(8, H), c(9, S), c(10, D)];
    let second = vec![c(6, C), c(7, D), c(8, S), c(9, H), c(10, S)];
    // Equal ten-high straights: the ten's suit decides, S > D.
    assert_eq!(compare_hands(&first, &second), -1);
    assert_eq!(compare_hands(&second, &first), 1);
}
