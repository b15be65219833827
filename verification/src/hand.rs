use crate::card::Card;
use crate::hand_rank::HandRank;
use crate::suit::Suit;
use vstd::multiset::Multiset;
use vstd::prelude::*;

verus! {

// ---------------------------------------------------------------------
// The mathematical model of a hand.
// ---------------------------------------------------------------------
/// A well-formed hand: exactly five cards from a standard deck, no two
/// identical.
pub open spec fn wf_hand(h: Seq<Card>) -> bool {
    &&& h.len() == 5
    &&& forall|i: int| 0 <= i < h.len() ==> (#[trigger] h[i]).valid()
    &&& forall|i: int, k: int| 0 <= i < k < h.len() ==> h[i] != h[k]
}

/// How many cards of the hand carry the given rank.
pub open spec fn count_rank(h: Seq<Card>, rank: u8) -> nat
    decreases h.len(),
{
    if h.len() == 0 {
        0
    } else {
        count_rank(h.drop_last(), rank) + if h.last().rank == rank {
            1nat
        } else {
            0nat
        }
    }
}

/// Some card of the hand carries the given rank.
pub open spec fn has_rank(h: Seq<Card>, rank: u8) -> bool {
    exists|i: int| 0 <= i < h.len() && h[i].rank == rank
}

/// Some rank occurs exactly `c` times in the hand.
pub open spec fn has_count(h: Seq<Card>, c: nat) -> bool {
    exists|r: u8| count_rank(h, r) == c
}

/// Two different ranks each occur exactly twice.
pub open spec fn has_two_pairs(h: Seq<Card>) -> bool {
    exists|r1: u8, r2: u8|
        r1 != r2 && count_rank(h, r1) == 2 && count_rank(h, r2) == 2
}

/// All cards of the hand share one suit.
pub open spec fn spec_flush(h: Seq<Card>) -> bool {
    forall|i: int| 0 <= i < h.len() ==> (#[trigger] h[i]).suit == h[0].suit
}

/// No two cards of the hand share a rank.
pub open spec fn distinct_ranks(h: Seq<Card>) -> bool {
    forall|i: int, k: int| 0 <= i < k < h.len() ==> h[i].rank != h[k].rank
}

/// The highest rank in the hand.
pub open spec fn max_rank(h: Seq<Card>) -> u8
    recommends
        h.len() > 0,
    decreases h.len(),
{
    if h.len() <= 1 {
        h[0].rank
    } else {
        let m = max_rank(h.drop_last());
        if h.last().rank > m {
            h.last().rank
        } else {
            m
        }
    }
}

/// The lowest rank in the hand.
pub open spec fn min_rank(h: Seq<Card>) -> u8
    recommends
        h.len() > 0,
    decreases h.len(),
{
    if h.len() <= 1 {
        h[0].rank
    } else {
        let m = min_rank(h.drop_last());
        if h.last().rank < m {
            h.last().rank
        } else {
            m
        }
    }
}

/// The hand holds exactly the ranks of the Ace-low straight
/// {A, 2, 3, 4, 5}.
pub open spec fn spec_ace_low(h: Seq<Card>) -> bool {
    &&& distinct_ranks(h)
    &&& has_rank(h, 14)
    &&& has_rank(h, 2)
    &&& has_rank(h, 3)
    &&& has_rank(h, 4)
    &&& has_rank(h, 5)
}

/// The hand is a straight: all ranks distinct and consecutive, with
/// the Ace-low straight as the one exception to the consecutive rule.
pub open spec fn spec_straight(h: Seq<Card>) -> bool {
    distinct_ranks(h) && (spec_ace_low(h) || max_rank(h) - min_rank(h) == 4)
}

/// The hand holds exactly the ranks {10, J, Q, K, A}.
pub open spec fn spec_royal(h: Seq<Card>) -> bool {
    &&& has_rank(h, 10)
    &&& has_rank(h, 11)
    &&& has_rank(h, 12)
    &&& has_rank(h, 13)
    &&& has_rank(h, 14)
}

/// The category of a five-card hand, per the classification rules:
/// flushes and straights first, then the rank occurrence counts.
pub open spec fn category_of(h: Seq<Card>) -> HandRank {
    if spec_flush(h) && spec_straight(h) {
        if spec_royal(h) {
            HandRank::RoyalFlush
        } else {
            HandRank::StraightFlush
        }
    } else if has_count(h, 4) {
        HandRank::FourOfAKind
    } else if has_count(h, 3) && has_count(h, 2) {
        HandRank::FullHouse
    } else if spec_flush(h) {
        HandRank::Flush
    } else if spec_straight(h) {
        HandRank::Straight
    } else if has_count(h, 3) {
        HandRank::ThreeOfAKind
    } else if has_two_pairs(h) {
        HandRank::TwoPair
    } else if has_count(h, 2) {
        HandRank::Pair
    } else {
        HandRank::HighCard
    }
}

// ---------------------------------------------------------------------
// Tie-break attributes.
// ---------------------------------------------------------------------
/// The card as tie-breaks see it: the Ace counts as rank 1 when the
/// hand is scored as an Ace-low straight.
pub open spec fn eff_card(c: Card, ace_low: bool) -> Card {
    if ace_low && c.rank == 14 {
        Card { rank: 1, suit: c.suit }
    } else {
        c
    }
}

/// The last card of the sequence carrying its highest rank.
pub open spec fn last_max_card(h: Seq<Card>) -> Card
    recommends
        h.len() > 0,
    decreases h.len(),
{
    if h.len() <= 1 {
        h[0]
    } else {
        let p = last_max_card(h.drop_last());
        if h.last().rank >= p.rank {
            h.last()
        } else {
            p
        }
    }
}

/// The card `get_highest_card` picks: the last card with the highest
/// effective rank.
pub open spec fn highest_card(h: Seq<Card>, ace_low: bool) -> Card {
    last_max_card(h.map_values(|c: Card| eff_card(c, ace_low)))
}

/// The rank of the first card, in hand order from index `i`, whose
/// rank occurs exactly `c` times in the whole hand; -1 when there is
/// none.
pub open spec fn first_rank_with_count(h: Seq<Card>, c: nat, i: int) -> i32
    decreases h.len() - i,
{
    if i < 0 || i >= h.len() {
        -1i32
    } else if count_rank(h, h[i].rank) == c {
        h[i].rank as i32
    } else {
        first_rank_with_count(h, c, i + 1)
    }
}

/// The rank of the pair as `get_pair_rank` reports it.
pub open spec fn pair_rank(h: Seq<Card>) -> i32 {
    first_rank_with_count(h, 2, 0)
}

/// The rank of the triplet as `get_triplet_rank` reports it.
pub open spec fn trip_rank(h: Seq<Card>) -> i32 {
    first_rank_with_count(h, 3, 0)
}

/// The rank of the quadruplet as `get_quad_rank` reports it.
pub open spec fn quad_rank(h: Seq<Card>) -> i32 {
    first_rank_with_count(h, 4, 0)
}

/// The highest rank occurring exactly twice among the first `i` cards;
/// -1 when there is none.
pub open spec fn high_pair_upto(h: Seq<Card>, i: int) -> i32
    decreases i,
{
    if i <= 0 {
        -1i32
    } else {
        let p = high_pair_upto(h, i - 1);
        if count_rank(h, h[i - 1].rank) == 2 && h[i - 1].rank as i32 > p {
            h[i - 1].rank as i32
        } else {
            p
        }
    }
}

/// The highest rank of a pair in the hand; -1 when the hand holds no
/// pair.
pub open spec fn high_pair_rank(h: Seq<Card>) -> i32 {
    high_pair_upto(h, h.len() as int)
}

/// The lowest rank occurring exactly twice among the first `i` cards;
/// 15 when there is none.
pub open spec fn low_pair_upto(h: Seq<Card>, i: int) -> i32
    decreases i,
{
    if i <= 0 {
        15i32
    } else {
        let p = low_pair_upto(h, i - 1);
        if count_rank(h, h[i - 1].rank) == 2 && (h[i - 1].rank as i32) < p {
            h[i - 1].rank as i32
        } else {
            p
        }
    }
}

/// The lowest rank of a pair in the hand; -1 when the hand holds no
/// pair.
pub open spec fn low_pair_rank(h: Seq<Card>) -> i32 {
    if low_pair_upto(h, h.len() as int) == 15 {
        -1i32
    } else {
        low_pair_upto(h, h.len() as int)
    }
}

/// The state of the kicker scan over the first `i` cards: the highest
/// rank seen that occurs exactly once in the hand, and the index of
/// the first card carrying it.
pub open spec fn kicker_upto(h: Seq<Card>, i: int) -> (u8, Option<int>)
    decreases i,
{
    if i <= 0 {
        (0u8, None)
    } else {
        let (mv, ki) = kicker_upto(h, i - 1);
        if count_rank(h, h[i - 1].rank) == 1 && h[i - 1].rank > mv {
            (h[i - 1].rank, Some(i - 1))
        } else {
            (mv, ki)
        }
    }
}

/// The index of the kicker as `get_kicker` reports it.
pub open spec fn kicker_index(h: Seq<Card>) -> Option<int> {
    kicker_upto(h, h.len() as int).1
}

/// The card `get_highest_non_pair_card` picks among the first `i`
/// cards: the last highest-ranked card whose rank does not occur
/// exactly twice.
pub open spec fn non_pair_max_upto(h: Seq<Card>, i: int) -> Option<Card>
    decreases i,
{
    if i <= 0 {
        None
    } else {
        let p = non_pair_max_upto(h, i - 1);
        let c = h[i - 1];
        if count_rank(h, c.rank) != 2 {
            match p {
                None => Some(c),
                Some(pc) => if c.rank >= pc.rank {
                    Some(c)
                } else {
                    p
                },
            }
        } else {
            p
        }
    }
}

/// The highest non-pair card of the hand, if any.
pub open spec fn non_pair_max(h: Seq<Card>) -> Option<Card> {
    non_pair_max_upto(h, h.len() as int)
}

// ---------------------------------------------------------------------
// The comparator, as a function.
// ---------------------------------------------------------------------
/// What `compare_hands` returns for two well-formed hands: -1 when the
/// first hand loses, 1 when it wins, and 0 only on the residual ties
/// that the tie-break rules leave undecided. The category strength is
/// the primary key; hands of equal category fall to the
/// category-specific tie-breaks.
pub open spec fn compare_spec(a: Seq<Card>, b: Seq<Card>) -> i32 {
    let ca = category_of(a);
    let cb = category_of(b);
    if ca != cb {
        if ca.spec_strength() < cb.spec_strength() {
            -1i32
        } else {
            1i32
        }
    } else if ca == HandRank::Flush || ca == HandRank::StraightFlush || ca
        == HandRank::RoyalFlush {
        let x = highest_card(a, false);
        let y = highest_card(b, false);
        if x.rank != y.rank {
            if x.rank < y.rank {
                -1i32
            } else {
                1i32
            }
        } else if x.suit.spec_rank() < y.suit.spec_rank() {
            -1i32
        } else {
            1i32
        }
    } else if ca == HandRank::Straight {
        let x = highest_card(a, spec_ace_low(a));
        let y = highest_card(b, spec_ace_low(b));
        if x.rank != y.rank {
            if x.rank < y.rank {
                -1i32
            } else {
                1i32
            }
        } else if x.suit.spec_rank() < y.suit.spec_rank() {
            -1i32
        } else {
            1i32
        }
    } else if ca == HandRank::TwoPair {
        if high_pair_rank(a) != high_pair_rank(b) {
            if high_pair_rank(a) < high_pair_rank(b) {
                -1i32
            } else {
                1i32
            }
        } else if low_pair_rank(a) != low_pair_rank(b) {
            if low_pair_rank(a) < low_pair_rank(b) {
                -1i32
            } else {
                1i32
            }
        } else {
            match (kicker_index(a), kicker_index(b)) {
                (Some(ia), Some(ib)) => if a[ia].suit.spec_rank() < b[ib].suit.spec_rank() {
                    -1i32
                } else {
                    1i32
                },
                _ => 0,
            }
        }
    } else if ca == HandRank::Pair {
        if pair_rank(a) != pair_rank(b) {
            if pair_rank(a) < pair_rank(b) {
                -1i32
            } else {
                1i32
            }
        } else {
            match (non_pair_max(a), non_pair_max(b)) {
                (Some(xa), Some(xb)) => if xa.rank != xb.rank {
                    if xa.suit.spec_rank() < xb.suit.spec_rank() {
                        -1i32
                    } else {
                        1i32
                    }
                } else {
                    0i32
                },
                _ => 0,
            }
        }
    } else if ca == HandRank::HighCard {
        let x = highest_card(a, false);
        let y = highest_card(b, false);
        if x.rank != y.rank {
            if x.rank < y.rank {
                -1i32
            } else {
                1i32
            }
        } else if x.suit.spec_rank() < y.suit.spec_rank() {
            -1i32
        } else {
            1i32
        }
    } else if ca == HandRank::FourOfAKind {
        if quad_rank(a) < quad_rank(b) {
            -1i32
        } else {
            1i32
        }
    } else if ca == HandRank::ThreeOfAKind {
        if trip_rank(a) < trip_rank(b) {
            -1i32
        } else {
            1i32
        }
    } else {
        if trip_rank(a) != trip_rank(b) {
            if trip_rank(a) < trip_rank(b) {
                -1i32
            } else {
                1i32
            }
        } else if pair_rank(a) < pair_rank(b) {
            -1i32
        } else {
            1i32
        }
    }
}

// ---------------------------------------------------------------------
// Executable engine.
// ---------------------------------------------------------------------
/// The tie-break weight of a suit.
pub fn suit_rank(suit: Suit) -> (r: u8)
    ensures
        r == suit.spec_rank(),
{
    suit.rank()
}

/// How many cards of the hand carry the given rank.
pub fn count_occurrences(hand: &[Card], rank: u8) -> (count: usize)
    ensures
        count == count_rank(hand@, rank),
{
    let mut count: usize = 0;
    let mut i: usize = 0;
    while i < hand.len()
        invariant
            i <= hand@.len(),
            count == count_rank(hand@.take(i as int), rank),
            count <= i,
        decreases hand@.len() - i,
    {
        proof {
            assert(hand@.take(i as int + 1).drop_last() =~= hand@.take(i as int));
            assert(hand@.take(i as int + 1).last() == hand@[i as int]);
        }
        if hand[i].rank == rank {
            count += 1;
        }
        i += 1;
    }
    proof {
        assert(hand@.take(hand@.len() as int) =~= hand@);
    }
    count
}

/// Whether some card of the hand carries the given rank.
fn contains_rank(hand: &[Card], rank: u8) -> (r: bool)
    ensures
        r == has_rank(hand@, rank),
{
    let mut i: usize = 0;
    while i < hand.len()
        invariant
            i <= hand@.len(),
            forall|t: int| 0 <= t < i ==> hand@[t].rank != rank,
        decreases hand@.len() - i,
    {
        if hand[i].rank == rank {
            return true;
        }
        i += 1;
    }
    false
}

/// Whether no two cards of the hand share a rank.
fn all_ranks_distinct(hand: &[Card]) -> (r: bool)
    ensures
        r == distinct_ranks(hand@),
{
    let n = hand.len();
    let mut i: usize = 0;
    while i < n
        invariant
            i <= n,
            n == hand@.len(),
            forall|p: int, q: int| 0 <= p < q < n && p < i ==> hand@[p].rank != hand@[q].rank,
        decreases n - i,
    {
        let mut k = i + 1;
        while k < n
            invariant
                i < k <= n,
                n == hand@.len(),
                forall|q: int| i < q < k ==> hand@[i as int].rank != hand@[q].rank,
            decreases n - k,
        {
            if hand[i].rank == hand[k].rank {
                return false;
            }
            k += 1;
        }
        i += 1;
    }
    true
}

/// Whether the hand holds exactly the ranks of the Ace-low straight
/// {A, 2, 3, 4, 5}.
pub fn is_ace_low_straight(hand: &[Card]) -> (r: bool)
    ensures
        r == spec_ace_low(hand@),
{
    if !all_ranks_distinct(hand) {
        return false;
    }
    contains_rank(hand, 14) && contains_rank(hand, 2) && contains_rank(hand, 3) && contains_rank(
        hand,
        4,
    ) && contains_rank(hand, 5)
}

/// The highest card in the hand; with `is_ace_straight` the Ace counts
/// as rank 1. Among cards of equal rank, the last one in hand order is
/// picked.
pub fn get_highest_card(hand: &[Card], is_ace_straight: bool) -> (c: Card)
    requires
        hand@.len() >= 1,
    ensures
        c == highest_card(hand@, is_ace_straight),
{
    let ghost m = hand@.map_values(|x: Card| eff_card(x, is_ace_straight));
    let first = hand[0];
    let mut best = if is_ace_straight && first.rank == 14 {
        Card { rank: 1, suit: first.suit }
    } else {
        first
    };
    proof {
        assert(m.take(1) =~= seq![m[0]]);
    }
    let mut i: usize = 1;
    while i < hand.len()
        invariant
            1 <= i <= hand@.len(),
            m == hand@.map_values(|x: Card| eff_card(x, is_ace_straight)),
            best == last_max_card(m.take(i as int)),
        decreases hand@.len() - i,
    {
        let cur0 = hand[i];
        let cur = if is_ace_straight && cur0.rank == 14 {
            Card { rank: 1, suit: cur0.suit }
        } else {
            cur0
        };
        proof {
            assert(m[i as int] == cur);
            assert(m.take(i as int + 1).drop_last() =~= m.take(i as int));
            assert(m.take(i as int + 1).last() == m[i as int]);
        }
        if cur.rank >= best.rank {
            best = cur;
        }
        i += 1;
    }
    proof {
        assert(m.take(hand@.len() as int) =~= m);
    }
    best
}

/// The highest-ranked card whose rank does not occur exactly twice;
/// `None` when every card belongs to a pair. Among equal ranks the
/// last card in hand order is picked.
pub fn get_highest_non_pair_card(hand: &[Card]) -> (r: Option<Card>)
    ensures
        r == non_pair_max(hand@),
{
    let mut best: Option<Card> = None;
    let mut i: usize = 0;
    while i < hand.len()
        invariant
            i <= hand@.len(),
            best == non_pair_max_upto(hand@, i as int),
        decreases hand@.len() - i,
    {
        let c = hand[i];
        if count_occurrences(hand, c.rank) != 2 {
            best = match best {
                None => Some(c),
                Some(b) => if c.rank >= b.rank {
                    Some(c)
                } else {
                    Some(b)
                },
            };
        }
        i += 1;
    }
    best
}

/// The index of the kicker: the highest-ranked card whose rank occurs
/// exactly once; `None` when there is no such card.
pub fn get_kicker(hand: &[Card]) -> (r: Option<usize>)
    ensures
        match r {
            Some(ix) => ix < hand@.len() && kicker_index(hand@) == Some(ix as int),
            None => kicker_index(hand@) is None,
        },
{
    let mut max_val: u8 = 0;
    let mut kicker: Option<usize> = None;
    let mut i: usize = 0;
    while i < hand.len()
        invariant
            i <= hand@.len(),
            max_val == kicker_upto(hand@, i as int).0,
            match kicker {
                Some(ix) => ix < i && kicker_upto(hand@, i as int).1 == Some(ix as int),
                None => kicker_upto(hand@, i as int).1 is None,
            },
        decreases hand@.len() - i,
    {
        let c = hand[i];
        if count_occurrences(hand, c.rank) == 1 && c.rank > max_val {
            max_val = c.rank;
            kicker = Some(i);
        }
        i += 1;
    }
    kicker
}

/// The rank of the first card, in hand order, that belongs to a pair;
/// -1 when the hand holds no pair.
pub fn get_pair_rank(hand: &[Card]) -> (r: i32)
    ensures
        r == pair_rank(hand@),
{
    let mut i: usize = 0;
    while i < hand.len()
        invariant
            i <= hand@.len(),
            first_rank_with_count(hand@, 2, 0) == first_rank_with_count(hand@, 2, i as int),
        decreases hand@.len() - i,
    {
        if count_occurrences(hand, hand[i].rank) == 2 {
            return hand[i].rank as i32;
        }
        i += 1;
    }
    -1
}

/// The rank of the first card, in hand order, that belongs to a
/// triplet; -1 when the hand holds none.
pub fn get_triplet_rank(hand: &[Card]) -> (r: i32)
    ensures
        r == trip_rank(hand@),
{
    let mut i: usize = 0;
    while i < hand.len()
        invariant
            i <= hand@.len(),
            first_rank_with_count(hand@, 3, 0) == first_rank_with_count(hand@, 3, i as int),
        decreases hand@.len() - i,
    {
        if count_occurrences(hand, hand[i].rank) == 3 {
            return hand[i].rank as i32;
        }
        i += 1;
    }
    -1
}

/// The rank of the first card, in hand order, that belongs to a
/// quadruplet; -1 when the hand holds none.
pub fn get_quad_rank(hand: &[Card]) -> (r: i32)
    ensures
        r == quad_rank(hand@),
{
    let mut i: usize = 0;
    while i < hand.len()
        invariant
            i <= hand@.len(),
            first_rank_with_count(hand@, 4, 0) == first_rank_with_count(hand@, 4, i as int),
        decreases hand@.len() - i,
    {
        if count_occurrences(hand, hand[i].rank) == 4 {
            return hand[i].rank as i32;
        }
        i += 1;
    }
    -1
}

/// The highest rank among the pairs of the hand; -1 when the hand
/// holds no pair.
pub fn get_highest_pair_rank(hand: &[Card]) -> (r: i32)
    ensures
        r == high_pair_rank(hand@),
{
    let mut highest: i32 = -1;
    let mut i: usize = 0;
    while i < hand.len()
        invariant
            i <= hand@.len(),
            highest == high_pair_upto(hand@, i as int),
        decreases hand@.len() - i,
    {
        let c = hand[i];
        if count_occurrences(hand, c.rank) == 2 && (c.rank as i32) > highest {
            highest = c.rank as i32;
        }
        i += 1;
    }
    highest
}

/// The lowest rank among the pairs of the hand; -1 when the hand holds
/// no pair.
pub fn get_lowest_pair_rank(hand: &[Card]) -> (r: i32)
    ensures
        r == low_pair_rank(hand@),
{
    let mut lowest: i32 = 15;
    let mut i: usize = 0;
    while i < hand.len()
        invariant
            i <= hand@.len(),
            lowest == low_pair_upto(hand@, i as int),
        decreases hand@.len() - i,
    {
        let c = hand[i];
        if count_occurrences(hand, c.rank) == 2 && (c.rank as i32) < lowest {
            lowest = c.rank as i32;
        }
        i += 1;
    }
    if lowest == 15 {
        -1
    } else {
        lowest
    }
}

/// The highest rank in the hand.
fn max_rank_exec(hand: &[Card]) -> (r: u8)
    requires
        hand@.len() >= 1,
    ensures
        r == max_rank(hand@),
{
    let mut best = hand[0].rank;
    proof {
        assert(hand@.take(1) =~= seq![hand@[0]]);
    }
    let mut i: usize = 1;
    while i < hand.len()
        invariant
            1 <= i <= hand@.len(),
            best == max_rank(hand@.take(i as int)),
        decreases hand@.len() - i,
    {
        proof {
            assert(hand@.take(i as int + 1).drop_last() =~= hand@.take(i as int));
            assert(hand@.take(i as int + 1).last() == hand@[i as int]);
        }
        if hand[i].rank > best {
            best = hand[i].rank;
        }
        i += 1;
    }
    proof {
        assert(hand@.take(hand@.len() as int) =~= hand@);
    }
    best
}

/// The lowest rank in the hand.
fn min_rank_exec(hand: &[Card]) -> (r: u8)
    requires
        hand@.len() >= 1,
    ensures
        r == min_rank(hand@),
{
    let mut best = hand[0].rank;
    proof {
        assert(hand@.take(1) =~= seq![hand@[0]]);
    }
    let mut i: usize = 1;
    while i < hand.len()
        invariant
            1 <= i <= hand@.len(),
            best == min_rank(hand@.take(i as int)),
        decreases hand@.len() - i,
    {
        proof {
            assert(hand@.take(i as int + 1).drop_last() =~= hand@.take(i as int));
            assert(hand@.take(i as int + 1).last() == hand@[i as int]);
        }
        if hand[i].rank < best {
            best = hand[i].rank;
        }
        i += 1;
    }
    proof {
        assert(hand@.take(hand@.len() as int) =~= hand@);
    }
    best
}

/// Whether all cards share one suit.
fn is_flush_exec(hand: &[Card]) -> (r: bool)
    requires
        hand@.len() >= 1,
    ensures
        r == spec_flush(hand@),
{
    let first = hand[0].suit;
    let mut i: usize = 1;
    while i < hand.len()
        invariant
            1 <= i <= hand@.len(),
            first == hand@[0].suit,
            forall|t: int| 0 <= t < i ==> (#[trigger] hand@[t]).suit == hand@[0].suit,
        decreases hand@.len() - i,
    {
        if hand[i].suit != first {
            return false;
        }
        i += 1;
    }
    true
}

/// Whether the hand is a straight: five distinct ranks that are
/// consecutive, or the Ace-low straight {A, 2, 3, 4, 5}.
pub fn is_straight(hand: &[Card]) -> (r: bool)
    requires
        hand@.len() >= 1,
    ensures
        r == spec_straight(hand@),
{
    if !all_ranks_distinct(hand) {
        return false;
    }
    if contains_rank(hand, 14) && contains_rank(hand, 2) && contains_rank(hand, 3) && contains_rank(
        hand,
        4,
    ) && contains_rank(hand, 5) {
        return true;
    }
    let mx = max_rank_exec(hand);
    let mn = min_rank_exec(hand);
    (mx as i32) - (mn as i32) == 4
}

/// A rank with a positive count is carried by some card, and the other
/// way round.
proof fn lemma_count_has(h: Seq<Card>, rank: u8)
    ensures
        count_rank(h, rank) > 0 <==> has_rank(h, rank),
    decreases h.len(),
{
    if h.len() == 0 {
    } else {
        lemma_count_has(h.drop_last(), rank);
        if h.last().rank == rank {
            assert(h[h.len() - 1].rank == rank);
        } else {
            if has_rank(h, rank) {
                let i = choose|i: int| 0 <= i < h.len() && h[i].rank == rank;
                assert(h.drop_last()[i] == h[i]);
            }
            if has_rank(h.drop_last(), rank) {
                let i = choose|i: int| 0 <= i < h.drop_last().len() && h.drop_last()[i].rank
                    == rank;
                assert(h[i] == h.drop_last()[i]);
            }
        }
    }
}

/// A rank that occurs in a hand of valid cards lies between 2 and 14.
proof fn lemma_count_witness_valid(h: Seq<Card>, c: nat)
    requires
        forall|i: int| 0 <= i < h.len() ==> (#[trigger] h[i]).valid(),
        has_count(h, c),
        c >= 1,
    ensures
        exists|r: u8| 2 <= r <= 14 && count_rank(h, r) == c,
{
    let r = choose|r: u8| count_rank(h, r) == c;
    lemma_count_has(h, r);
    let i = choose|i: int| 0 <= i < h.len() && h[i].rank == r;
    assert(h[i].valid());
    assert(2 <= r <= 14 && count_rank(h, r) == c);
}

/// Two distinct pair ranks of a hand of valid cards both lie between 2
/// and 14.
proof fn lemma_two_pairs_witness_valid(h: Seq<Card>)
    requires
        forall|i: int| 0 <= i < h.len() ==> (#[trigger] h[i]).valid(),
        has_two_pairs(h),
    ensures
        exists|r1: u8, r2: u8|
            2 <= r1 <= 14 && 2 <= r2 <= 14 && r1 != r2 && count_rank(h, r1) == 2 && count_rank(
                h,
                r2,
            ) == 2,
{
    let (r1, r2) = choose|r1: u8, r2: u8|
        r1 != r2 && count_rank(h, r1) == 2 && count_rank(h, r2) == 2;
    lemma_count_has(h, r1);
    lemma_count_has(h, r2);
    let i1 = choose|i: int| 0 <= i < h.len() && h[i].rank == r1;
    let i2 = choose|i: int| 0 <= i < h.len() && h[i].rank == r2;
    assert(h[i1].valid() && h[i2].valid());
    assert(2 <= r1 <= 14 && 2 <= r2 <= 14 && r1 != r2 && count_rank(h, r1) == 2 && count_rank(
        h,
        r2,
    ) == 2);
}

/// Classify a five-card hand into its category.
pub fn classify_hand(hand: &[Card]) -> (r: HandRank)
    requires
        wf_hand(hand@),
    ensures
        r == category_of(hand@),
{
    let flush = is_flush_exec(hand);
    let straight = is_straight(hand);
    if flush && straight {
        let royal = contains_rank(hand, 10) && contains_rank(hand, 11) && contains_rank(hand, 12)
            && contains_rank(hand, 13) && contains_rank(hand, 14);
        if royal {
            return HandRank::RoyalFlush;
        } else {
            return HandRank::StraightFlush;
        }
    }
    let mut quad = false;
    let mut trip: Option<u8> = None;
    let mut pair_a: Option<u8> = None;
    let mut pair_b: Option<u8> = None;
    let mut rk: u8 = 2;
    while rk <= 14
        invariant
            2 <= rk <= 15,
            wf_hand(hand@),
            quad ==> has_count(hand@, 4),
            !quad ==> forall|q: u8| 2 <= q < rk ==> #[trigger] count_rank(hand@, q) != 4,
            match trip {
                None => forall|q: u8| 2 <= q < rk ==> #[trigger] count_rank(hand@, q) != 3,
                Some(t) => count_rank(hand@, t) == 3,
            },
            match (pair_a, pair_b) {
                (None, None) => forall|q: u8|
                    2 <= q < rk ==> #[trigger] count_rank(hand@, q) != 2,
                (Some(p), None) => 2 <= p < rk && count_rank(hand@, p) == 2 && forall|q: u8|
                    2 <= q < rk && #[trigger] count_rank(hand@, q) == 2 ==> q == p,
                (Some(p), Some(q2)) => 2 <= p < rk && count_rank(hand@, p) == 2 && count_rank(
                    hand@,
                    q2,
                ) == 2 && q2 != p,
                (None, Some(_)) => false,
            },
        decreases 15 - rk,
    {
        let c = count_occurrences(hand, rk);
        if c == 4 {
            quad = true;
        }
        if c == 3 {
            trip = Some(rk);
        }
        if c == 2 {
            if pair_a.is_none() {
                pair_a = Some(rk);
            } else {
                pair_b = Some(rk);
            }
        }
        rk += 1;
    }
    proof {
        if has_count(hand@, 4) && !quad {
            lemma_count_witness_valid(hand@, 4);
        }
        if has_count(hand@, 3) && trip is None {
            lemma_count_witness_valid(hand@, 3);
        }
        if has_count(hand@, 2) && pair_a is None {
            lemma_count_witness_valid(hand@, 2);
        }
        if has_two_pairs(hand@) && pair_b is None {
            lemma_two_pairs_witness_valid(hand@);
        }
    }
    if quad {
        return HandRank::FourOfAKind;
    }
    if trip.is_some() && pair_a.is_some() {
        return HandRank::FullHouse;
    }
    if flush {
        return HandRank::Flush;
    }
    if straight {
        return HandRank::Straight;
    }
    if trip.is_some() {
        return HandRank::ThreeOfAKind;
    }
    if pair_b.is_some() {
        return HandRank::TwoPair;
    }
    if pair_a.is_some() {
        return HandRank::Pair;
    }
    HandRank::HighCard
}

/// Compare two well-formed hands: -1 when the first loses, 1 when it
/// wins, 0 only on the residual ties the tie-break rules leave
/// undecided. The category is the primary key; equal categories fall
/// to the category-specific tie-breaks of `compare_spec`.
pub fn compare_hands(hand1: &[Card], hand2: &[Card]) -> (r: i32)
    requires
        wf_hand(hand1@),
        wf_hand(hand2@),
    ensures
        r == compare_spec(hand1@, hand2@),
{
    let rank1 = classify_hand(hand1);
    let rank2 = classify_hand(hand2);

    if rank1 != rank2 {
        return if rank1.strength() < rank2.strength() {
            -1
        } else {
            1
        };
    }
    // Flush family: highest card's rank, then its suit.
    if matches!(rank1, HandRank::Flush | HandRank::StraightFlush | HandRank::RoyalFlush) {
        let hc1 = get_highest_card(hand1, false);
        let hc2 = get_highest_card(hand2, false);
        if hc1.rank != hc2.rank {
            return if hc1.rank < hc2.rank {
                -1
            } else {
                1
            };
        }
        return if suit_rank(hc1.suit) < suit_rank(hc2.suit) {
            -1
        } else {
            1
        };
    }
    // Straight: effective highest card (Ace counts 1 in the Ace-low
    // straight), then its suit.
    if matches!(rank1, HandRank::Straight) {
        let check_ace1 = is_ace_low_straight(hand1);
        let check_ace2 = is_ace_low_straight(hand2);
        let hc1 = get_highest_card(hand1, check_ace1);
        let hc2 = get_highest_card(hand2, check_ace2);
        if hc1.rank != hc2.rank {
            return if hc1.rank < hc2.rank {
                -1
            } else {
                1
            };
        }
        return if suit_rank(hc1.suit) < suit_rank(hc2.suit) {
            -1
        } else {
            1
        };
    }
    // Two pair: higher pair, lower pair, then the kicker's suit.
    if matches!(rank1, HandRank::TwoPair) {
        let high_pair1 = get_highest_pair_rank(hand1);
        let high_pair2 = get_highest_pair_rank(hand2);
        if high_pair1 != high_pair2 {
            return if high_pair1 < high_pair2 {
                -1
            } else {
                1
            };
        }
        let low_pair1 = get_lowest_pair_rank(hand1);
        let low_pair2 = get_lowest_pair_rank(hand2);
        if low_pair1 != low_pair2 {
            return if low_pair1 < low_pair2 {
                -1
            } else {
                1
            };
        }
        let kicker1 = get_kicker(hand1);
        let kicker2 = get_kicker(hand2);
        if let (Some(k1), Some(k2)) = (kicker1, kicker2) {
            return if suit_rank(hand1[k1].suit) < suit_rank(hand2[k2].suit) {
                -1
            } else {
                1
            };
        }
    }
    // Pair: the paired rank; kickers of unequal rank fall to the
    // kicker's suit, kickers of equal rank stay undecided.
    if matches!(rank1, HandRank::Pair) {
        let pair_rank1 = get_pair_rank(hand1);
        let pair_rank2 = get_pair_rank(hand2);
        if pair_rank1 != pair_rank2 {
            return if pair_rank1 < pair_rank2 {
                -1
            } else {
                1
            };
        }
        let high_val1 = get_highest_non_pair_card(hand1);
        let high_val2 = get_highest_non_pair_card(hand2);
        if let (Some(hv1), Some(hv2)) = (high_val1, high_val2) {
            if hv1.rank != hv2.rank {
                return if suit_rank(hv1.suit) < suit_rank(hv2.suit) {
                    -1
                } else {
                    1
                };
            }
        }
    }
    // High card: highest card's rank, then its suit.
    if matches!(rank1, HandRank::HighCard) {
        let hc1 = get_highest_card(hand1, false);
        let hc2 = get_highest_card(hand2, false);
        if hc1.rank != hc2.rank {
            return if hc1.rank < hc2.rank {
                -1
            } else {
                1
            };
        }
        return if suit_rank(hc1.suit) < suit_rank(hc2.suit) {
            -1
        } else {
            1
        };
    }
    // Four of a kind: the quadruplet's rank only.
    if matches!(rank1, HandRank::FourOfAKind) {
        let quad1 = get_quad_rank(hand1);
        let quad2 = get_quad_rank(hand2);
        return if quad1 < quad2 {
            -1
        } else {
            1
        };
    }
    // Three of a kind: the triplet's rank only.
    if matches!(rank1, HandRank::ThreeOfAKind) {
        let trip1 = get_triplet_rank(hand1);
        let trip2 = get_triplet_rank(hand2);
        return if trip1 < trip2 {
            -1
        } else {
            1
        };
    }
    // Full house: the triplet's rank, then the pair's rank.
    if matches!(rank1, HandRank::FullHouse) {
        let trip1 = get_triplet_rank(hand1);
        let trip2 = get_triplet_rank(hand2);
        if trip1 != trip2 {
            return if trip1 < trip2 {
                -1
            } else {
                1
            };
        }
        let pair1 = get_pair_rank(hand1);
        let pair2 = get_pair_rank(hand2);
        return if pair1 < pair2 {
            -1
        } else {
            1
        };
    }
    0
}


/// The view of each hand in a collection of hands.
pub open spec fn hand_views(hs: Seq<Vec<Card>>) -> Seq<Seq<Card>> {
    hs.map_values(|h: Vec<Card>| h@)
}

/// Two adjacent hands stand in sorted order when the comparator, asked
/// in one of its two argument orders, places the left hand at least as
/// high as the right one.
pub open spec fn ordered_pair(l: Seq<Card>, r: Seq<Card>) -> bool {
    compare_spec(r, l) <= 0 || compare_spec(l, r) == 1
}

/// Along a sorted pair the category strength never rises: whichever
/// argument order justified the pair, a strictly stronger category on
/// the right would contradict the comparator's category rule.
pub proof fn lemma_ordered_pair_category(l: Seq<Card>, r: Seq<Card>)
    requires
        ordered_pair(l, r),
    ensures
        category_of(l).spec_strength() >= category_of(r).spec_strength(),
{
}

/// Sort the hands in place from strongest to weakest under
/// `compare_hands`, and return the category of each hand in the sorted
/// order. The sorted collection holds exactly the input hands, and the
/// category strength never rises along the result.
#[verifier::rlimit(100)]
pub fn sort_hands(hands: &mut Vec<Vec<Card>>) -> (ranks: Vec<HandRank>)
    requires
        forall|t: int| 0 <= t < old(hands)@.len() ==> wf_hand(#[trigger] old(hands)@[t]@),
    ensures
        final(hands)@.len() == old(hands)@.len(),
        hand_views(final(hands)@).to_multiset() == hand_views(old(hands)@).to_multiset(),
        forall|k: int|
            0 <= k && k + 1 < final(hands)@.len() ==> ordered_pair(
                #[trigger] final(hands)@[k]@,
                final(hands)@[k + 1]@,
            ),
        forall|k: int|
            0 <= k && k + 1 < final(hands)@.len() ==> category_of(
                #[trigger] final(hands)@[k]@,
            ).spec_strength() >= category_of(final(hands)@[k + 1]@).spec_strength(),
        ranks@.len() == final(hands)@.len(),
        forall|t: int| 0 <= t < ranks@.len() ==> ranks@[t] == category_of(final(hands)@[t]@),
{
    let n = hands.len();
    let ghost orig_ms = hand_views(old(hands)@).to_multiset();
    let mut i: usize = 1;
    while i < n
        invariant
            1 <= i,
            n == hands@.len(),
            n <= 1 || i <= n,
            hand_views(hands@).to_multiset() == orig_ms,
            orig_ms == hand_views(old(hands)@).to_multiset(),
            forall|t: int| 0 <= t < n ==> wf_hand(#[trigger] hands@[t]@),
            forall|k: int|
                0 <= k && k + 1 < i && k + 1 < n ==> ordered_pair(
                    #[trigger] hands@[k]@,
                    hands@[k + 1]@,
                ),
        decreases n - i,
    {
        let mut j: usize = i;
        let mut moving = true;
        while moving && j > 0
            invariant
                j <= i < n,
                n == hands@.len(),
                hand_views(hands@).to_multiset() == orig_ms,
                forall|t: int| 0 <= t < n ==> wf_hand(#[trigger] hands@[t]@),
                forall|k: int|
                    0 <= k && k + 1 <= i && k != j - 1 ==> ordered_pair(
                        #[trigger] hands@[k]@,
                        hands@[k + 1]@,
                    ),
                1 <= j && j + 1 <= i ==> ordered_pair(hands@[j - 1]@, hands@[j + 1]@),
                !moving ==> (j == 0 || compare_spec(hands@[j as int]@, hands@[j - 1]@) <= 0),
            decreases j + if moving {
                1int
            } else {
                0int
            },
        {
            let c = compare_hands(hands[j].as_slice(), hands[j - 1].as_slice());
            if c > 0 {
                let ghost s0 = hands@;
                let x = hands.remove(j);
                hands.insert(j - 1, x);
                proof {
                    s0.remove_ensures(j as int);
                    s0.remove(j as int).insert_ensures(j as int - 1, x);
                    assert forall|t: int| 0 <= t < n implies hands@[t] == (if t == j - 1 {
                        s0[j as int]
                    } else if t == j as int {
                        s0[j - 1]
                    } else {
                        s0[t]
                    }) by {}
                    let m0 = hand_views(s0);
                    assert(hand_views(s0.remove(j as int)) =~= m0.remove(j as int));
                    assert(hand_views(hands@) =~= m0.remove(j as int).insert(
                        j as int - 1,
                        x@,
                    ));
                    m0.to_multiset_ensures();
                    vstd::seq_lib::to_multiset_insert(m0.remove(j as int), j as int - 1, x@);
                    assert(m0[j as int] == x@);
                    assert(m0.to_multiset().count(x@) > 0) by {
                        m0.to_multiset_ensures();
                        assert(m0.contains(x@));
                    }
                    assert(m0.remove(j as int).to_multiset().insert(x@) =~= m0.to_multiset());
                }
                j -= 1;
            } else {
                moving = false;
            }
        }
        i += 1;
    }
    let ghost sorted = hands@;
    let mut ranks: Vec<HandRank> = Vec::new();
    let mut t: usize = 0;
    while t < hands.len()
        invariant
            t <= hands@.len(),
            hands@ == sorted,
            forall|q: int| 0 <= q < hands@.len() ==> wf_hand(#[trigger] hands@[q]@),
            ranks@.len() == t,
            forall|q: int| 0 <= q < t ==> ranks@[q] == category_of(hands@[q]@),
        decreases hands@.len() - t,
    {
        let r = classify_hand(hands[t].as_slice());
        ranks.push(r);
        t += 1;
    }
    proof {
        assert forall|k: int| 0 <= k && k + 1 < hands@.len() implies category_of(
            #[trigger] hands@[k]@,
        ).spec_strength() >= category_of(hands@[k + 1]@).spec_strength() by {
            lemma_ordered_pair_category(hands@[k]@, hands@[k + 1]@);
        }
    }
    ranks
}


// ---------------------------------------------------------------------
// Laws of the classifier and the comparator.
// ---------------------------------------------------------------------
/// Two indices with one rank give that rank a count of at least two.
proof fn lemma_two_indices(h: Seq<Card>, i: int, k: int)
    requires
        0 <= i < k < h.len(),
        h[i].rank == h[k].rank,
    ensures
        count_rank(h, h[i].rank) >= 2,
    decreases h.len(),
{
    let r = h[i].rank;
    if k == h.len() - 1 {
        assert(h.drop_last()[i] == h[i]);
        lemma_count_has(h.drop_last(), r);
    } else {
        assert(h.drop_last()[i] == h[i]);
        assert(h.drop_last()[k] == h[k]);
        lemma_two_indices(h.drop_last(), i, k);
    }
}

/// A hand has pairwise distinct ranks exactly when no rank counts
/// more than once.
proof fn lemma_distinct_iff_counts(h: Seq<Card>)
    ensures
        distinct_ranks(h) <==> forall|r: u8| count_rank(h, r) <= 1,
    decreases h.len(),
{
    if distinct_ranks(h) {
        if h.len() > 0 {
            assert(distinct_ranks(h.drop_last())) by {
                assert forall|i: int, k: int|
                    0 <= i < k < h.drop_last().len() implies h.drop_last()[i].rank
                    != h.drop_last()[k].rank by {
                    assert(h.drop_last()[i] == h[i]);
                    assert(h.drop_last()[k] == h[k]);
                }
            }
            lemma_distinct_iff_counts(h.drop_last());
            assert forall|r: u8| count_rank(h, r) <= 1 by {
                assert(count_rank(h, r) == count_rank(h.drop_last(), r) + if h.last().rank == r {
                    1nat
                } else {
                    0nat
                });
                assert(count_rank(h.drop_last(), r) <= 1);
                if h.last().rank == r {
                    lemma_count_has(h.drop_last(), r);
                    if has_rank(h.drop_last(), r) {
                        let i = choose|i: int|
                            0 <= i < h.drop_last().len() && h.drop_last()[i].rank == r;
                        assert(h[i] == h.drop_last()[i]);
                        assert(h[i].rank == h[h.len() - 1].rank);
                        assert(false);
                    }
                }
            }
        }
    }
    if forall|r: u8| count_rank(h, r) <= 1 {
        assert forall|i: int, k: int| 0 <= i < k < h.len() implies h[i].rank != h[k].rank by {
            if h[i].rank == h[k].rank {
                lemma_two_indices(h, i, k);
                assert(count_rank(h, h[i].rank) <= 1);
            }
        }
    }
}

/// Every straight classifies as Straight or better: a straight hand
/// can only be a Straight, a StraightFlush or a RoyalFlush.
pub proof fn lemma_straight_classifies_strong(h: Seq<Card>)
    requires
        wf_hand(h),
        spec_straight(h),
    ensures
        category_of(h).spec_strength() >= HandRank::Straight.spec_strength(),
{
    lemma_distinct_iff_counts(h);
    if !(spec_flush(h) && spec_straight(h)) {
        assert(!has_count(h, 4)) by {
            if has_count(h, 4) {
                let r = choose|r: u8| count_rank(h, r) == 4;
                assert(count_rank(h, r) <= 1);
            }
        }
        assert(!has_count(h, 3)) by {
            if has_count(h, 3) {
                let r = choose|r: u8| count_rank(h, r) == 3;
                assert(count_rank(h, r) <= 1);
            }
        }
        assert(category_of(h) == HandRank::Straight);
    }
}

/// The comparator is consistent with the classifier: whenever two
/// hands classify differently, the hand of the stronger category wins,
/// whatever its cards are.
pub proof fn lemma_compare_respects_category(a: Seq<Card>, b: Seq<Card>)
    requires
        category_of(a) != category_of(b),
    ensures
        category_of(a).spec_strength() > category_of(b).spec_strength() ==> compare_spec(a, b)
            == 1,
        category_of(a).spec_strength() < category_of(b).spec_strength() ==> compare_spec(a, b)
            == -1,
{
}

/// The number of cards with a given rank, read off a multiset of
/// cards.
pub open spec fn ms_count_rank(m: Multiset<Card>, rank: u8) -> nat {
    m.filter(|c: Card| c.rank == rank).len()
}

/// Inserting a card into a multiset raises the count of its rank by
/// one and leaves the other ranks alone.
proof fn lemma_ms_count_insert(m: Multiset<Card>, x: Card, rank: u8)
    ensures
        ms_count_rank(m.insert(x), rank) == ms_count_rank(m, rank) + if x.rank == rank {
            1nat
        } else {
            0nat
        },
{
    broadcast use vstd::multiset::group_multiset_axioms;

    let f = |c: Card| c.rank == rank;
    if x.rank == rank {
        assert(m.insert(x).filter(f) =~= m.filter(f).insert(x));
    } else {
        assert(m.insert(x).filter(f) =~= m.filter(f));
    }
}

/// The rank count of a hand equals the rank count of its multiset.
proof fn lemma_count_rank_multiset(h: Seq<Card>, rank: u8)
    ensures
        count_rank(h, rank) == ms_count_rank(h.to_multiset(), rank),
    decreases h.len(),
{
    broadcast use vstd::multiset::group_multiset_axioms;

    h.to_multiset_ensures();
    if h.len() == 0 {
        vstd::multiset::lemma_multiset_empty_len(h.to_multiset());
        let f = |c: Card| c.rank == rank;
        assert(h.to_multiset().filter(f) =~= Multiset::<Card>::empty());
    } else {
        lemma_count_rank_multiset(h.drop_last(), rank);
        h.drop_last().to_multiset_ensures();
        assert(h.drop_last().push(h.last()) =~= h);
        assert(h.to_multiset() == h.drop_last().to_multiset().insert(h.last()));
        lemma_ms_count_insert(h.drop_last().to_multiset(), h.last(), rank);
    }
}

/// A flush stays a flush under any rearrangement of its cards.
proof fn lemma_flush_perm_one(a: Seq<Card>, b: Seq<Card>)
    requires
        a.to_multiset() == b.to_multiset(),
        spec_flush(a),
    ensures
        spec_flush(b),
{
    a.to_multiset_ensures();
    b.to_multiset_ensures();
    if b.len() > 0 {
        assert(a.len() == b.len());
        assert forall|i: int| 0 <= i < b.len() implies (#[trigger] b[i]).suit == b[0].suit by {
            assert(b.contains(b[i]));
            assert(b.to_multiset().count(b[i]) > 0);
            assert(a.to_multiset().count(b[i]) > 0);
            assert(a.contains(b[i]));
            let t = choose|t: int| 0 <= t < a.len() && a[t] == b[i];
            assert(a[t].suit == a[0].suit);
            assert(b.contains(b[0]));
            assert(b.to_multiset().count(b[0]) > 0);
            assert(a.to_multiset().count(b[0]) > 0);
            assert(a.contains(b[0]));
            let t0 = choose|t: int| 0 <= t < a.len() && a[t] == b[0];
            assert(a[t0].suit == a[0].suit);
        }
    }
}

/// The highest rank is carried by some card and bounds every card.
proof fn lemma_max_rank_char(h: Seq<Card>)
    requires
        h.len() > 0,
    ensures
        has_rank(h, max_rank(h)),
        forall|i: int| 0 <= i < h.len() ==> (#[trigger] h[i]).rank <= max_rank(h),
    decreases h.len(),
{
    if h.len() == 1 {
        assert(h[0].rank == max_rank(h));
    } else {
        lemma_max_rank_char(h.drop_last());
        assert forall|i: int| 0 <= i < h.len() implies (#[trigger] h[i]).rank <= max_rank(h) by {
            if i < h.len() - 1 {
                assert(h.drop_last()[i] == h[i]);
            }
        }
        if h.last().rank > max_rank(h.drop_last()) {
            assert(h[h.len() - 1].rank == max_rank(h));
        } else {
            let i = choose|i: int|
                0 <= i < h.drop_last().len() && h.drop_last()[i].rank == max_rank(h.drop_last());
            assert(h[i] == h.drop_last()[i]);
        }
    }
}

/// The lowest rank is carried by some card and bounds every card.
proof fn lemma_min_rank_char(h: Seq<Card>)
    requires
        h.len() > 0,
    ensures
        has_rank(h, min_rank(h)),
        forall|i: int| 0 <= i < h.len() ==> (#[trigger] h[i]).rank >= min_rank(h),
    decreases h.len(),
{
    if h.len() == 1 {
        assert(h[0].rank == min_rank(h));
    } else {
        lemma_min_rank_char(h.drop_last());
        assert forall|i: int| 0 <= i < h.len() implies (#[trigger] h[i]).rank >= min_rank(h) by {
            if i < h.len() - 1 {
                assert(h.drop_last()[i] == h[i]);
            }
        }
        if h.last().rank < min_rank(h.drop_last()) {
            assert(h[h.len() - 1].rank == min_rank(h));
        } else {
            let i = choose|i: int|
                0 <= i < h.drop_last().len() && h.drop_last()[i].rank == min_rank(h.drop_last());
            assert(h[i] == h.drop_last()[i]);
        }
    }
}

/// Classification is invariant under permutation of the cards within a
/// hand: two hands holding the same cards in any order classify alike.
pub proof fn lemma_classify_permutation(a: Seq<Card>, b: Seq<Card>)
    requires
        a.to_multiset() == b.to_multiset(),
    ensures
        category_of(a) == category_of(b),
{
    a.to_multiset_ensures();
    b.to_multiset_ensures();
    assert(a.len() == b.len());
    if a.len() == 0 {
        assert(a =~= b);
    } else {
        assert forall|r: u8| count_rank(a, r) == count_rank(b, r) by {
            lemma_count_rank_multiset(a, r);
            lemma_count_rank_multiset(b, r);
        }
        assert forall|r: u8| has_rank(a, r) == has_rank(b, r) by {
            lemma_count_has(a, r);
            lemma_count_has(b, r);
        }
        lemma_distinct_iff_counts(a);
        lemma_distinct_iff_counts(b);
        assert(distinct_ranks(a) == distinct_ranks(b));
        if spec_flush(a) {
            lemma_flush_perm_one(a, b);
        }
        if spec_flush(b) {
            lemma_flush_perm_one(b, a);
        }
        lemma_max_rank_char(a);
        lemma_max_rank_char(b);
        lemma_min_rank_char(a);
        lemma_min_rank_char(b);
        assert(max_rank(a) == max_rank(b)) by {
            let i = choose|i: int| 0 <= i < b.len() && b[i].rank == max_rank(a);
            let k = choose|k: int| 0 <= k < a.len() && a[k].rank == max_rank(b);
        }
        assert(min_rank(a) == min_rank(b)) by {
            let i = choose|i: int| 0 <= i < b.len() && b[i].rank == min_rank(a);
            let k = choose|k: int| 0 <= k < a.len() && a[k].rank == min_rank(b);
        }
        assert(has_count(a, 4) == has_count(b, 4)) by {
            if has_count(a, 4) {
                let r = choose|r: u8| count_rank(a, r) == 4;
                assert(count_rank(b, r) == 4);
            }
            if has_count(b, 4) {
                let r = choose|r: u8| count_rank(b, r) == 4;
                assert(count_rank(a, r) == 4);
            }
        }
        assert(has_count(a, 3) == has_count(b, 3)) by {
            if has_count(a, 3) {
                let r = choose|r: u8| count_rank(a, r) == 3;
                assert(count_rank(b, r) == 3);
            }
            if has_count(b, 3) {
                let r = choose|r: u8| count_rank(b, r) == 3;
                assert(count_rank(a, r) == 3);
            }
        }
        assert(has_count(a, 2) == has_count(b, 2)) by {
            if has_count(a, 2) {
                let r = choose|r: u8| count_rank(a, r) == 2;
                assert(count_rank(b, r) == 2);
            }
            if has_count(b, 2) {
                let r = choose|r: u8| count_rank(b, r) == 2;
                assert(count_rank(a, r) == 2);
            }
        }
        assert(has_two_pairs(a) == has_two_pairs(b)) by {
            if has_two_pairs(a) {
                let (r1, r2) = choose|r1: u8, r2: u8|
                    r1 != r2 && count_rank(a, r1) == 2 && count_rank(a, r2) == 2;
                assert(count_rank(b, r1) == 2 && count_rank(b, r2) == 2);
            }
            if has_two_pairs(b) {
                let (r1, r2) = choose|r1: u8, r2: u8|
                    r1 != r2 && count_rank(b, r1) == 2 && count_rank(b, r2) == 2;
                assert(count_rank(a, r1) == 2 && count_rank(a, r2) == 2);
            }
        }
        assert(spec_ace_low(a) == spec_ace_low(b));
        assert(spec_straight(a) == spec_straight(b));
        assert(spec_royal(a) == spec_royal(b));
    }
}

} // verus!
