use crate::card::Card;
use crate::suit::Suit;
use rand::seq::SliceRandom;
use vstd::prelude::*;

verus! {

/// A deck of cards. Hands are dealt off the front.
pub struct Deck {
    pub cards: Vec<Card>,
}

/// The suit of block `i` of a freshly created deck: all thirteen
/// diamonds come first, then clubs, hearts, spades.
pub open spec fn suit_of_block(i: int) -> Suit {
    if i == 0 {
        Suit::Diamonds
    } else if i == 1 {
        Suit::Clubs
    } else if i == 2 {
        Suit::Hearts
    } else {
        Suit::Spades
    }
}

/// The full 52-card deck in creation order: for each suit in turn, the
/// ranks 2..=14 in increasing order.
pub open spec fn full_deck() -> Seq<Card> {
    Seq::new(52, |i: int| Card { rank: (2 + (i % 13)) as u8, suit: suit_of_block(i / 13) })
}

/// The cards that dealing `rounds` round-robin rounds out of `cards`
/// into `n` hands gives to hand `j`: one card per round, taken off the
/// front of the deck in turn, skipped once the deck is exhausted.
pub open spec fn dealt_to(cards: Seq<Card>, n: int, j: int, rounds: int) -> Seq<Card>
    decreases rounds,
{
    if rounds <= 0 {
        Seq::empty()
    } else {
        let prev = dealt_to(cards, n, j, rounds - 1);
        let idx = (rounds - 1) * n + j;
        if 0 <= idx < cards.len() {
            prev.push(cards[idx])
        } else {
            prev
        }
    }
}

impl Deck {
    /// A freshly created, unshuffled 52-card deck.
    pub fn new() -> (deck: Deck)
        ensures
            deck.cards@ == full_deck(),
    {
        let mut deck = Deck { cards: Vec::with_capacity(52) };
        deck.create_deck();
        proof {
            assert(deck.cards@ =~= full_deck());
        }
        deck
    }

    /// Append the 52 standard cards, one of each rank and suit.
    pub fn create_deck(&mut self)
        ensures
            final(self).cards@ == old(self).cards@ + full_deck(),
    {
        let mut s: usize = 0;
        while s < 4
            invariant
                s <= 4,
                self.cards@ == old(self).cards@ + full_deck().take(13 * s as int),
            decreases 4 - s,
        {
            let suit = if s == 0 {
                Suit::Diamonds
            } else if s == 1 {
                Suit::Clubs
            } else if s == 2 {
                Suit::Hearts
            } else {
                Suit::Spades
            };
            let mut r: usize = 0;
            while r < 13
                invariant
                    s < 4,
                    r <= 13,
                    suit == suit_of_block(s as int),
                    self.cards@ == old(self).cards@ + full_deck().take(13 * s as int + r as int),
                decreases 13 - r,
            {
                let card = Card { rank: (2 + r) as u8, suit };
                proof {
                    let i = 13 * (s as int) + r as int;
                    assert(i / 13 == s as int && i % 13 == r as int) by (nonlinear_arith)
                        requires
                            0 <= r < 13,
                            0 <= s,
                            i == 13 * (s as int) + r as int,
                    ;
                    assert(full_deck()[i] == card);
                    assert(full_deck().take(i + 1) =~= full_deck().take(i).push(card));
                }
                self.cards.push(card);
                r += 1;
            }
            s += 1;
        }
        proof {
            assert(full_deck().take(52) =~= full_deck());
        }
    }

    /// Shuffle the deck in place.
    ///
    /// Relies on `rand::seq::SliceRandom::shuffle` with
    /// `rand::thread_rng`: it permutes the slice in place, so the deck
    /// holds exactly the same cards afterwards, in an order that
    /// depends on the generator.
    #[verifier::external_body]
    pub fn shuffle(&mut self)
        ensures
            final(self).cards@.len() == old(self).cards@.len(),
            final(self).cards@.to_multiset() == old(self).cards@.to_multiset(),
    {
        self.cards.shuffle(&mut rand::thread_rng());
    }

    /// Deal five rounds of cards off the front of the deck, one card
    /// per hand per round, stopping early only when the deck runs out.
    pub fn deal_hands(&mut self, hands: &mut Vec<Vec<Card>>)
        requires
            5 * old(hands)@.len() <= usize::MAX,
        ensures
            final(hands)@.len() == old(hands)@.len(),
            forall|j: int|
                0 <= j < final(hands)@.len() ==> final(hands)@[j]@ == old(hands)@[j]@ + dealt_to(
                    old(self).cards@,
                    old(hands)@.len() as int,
                    j,
                    5,
                ),
            final(self).cards@ == old(self).cards@.skip(
                if 5 * old(hands)@.len() < old(self).cards@.len() {
                    5 * old(hands)@.len() as int
                } else {
                    old(self).cards@.len() as int
                },
            ),
    {
        let n = hands.len();
        let m = self.cards.len();
        let mut j: usize = 0;
        while j < n
            invariant
                j <= n,
                n == hands@.len(),
                5 * n <= usize::MAX,
                m == self.cards@.len(),
                self.cards@ == old(self).cards@,
                forall|t: int|
                    0 <= t < j ==> hands@[t]@ == old(hands)@[t]@ + dealt_to(
                        old(self).cards@,
                        n as int,
                        t,
                        5,
                    ),
                forall|t: int| j <= t < n ==> hands@[t] == old(hands)@[t],
            decreases n - j,
        {
            let ghost h0 = hands@;
            let mut hand = hands.remove(j);
            let mut r: usize = 0;
            while r < 5
                invariant
                    r <= 5,
                    j < n,
                    5 * n <= usize::MAX,
                    m == self.cards@.len(),
                    self.cards@ == old(self).cards@,
                    hand@ == old(hands)@[j as int]@ + dealt_to(
                        old(self).cards@,
                        n as int,
                        j as int,
                        r as int,
                    ),
                decreases 5 - r,
            {
                proof {
                    assert((r as int) * (n as int) <= 4 * (n as int)) by (nonlinear_arith)
                        requires
                            r <= 4,
                            n >= 0,
                    ;
                }
                let idx = r * n + j;
                if idx < m {
                    let card = self.cards[idx];
                    hand.push(card);
                }
                r += 1;
            }
            hands.insert(j, hand);
            proof {
                assert forall|t: int| 0 <= t < n implies hands@[t] == (if t == j as int {
                    hand
                } else {
                    h0[t]
                }) by {
                    h0.remove_ensures(j as int);
                    h0.remove(j as int).insert_ensures(j as int, hand);
                }
            }
            j += 1;
        }
        let k = if 5 * n < m {
            5 * n
        } else {
            m
        };
        let tail = self.cards.split_off(k);
        self.cards = tail;
        proof {
            assert(self.cards@ =~= old(self).cards@.skip(
                if 5 * old(hands)@.len() < old(self).cards@.len() {
                    5 * old(hands)@.len() as int
                } else {
                    old(self).cards@.len() as int
                },
            ));
        }
    }
}

} // verus!
