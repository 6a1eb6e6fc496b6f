use vstd::prelude::*;
use rand::seq::SliceRandom;

verus! {

use crate::card::{Card, Suit, Rank, card_at, suit_at, rank_at};

/// The one failure a deck operation can report: a deal asked for more cards
/// than the deck holds.
#[derive(Debug, PartialEq, Eq, Clone, Copy, Structural)]
pub enum DealError {
    InsufficientCards,
}

/// The sequence a freshly constructed deck holds: for each suit in canonical
/// order, the thirteen ranks in canonical order, 52 cards in all.
pub open spec fn canonical_deck() -> Seq<Card> {
    Seq::new(52, |i: int| card_at(i))
}

/// An ordered collection of cards. A fresh deck holds each of the 52 cards
/// exactly once; shuffling reorders it and dealing removes cards from its
/// tail, so it always holds a duplicate-free subset of the original 52.
pub struct Deck {
    pub cards: Vec<Card>,
}

impl Deck {
    /// The deck never holds the same card twice.
    pub open spec fn wf(self) -> bool {
        self.cards@.no_duplicates()
    }

    /// Builds the canonical 52-card deck: every (suit, rank) combination
    /// exactly once, suit-major, rank-minor.
    pub fn new() -> (deck: Deck)
        ensures
            deck.cards@ == canonical_deck(),
            deck.cards@.len() == 52,
            deck.wf(),
    {
        let mut cards: Vec<Card> = Vec::with_capacity(52);
        for i in 0..52usize
            invariant
                cards@ == canonical_deck().take(i as int),
        {
            let card = Card { suit: suit_of(i / 13), rank: rank_of(i % 13) };
            cards.push(card);
            proof {
                assert(card == card_at(i as int));
                assert(canonical_deck().take(i + 1) == canonical_deck().take(i as int).push(
                    card_at(i as int),
                ));
            }
        }
        proof {
            assert(cards@ == canonical_deck());
            lemma_canonical_deck_no_duplicates();
        }
        Deck { cards }
    }

    /// Reorders the cards in place at random. The multiset of cards is
    /// unchanged: no card appears or disappears, only the order moves.
    pub fn shuffle(&mut self)
        ensures
            final(self).cards@.to_multiset() == old(self).cards@.to_multiset(),
            final(self).cards@.len() == old(self).cards@.len(),
            forall|c: Card| final(self).cards@.contains(c) <==> old(self).cards@.contains(c),
            old(self).wf() ==> final(self).wf(),
    {
        let ghost prior = self.cards@;
        shuffle_in_place(&mut self.cards);
        proof {
            prior.to_multiset_ensures();
            self.cards@.to_multiset_ensures();
            assert forall|c: Card| self.cards@.contains(c) <==> prior.contains(c) by {
                assert(self.cards@.to_multiset().count(c) == prior.to_multiset().count(c));
            }
            if prior.no_duplicates() {
                prior.lemma_multiset_has_no_duplicates();
                self.cards@.lemma_multiset_has_no_duplicates_conv();
            }
        }
    }

    /// Removes the trailing `num_cards` cards and returns them, in the order
    /// they stood in the deck. The deck keeps its leading cards untouched,
    /// so a duplicate-free deck stays duplicate-free and the dealt cards are
    /// disjoint from those that remain.
    pub fn deal(&mut self, num_cards: usize) -> (dealt: Vec<Card>)
        requires
            num_cards <= old(self).cards@.len(),
        ensures
            final(self).cards@ == old(self).cards@.subrange(
                0,
                old(self).cards@.len() - num_cards,
            ),
            dealt@ == old(self).cards@.subrange(
                old(self).cards@.len() - num_cards,
                old(self).cards@.len() as int,
            ),
            dealt@.len() == num_cards,
            old(self).wf() ==> final(self).wf() && dealt@.no_duplicates() && (forall|c: Card|
                dealt@.contains(c) ==> !final(self).cards@.contains(c)),
    {
        proof {
            if old(self).wf() {
                lemma_split_pieces(old(self).cards@, old(self).cards@.len() - num_cards);
            }
        }
        let at = self.cards.len() - num_cards;
        self.cards.split_off(at)
    }

    /// Like `deal`, but reports `InsufficientCards` instead of demanding that
    /// enough cards remain. On failure the deck is left exactly as it was.
    pub fn try_deal(&mut self, num_cards: usize) -> (result: Result<Vec<Card>, DealError>)
        ensures
            num_cards <= old(self).cards@.len() ==> {
                &&& result is Ok
                &&& result->Ok_0@ == old(self).cards@.subrange(
                    old(self).cards@.len() - num_cards,
                    old(self).cards@.len() as int,
                )
                &&& final(self).cards@ == old(self).cards@.subrange(
                    0,
                    old(self).cards@.len() - num_cards,
                )
            },
            num_cards > old(self).cards@.len() ==> {
                &&& result is Err
                &&& result->Err_0 == DealError::InsufficientCards
                &&& final(self).cards@ == old(self).cards@
            },
            old(self).wf() ==> final(self).wf(),
    {
        if num_cards <= self.cards.len() {
            Ok(self.deal(num_cards))
        } else {
            Err(DealError::InsufficientCards)
        }
    }
}

/// The suit of the canonical deck position group `i`.
fn suit_of(i: usize) -> (s: Suit)
    requires
        i < 4,
    ensures
        s == suit_at(i as int),
{
    if i == 0 {
        Suit::Hearts
    } else if i == 1 {
        Suit::Diamonds
    } else if i == 2 {
        Suit::Clubs
    } else {
        Suit::Spades
    }
}

/// The rank at offset `i` within a suit of the canonical deck.
fn rank_of(i: usize) -> (r: Rank)
    requires
        i < 13,
    ensures
        r == rank_at(i as int),
{
    if i == 0 {
        Rank::Two
    } else if i == 1 {
        Rank::Three
    } else if i == 2 {
        Rank::Four
    } else if i == 3 {
        Rank::Five
    } else if i == 4 {
        Rank::Six
    } else if i == 5 {
        Rank::Seven
    } else if i == 6 {
        Rank::Eight
    } else if i == 7 {
        Rank::Nine
    } else if i == 8 {
        Rank::Ten
    } else if i == 9 {
        Rank::Jack
    } else if i == 10 {
        Rank::Queen
    } else if i == 11 {
        Rank::King
    } else {
        Rank::Ace
    }
}

/// Relies on rand's `SliceRandom::shuffle`, a Fisher–Yates shuffle driven by
/// `rand::thread_rng`: it only swaps elements of the slice in place, so
/// whatever order comes out, the multiset of elements is the one that went in.
#[verifier::external_body]
fn shuffle_in_place(cards: &mut Vec<Card>)
    ensures
        final(cards)@.to_multiset() == old(cards)@.to_multiset(),
{
    cards.as_mut_slice().shuffle(&mut rand::thread_rng());
}

/// The canonical deck holds no card twice: distinct positions carry distinct
/// cards.
pub proof fn lemma_canonical_deck_no_duplicates()
    ensures
        canonical_deck().no_duplicates(),
{
    crate::card::lemma_card_index_bijective();
    assert forall|i: int, j: int|
        0 <= i < canonical_deck().len() && 0 <= j < canonical_deck().len() && i != j implies
        canonical_deck()[i] != canonical_deck()[j] by {
        assert(crate::card::card_index(card_at(i)) == i);
        assert(crate::card::card_index(card_at(j)) == j);
    }
}

/// Every card occurs somewhere in the canonical deck: the deck's positions
/// cover the full cross product of suits and ranks.
pub proof fn lemma_canonical_deck_complete()
    ensures
        canonical_deck().len() == 52,
        forall|c: Card| canonical_deck().contains(c),
{
    crate::card::lemma_card_index_bijective();
    assert forall|c: Card| canonical_deck().contains(c) by {
        assert(canonical_deck()[crate::card::card_index(c)] == c);
    }
}

/// Splitting a duplicate-free sequence leaves two duplicate-free pieces with
/// no element in common.
pub proof fn lemma_split_pieces(s: Seq<Card>, at: int)
    requires
        s.no_duplicates(),
        0 <= at <= s.len(),
    ensures
        s.subrange(0, at).no_duplicates(),
        s.subrange(at, s.len() as int).no_duplicates(),
        forall|c: Card|
            s.subrange(at, s.len() as int).contains(c) ==> !s.subrange(0, at).contains(c),
{
    let front = s.subrange(0, at);
    let back = s.subrange(at, s.len() as int);
    assert forall|c: Card| back.contains(c) implies !front.contains(c) by {
        if front.contains(c) {
            let i = choose|i: int| 0 <= i < front.len() && front[i] == c;
            let j = choose|j: int| 0 <= j < back.len() && back[j] == c;
            assert(s[i] == c && s[at + j] == c);
        }
    }
}

} // verus!
