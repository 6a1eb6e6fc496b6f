use vstd::prelude::*;

verus! {

/// One of the four suits of a standard deck, in the order used for the
/// canonical deck layout: Hearts, Diamonds, Clubs, Spades.
#[derive(Debug, PartialEq, Eq, PartialOrd, Ord, Clone, Copy, Hash, Structural)]
pub enum Suit {
    Hearts,
    Diamonds,
    Clubs,
    Spades,
}

/// One of the thirteen ranks, ordered Two up to Ace (ace high).
#[derive(Debug, PartialEq, Eq, PartialOrd, Ord, Clone, Copy, Hash, Structural)]
pub enum Rank {
    Two,
    Three,
    Four,
    Five,
    Six,
    Seven,
    Eight,
    Nine,
    Ten,
    Jack,
    Queen,
    King,
    Ace,
}

/// A playing card: a (suit, rank) pair. Equality is structural, so there is
/// exactly one `Card` value for each of the 52 suit/rank combinations.
#[derive(Debug, PartialEq, Eq, PartialOrd, Ord, Clone, Copy, Hash, Structural)]
pub struct Card {
    pub suit: Suit,
    pub rank: Rank,
}

/// Position of a suit in the canonical suit order.
pub open spec fn suit_index(s: Suit) -> int {
    match s {
        Suit::Hearts => 0,
        Suit::Diamonds => 1,
        Suit::Clubs => 2,
        Suit::Spades => 3,
    }
}

/// The suit standing at position `i` of the canonical suit order.
pub open spec fn suit_at(i: int) -> Suit {
    if i == 0 {
        Suit::Hearts
    } else if i == 1 {
        Suit::Diamonds
    } else if i == 2 {
        Suit::Clubs
    } else {
        Suit::Spades
    }
}

/// Position of a rank in the canonical rank order (Two first, Ace last).
pub open spec fn rank_index(r: Rank) -> int {
    match r {
        Rank::Two => 0,
        Rank::Three => 1,
        Rank::Four => 2,
        Rank::Five => 3,
        Rank::Six => 4,
        Rank::Seven => 5,
        Rank::Eight => 6,
        Rank::Nine => 7,
        Rank::Ten => 8,
        Rank::Jack => 9,
        Rank::Queen => 10,
        Rank::King => 11,
        Rank::Ace => 12,
    }
}

/// The rank standing at position `i` of the canonical rank order.
pub open spec fn rank_at(i: int) -> Rank {
    if i == 0 {
        Rank::Two
    } else if i == 1 {
        Rank::Three
    } else if i == 2 {
        Rank::Four
    } else if i == 3 {
        Rank::Five
    } else if i == 4 {
        Rank::Six
    } else if i == 5 {
        Rank::Seven
    } else if i == 6 {
        Rank::Eight
    } else if i == 7 {
        Rank::Nine
    } else if i == 8 {
        Rank::Ten
    } else if i == 9 {
        Rank::Jack
    } else if i == 10 {
        Rank::Queen
    } else if i == 11 {
        Rank::King
    } else {
        Rank::Ace
    }
}

/// The card standing at position `i` of the canonical deck: suits change
/// every thirteen cards, ranks cycle within a suit.
pub open spec fn card_at(i: int) -> Card {
    Card { suit: suit_at(i / 13), rank: rank_at(i % 13) }
}

/// Position of a card in the canonical deck.
pub open spec fn card_index(c: Card) -> int {
    13 * suit_index(c.suit) + rank_index(c.rank)
}

/// `suit_at` and `suit_index` invert each other on the four suits.
pub proof fn lemma_suit_index_bijective()
    ensures
        forall|s: Suit| 0 <= #[trigger] suit_index(s) < 4 && suit_at(suit_index(s)) == s,
        forall|i: int| 0 <= i < 4 ==> suit_index(#[trigger] suit_at(i)) == i,
{
}

/// `rank_at` and `rank_index` invert each other on the thirteen ranks.
pub proof fn lemma_rank_index_bijective()
    ensures
        forall|r: Rank| 0 <= #[trigger] rank_index(r) < 13 && rank_at(rank_index(r)) == r,
        forall|i: int| 0 <= i < 13 ==> rank_index(#[trigger] rank_at(i)) == i,
{
}

/// `card_at` and `card_index` invert each other on the 52 deck positions:
/// every card occurs in the canonical deck, and at exactly one position.
pub proof fn lemma_card_index_bijective()
    ensures
        forall|c: Card| 0 <= #[trigger] card_index(c) < 52 && card_at(card_index(c)) == c,
        forall|i: int| 0 <= i < 52 ==> card_index(#[trigger] card_at(i)) == i,
{
    lemma_suit_index_bijective();
    lemma_rank_index_bijective();
    assert forall|c: Card| 0 <= #[trigger] card_index(c) < 52 && card_at(card_index(c)) == c by {
        let k = card_index(c);
        assert(k / 13 == suit_index(c.suit) && k % 13 == rank_index(c.rank)) by (nonlinear_arith)
            requires
                k == 13 * suit_index(c.suit) + rank_index(c.rank),
                0 <= suit_index(c.suit) < 4,
                0 <= rank_index(c.rank) < 13,
        ;
    }
    assert forall|i: int| 0 <= i < 52 implies card_index(#[trigger] card_at(i)) == i by {
        assert(0 <= i / 13 < 4 && 0 <= i % 13 < 13 && 13 * (i / 13) + i % 13 == i) by (nonlinear_arith)
            requires
                0 <= i < 52,
        ;
    }
}

} // verus!
