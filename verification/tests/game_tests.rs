use std::collections::HashSet;

use poker::card::{Card, Rank, Suit};
use poker::deck::Deck;
use poker::game::deal_hands;

#[test]
fn deal_hands_should_deal_correct_hands_number_matching_players() {
    let mut deck = Deck::new();
    deck.shuffle();
    let num_players = 4;
    let (hands, _) = deal_hands(&mut deck, num_players);

    assert_eq!(hands.len(), num_players);
    for hand in hands {
        assert_eq!(hand.len(), 2);
    }
}

#[test]
fn deal_hands_should_deal_correct_number_of_community_cards() {
    let mut deck = Deck::new();
    deck.shuffle();
    let num_players = 4;
    let (_, community_cards) = deal_hands(&mut deck, num_players);

    assert_eq!(community_cards.len(), 5);
}

#[test]
fn deal_hands_should_change_deck_size_after_deal_hands() {
    let mut deck = Deck::new();
    deck.shuffle();
    let num_players = 4;
    let total_dealt_cards = num_players * 2 + 5; // 2 cards per player + 5 community cards
    let initial_deck_size = deck.cards.len();
    deal_hands(&mut deck, num_players);
    let remaining_deck_size = deck.cards.len();

    assert_eq!(initial_deck_size - total_dealt_cards, remaining_deck_size);
}

#[test]
fn test_dealt_cards_are_unique() {
    let mut deck = Deck::new();
    deck.shuffle();
    let num_players = 4;
    let (hands, community_cards) = deal_hands(&mut deck, num_players);

    let mut dealt_cards = HashSet::new();
    for hand in hands {
        for card in hand {
            assert!(dealt_cards.insert(card));
        }
    }
    for card in community_cards {
        assert!(dealt_cards.insert(card));
    }
}

#[test]
fn full_round_deals_four_distinct_hands_and_community() {
    let mut deck = Deck::new();
    assert_eq!(deck.cards.len(), 52);
    deck.shuffle();

    let (hands, community_cards) = deal_hands(&mut deck, 4);

    assert_eq!(hands.len(), 4);
    let mut dealt: Vec<Card> = Vec::new();
    for hand in &hands {
        assert_eq!(hand.len(), 2);
        dealt.extend(hand.iter().copied());
    }
    assert_eq!(community_cards.len(), 5);
    dealt.extend(community_cards.iter().copied());

    assert_eq!(dealt.len(), 13);
    assert_eq!(deck.cards.len(), 39);

    let unique: HashSet<Card> = dealt.iter().copied().collect();
    assert_eq!(unique.len(), 13);
    for card in &dealt {
        assert!(!deck.cards.contains(card));
    }
}

#[test]
fn deal_hands_on_unshuffled_deck_is_deterministic() {
    let mut deck = Deck::new();
    let (hands, community_cards) = deal_hands(&mut deck, 1);

    // the single player takes the last two canonical cards
    assert_eq!(
        hands,
        vec![vec![
            Card { suit: Suit::Spades, rank: Rank::King },
            Card { suit: Suit::Spades, rank: Rank::Ace },
        ]]
    );
    // the community takes the five before them
    assert_eq!(
        community_cards,
        vec![
            Card { suit: Suit::Spades, rank: Rank::Eight },
            Card { suit: Suit::Spades, rank: Rank::Nine },
            Card { suit: Suit::Spades, rank: Rank::Ten },
            Card { suit: Suit::Spades, rank: Rank::Jack },
            Card { suit: Suit::Spades, rank: Rank::Queen },
        ]
    );
    assert_eq!(deck.cards.len(), 45);
}
