use vstd::prelude::*;

verus! {

use crate::card::Card;
use crate::deck::Deck;

/// The views of a sequence of dealt hands.
pub open spec fn hand_views(hands: Seq<Vec<Card>>) -> Seq<Seq<Card>> {
    hands.map_values(|h: Vec<Card>| h@)
}

/// Everything one round of dealing handed out, flattened: the players' hands
/// in player order, then the community cards.
pub open spec fn dealt_cards(hands: Seq<Seq<Card>>, community: Seq<Card>) -> Seq<Card> {
    hands.flatten() + community
}

/// Deals two cards off the deck's tail to each of `num_players` players in
/// turn, then five community cards. The deck shrinks by `2 * num_players + 5`
/// cards; which cards each player receives is determined entirely by the
/// deck's order on entry, so randomness comes only from a prior shuffle.
pub fn deal_hands(deck: &mut Deck, num_players: usize) -> (r: (Vec<Vec<Card>>, Vec<Card>))
    requires
        2 * (num_players as int) + 5 <= old(deck).cards@.len(),
    ensures
        ({
            let prior = old(deck).cards@;
            let l = prior.len() as int;
            let k = num_players as int;
            &&& r.0@.len() == k
            &&& forall|i: int|
                0 <= i < k ==> (#[trigger] r.0@[i])@ == prior.subrange(l - 2 * i - 2, l - 2 * i)
            &&& forall|i: int| 0 <= i < k ==> (#[trigger] r.0@[i])@.len() == 2
            &&& r.1@ == prior.subrange(l - 2 * k - 5, l - 2 * k)
            &&& r.1@.len() == 5
            &&& final(deck).cards@ == prior.subrange(0, l - 2 * k - 5)
        }),
        old(deck).wf() ==> {
            &&& final(deck).wf()
            &&& dealt_cards(hand_views(r.0@), r.1@).no_duplicates()
            &&& forall|c: Card|
                dealt_cards(hand_views(r.0@), r.1@).contains(c)
                    ==> !final(deck).cards@.contains(c)
        },
{
    let ghost prior = deck.cards@;
    let ghost l = prior.len() as int;
    let ghost k = num_players as int;
    let mut hands: Vec<Vec<Card>> = Vec::with_capacity(num_players);
    for idx in 0..num_players
        invariant
            2 * k + 5 <= l,
            prior == old(deck).cards@,
            l == prior.len(),
            k == num_players as int,
            deck.cards@ == prior.subrange(0, l - 2 * idx),
            hands@.len() == idx,
            forall|j: int|
                0 <= j < idx ==> (#[trigger] hands@[j])@ == prior.subrange(
                    l - 2 * j - 2,
                    l - 2 * j,
                ),
            prior.no_duplicates() ==> {
                &&& hand_views(hands@).flatten().no_duplicates()
                &&& forall|c: Card|
                    hand_views(hands@).flatten().contains(c) ==> !deck.cards@.contains(c)
            },
    {
        let ghost cards_before = deck.cards@;
        let ghost hands_before = hands@;
        proof {
            if prior.no_duplicates() {
                crate::deck::lemma_split_pieces(prior, l - 2 * idx);
            }
        }
        let hand = deck.deal(2);
        hands.push(hand);
        proof {
            let f = |h: Vec<Card>| h@;
            hands_before.lemma_push_map_commute(f, hand);
            hand_views(hands_before).lemma_flatten_push(hand@);
            assert(hand_views(hands@).flatten() == hand_views(hands_before).flatten() + hand@);
            prior.lemma_slice_of_slice(0, l - 2 * idx, 0, l - 2 * idx - 2);
            prior.lemma_slice_of_slice(0, l - 2 * idx, l - 2 * idx - 2, l - 2 * idx);
            assert(deck.cards@ == prior.subrange(0, l - 2 * (idx + 1)));
            if prior.no_duplicates() {
                let flat_before = hand_views(hands_before).flatten();
                let flat_now = hand_views(hands@).flatten();
                assert forall|c: Card| deck.cards@.contains(c) implies cards_before.contains(
                    c,
                ) by {
                    lemma_prefix_contains(cards_before, cards_before.len() - 2, c);
                }
                lemma_concat_no_duplicates(flat_before, hand@);
                assert forall|c: Card| flat_now.contains(c) implies !deck.cards@.contains(c) by {
                    let i = choose|i: int| 0 <= i < flat_now.len() && flat_now[i] == c;
                    if i < flat_before.len() {
                        assert(flat_before[i] == c);
                        assert(flat_before.contains(c));
                    } else {
                        assert(hand@[i - flat_before.len()] == c);
                        assert(hand@.contains(c));
                    }
                }
            }
        }
    }
    proof {
        if prior.no_duplicates() {
            crate::deck::lemma_split_pieces(prior, l - 2 * k);
        }
    }
    let ghost cards_before = deck.cards@;
    let ghost flat = hand_views(hands@).flatten();
    let community_cards = deck.deal(5);
    proof {
        prior.lemma_slice_of_slice(0, l - 2 * k, 0, l - 2 * k - 5);
        prior.lemma_slice_of_slice(0, l - 2 * k, l - 2 * k - 5, l - 2 * k);
        if prior.no_duplicates() {
            assert forall|c: Card| deck.cards@.contains(c) implies cards_before.contains(c) by {
                lemma_prefix_contains(cards_before, cards_before.len() - 5, c);
            }
            lemma_concat_no_duplicates(flat, community_cards@);
            let all = dealt_cards(hand_views(hands@), community_cards@);
            assert forall|c: Card| all.contains(c) implies !deck.cards@.contains(c) by {
                let i = choose|i: int| 0 <= i < all.len() && all[i] == c;
                if i < flat.len() {
                    assert(flat[i] == c);
                    assert(flat.contains(c));
                } else {
                    assert(community_cards@[i - flat.len()] == c);
                    assert(community_cards@.contains(c));
                }
            }
        }
    }
    (hands, community_cards)
}

/// Two duplicate-free sequences with no element in common concatenate to a
/// duplicate-free sequence.
proof fn lemma_concat_no_duplicates(a: Seq<Card>, b: Seq<Card>)
    requires
        a.no_duplicates(),
        b.no_duplicates(),
        forall|c: Card| b.contains(c) ==> !a.contains(c),
    ensures
        (a + b).no_duplicates(),
{
    let ab = a + b;
    assert forall|i: int, j: int| 0 <= i < ab.len() && 0 <= j < ab.len() && i != j implies ab[i]
        != ab[j] by {
        if i < a.len() && j < a.len() {
        } else if i >= a.len() && j >= a.len() {
        } else if i < a.len() && j >= a.len() {
            assert(a.contains(ab[i]) && b.contains(ab[j]));
        } else {
            assert(b.contains(ab[i]) && a.contains(ab[j]));
        }
    }
}

/// An element of a leading slice of a sequence is an element of the
/// sequence.
proof fn lemma_prefix_contains(s: Seq<Card>, hi: int, c: Card)
    requires
        0 <= hi <= s.len(),
        s.subrange(0, hi).contains(c),
    ensures
        s.contains(c),
{
    let front = s.subrange(0, hi);
    let j = choose|j: int| 0 <= j < front.len() && front[j] == c;
    assert(s[j] == c);
}

} // verus!
