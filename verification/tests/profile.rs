use poker::classify::HandProfile;
use poker::{Card, HandType, Suit, determine_hand_type, profile_hand};

fn hand() -> Vec<Card> {
    vec![
        Card { value: 7, suit: Suit::Heart },
        Card { value: 3, suit: Suit::Diamond },
        Card { value: 5, suit: Suit::Club },
        Card { value: 6, suit: Suit::Spade },
        Card { value: 4, suit: Suit::Heart },
    ]
}

#[test]
fn profile_collects_sorted_ranks_suits_and_straightness() {
    let cards = hand();
    let p = profile_hand(&cards);
    assert_eq!(p.sorted_ranks, vec![3, 4, 5, 6, 7]);
    assert!(p.is_straight);
    assert_eq!(p.suits.len(), 4);
}

#[test]
fn determine_follows_profile() {
    let cards = hand();
    let p = profile_hand(&cards);
    let (tb, ht) = determine_hand_type(p, &cards);
    assert_eq!(ht, HandType::Straight);
    assert_eq!(tb, vec![7]);
}

#[test]
fn profile_wheel_counts_as_straight() {
    let cards = vec![
        Card { value: 14, suit: Suit::Heart },
        Card { value: 2, suit: Suit::Diamond },
        Card { value: 3, suit: Suit::Club },
        Card { value: 4, suit: Suit::Spade },
        Card { value: 5, suit: Suit::Heart },
    ];
    let p = profile_hand(&cards);
    assert_eq!(p.sorted_ranks, vec![2, 3, 4, 5, 14]);
    assert!(p.is_straight);
}

#[test]
fn profile_single_suit_is_flush_candidate() {
    let cards = vec![
        Card { value: 2, suit: Suit::Heart },
        Card { value: 5, suit: Suit::Heart },
        Card { value: 7, suit: Suit::Heart },
        Card { value: 9, suit: Suit::Heart },
        Card { value: 11, suit: Suit::Heart },
    ];
    let p = profile_hand(&cards);
    assert_eq!(p.suits, vec![Suit::Heart]);
    assert!(!p.is_straight);
    let (tb, ht) = determine_hand_type(p, &cards);
    assert_eq!(ht, HandType::Flush);
    assert_eq!(tb, vec![11, 9, 7, 5, 2]);
}

#[test]
fn profile_near_straight_with_gap_is_not_straight() {
    let cards = vec![
        Card { value: 2, suit: Suit::Heart },
        Card { value: 3, suit: Suit::Diamond },
        Card { value: 4, suit: Suit::Club },
        Card { value: 5, suit: Suit::Spade },
        Card { value: 7, suit: Suit::Heart },
    ];
    let p = profile_hand(&cards);
    assert!(!p.is_straight);
}
