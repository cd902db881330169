use poker::{Card, HandType, ParseError, Suit, parse_card, parse_hand, winning_hands};

fn card(s: &str) -> Card {
    parse_card(s).unwrap()
}

#[test]
fn parse_card_numeric_ranks() {
    assert_eq!(card("2S"), Card { value: 2, suit: Suit::Spade });
    assert_eq!(card("3C"), Card { value: 3, suit: Suit::Club });
    assert_eq!(card("4H"), Card { value: 4, suit: Suit::Heart });
    assert_eq!(card("5D"), Card { value: 5, suit: Suit::Diamond });
    assert_eq!(card("6S"), Card { value: 6, suit: Suit::Spade });
    assert_eq!(card("7C"), Card { value: 7, suit: Suit::Club });
    assert_eq!(card("8H"), Card { value: 8, suit: Suit::Heart });
    assert_eq!(card("9D"), Card { value: 9, suit: Suit::Diamond });
    assert_eq!(card("10H"), Card { value: 10, suit: Suit::Heart });
}

#[test]
fn parse_card_letter_ranks() {
    assert_eq!(card("JC"), Card { value: 11, suit: Suit::Club });
    assert_eq!(card("QD"), Card { value: 12, suit: Suit::Diamond });
    assert_eq!(card("KS"), Card { value: 13, suit: Suit::Spade });
    assert_eq!(card("AH"), Card { value: 14, suit: Suit::Heart });
}

#[test]
fn parse_card_rejects_bad_tokens() {
    for tok in ["", "2", "S", "1S", "0S", "11S", "2X", "10X", "104S", "AHH", "A H", " 2S"] {
        match parse_card(tok) {
            Err(ParseError::MalformedCard(t)) => assert_eq!(t, tok),
            other => panic!("{:?} should be rejected, got {:?}", tok, other),
        }
    }
}

fn classify(s: &str) -> (HandType, Vec<u8>) {
    let h = parse_hand(s).unwrap();
    (h.hand_type, h.tie_breaker)
}

#[test]
fn classify_straight_flush() {
    assert_eq!(classify("2H 3H 4H 5H 6H"), (HandType::StraightFlush, vec![6]));
    assert_eq!(classify("10S JS QS KS AS"), (HandType::StraightFlush, vec![14]));
}

#[test]
fn classify_wheel_straight_flush_is_five_high() {
    assert_eq!(classify("AH 2H 3H 4H 5H"), (HandType::StraightFlush, vec![5]));
}

#[test]
fn classify_four_of_a_kind() {
    assert_eq!(classify("9S 9H 9D 9C 2H"), (HandType::FourOfAKind, vec![9, 2]));
    assert_eq!(classify("2H AS 2S 2D 2C"), (HandType::FourOfAKind, vec![2, 14]));
}

#[test]
fn classify_full_house() {
    assert_eq!(classify("4H 4S 4D 9C 9D"), (HandType::FullHouse, vec![4, 9]));
    assert_eq!(classify("9C 4H 9D 4S 9H"), (HandType::FullHouse, vec![9, 4]));
}

#[test]
fn classify_flush() {
    assert_eq!(classify("2H 5H 7H 9H JH"), (HandType::Flush, vec![11, 9, 7, 5, 2]));
}

#[test]
fn classify_straight() {
    assert_eq!(classify("3H 4D 5C 6S 7H"), (HandType::Straight, vec![7]));
    assert_eq!(classify("10H JD QC KS AH"), (HandType::Straight, vec![14]));
}

#[test]
fn classify_wheel_straight_is_five_high() {
    assert_eq!(classify("2H 3D 4C 5S AH"), (HandType::Straight, vec![5]));
}

#[test]
fn classify_three_of_a_kind() {
    assert_eq!(classify("QS QH QD 3C 7D"), (HandType::ThreeOfAKind, vec![12, 7, 3]));
}

#[test]
fn classify_two_pair() {
    assert_eq!(classify("KH KD 3S 3H 9C"), (HandType::TwoPair, vec![13, 3, 9]));
}

#[test]
fn classify_one_pair() {
    assert_eq!(classify("8C 8D AH 4S 2H"), (HandType::OnePair, vec![8, 14, 4, 2]));
}

#[test]
fn classify_high_card() {
    assert_eq!(classify("KS 10C 7D 5H 2S"), (HandType::HighCard, vec![13, 10, 7, 5, 2]));
}

#[test]
fn parsed_hand_keeps_cards_in_token_order() {
    let h = parse_hand("4S 5S 6S 8D JH").unwrap();
    assert_eq!(
        h.cards,
        vec![card("4S"), card("5S"), card("6S"), card("8D"), card("JH")]
    );
    assert_eq!(h.input_string, "4S 5S 6S 8D JH");
}

#[test]
fn parse_hand_rejects_wrong_token_count() {
    for s in ["", "2H", "2H 3H 4H 5H", "2H 3H 4H 5H 6H 7H"] {
        match parse_hand(s) {
            Err(ParseError::MalformedHand) => {},
            other => panic!("{:?} should be MalformedHand, got {:?}", s, other),
        }
    }
}

#[test]
fn parse_hand_rejects_stray_whitespace() {
    for s in [" 2H 3H 4H 5H 6H", "2H 3H 4H 5H 6H ", "2H  3H 4H 5H 6H"] {
        match parse_hand(s) {
            Err(ParseError::MalformedHand) => {},
            other => panic!("{:?} should be MalformedHand, got {:?}", s, other),
        }
    }
}

#[test]
fn parse_hand_reports_first_bad_token() {
    match parse_hand("2H 3H 4X 5Y 6H") {
        Err(ParseError::MalformedCard(t)) => assert_eq!(t, "4X"),
        other => panic!("expected MalformedCard, got {:?}", other),
    }
}

#[test]
fn winning_hands_empty_input_is_absent() {
    let hands: Vec<&str> = Vec::new();
    assert_eq!(winning_hands(&hands).unwrap(), None);
}

#[test]
fn winning_hands_single_hand_wins() {
    let hands = ["4S 5S 6S 8D JH"];
    assert_eq!(winning_hands(&hands).unwrap(), Some(vec!["4S 5S 6S 8D JH"]));
}

#[test]
fn winning_hands_flush_beats_high_card_and_returns_same_reference() {
    let hands = ["4S 5S 6S 8D JH", "2S 4C 7S 9H 10H"];
    let ws = winning_hands(&hands).unwrap().unwrap();
    assert_eq!(ws.len(), 1);
    assert!(std::ptr::eq(ws[0], hands[0]));
}

#[test]
fn winning_hands_wheel_loses_to_higher_straight() {
    let hands = ["2H 3D 4C 5S AH", "3H 4D 5C 6S 7H"];
    assert_eq!(winning_hands(&hands).unwrap(), Some(vec!["3H 4D 5C 6S 7H"]));
}

#[test]
fn winning_hands_six_high_straight_beats_wheel() {
    let hands = ["2H 3D 4C 5S AH", "2C 3H 4S 5D 6C"];
    assert_eq!(winning_hands(&hands).unwrap(), Some(vec!["2C 3H 4S 5D 6C"]));
}

#[test]
fn winning_hands_full_house_beats_flush() {
    let hands = ["2H 2D 2C 5H 5D", "2H 5H 7H 9H JH"];
    assert_eq!(winning_hands(&hands).unwrap(), Some(vec!["2H 2D 2C 5H 5D"]));
}

#[test]
fn winning_hands_tie_returns_both_in_original_order() {
    let hands = ["4H 4S 4D 9C 9D", "4D 4C 4S 9H 9S"];
    assert_eq!(
        winning_hands(&hands).unwrap(),
        Some(vec!["4H 4S 4D 9C 9D", "4D 4C 4S 9H 9S"])
    );
}

#[test]
fn winning_hands_tie_skips_weaker_middle_hand() {
    let hands = ["8C 8D AH 4S 2H", "KS 10C 7D 5H 2S", "8H 8S AD 4C 2D"];
    assert_eq!(
        winning_hands(&hands).unwrap(),
        Some(vec!["8C 8D AH 4S 2H", "8H 8S AD 4C 2D"])
    );
}

#[test]
fn winning_hands_kicker_decides_between_equal_pairs() {
    let hands = ["8C 8D AH 4S 2H", "8H 8S KD 4C 2D"];
    assert_eq!(winning_hands(&hands).unwrap(), Some(vec!["8C 8D AH 4S 2H"]));
}

#[test]
fn winning_hands_four_of_a_kind_beats_full_house() {
    let hands = ["9C 4H 9D 4S 9H", "2H AS 2S 2D 2C"];
    assert_eq!(winning_hands(&hands).unwrap(), Some(vec!["2H AS 2S 2D 2C"]));
}

#[test]
fn winning_hands_flushes_compare_all_ranks_descending() {
    let hands = ["2H 5H 7H 9H JH", "3S 5S 7S 9S JS"];
    assert_eq!(winning_hands(&hands).unwrap(), Some(vec!["3S 5S 7S 9S JS"]));
}

#[test]
fn winning_hands_straight_flush_beats_four_of_a_kind() {
    let hands = ["2H 3H 4H 5H 6H", "9S 9H 9D 9C 2C"];
    assert_eq!(winning_hands(&hands).unwrap(), Some(vec!["2H 3H 4H 5H 6H"]));
}

#[test]
fn winning_hands_high_card_ties_across_suits() {
    let hands = ["KS 10C 7D 5H 2S", "KH 10D 7S 5C 2H"];
    assert_eq!(
        winning_hands(&hands).unwrap(),
        Some(vec!["KS 10C 7D 5H 2S", "KH 10D 7S 5C 2H"])
    );
}

#[test]
fn winning_hands_two_pair_beats_one_pair() {
    let hands = ["8C 8D AH 4S 2H", "3H 3S 4D 4C 2C"];
    assert_eq!(winning_hands(&hands).unwrap(), Some(vec!["3H 3S 4D 4C 2C"]));
}

#[test]
fn winning_hands_malformed_hand_fails_whole_call() {
    let hands = ["2H 3H 4H 5H 6H", "XX"];
    match winning_hands(&hands) {
        Err(ParseError::MalformedHand) => {},
        other => panic!("expected MalformedHand, got {:?}", other),
    }
}

#[test]
fn winning_hands_malformed_card_fails_whole_call() {
    let hands = ["2H 3H 4H 5H 6H", "2H 3H 4H 5H 6X"];
    match winning_hands(&hands) {
        Err(ParseError::MalformedCard(t)) => assert_eq!(t, "6X"),
        other => panic!("expected MalformedCard, got {:?}", other),
    }
}
