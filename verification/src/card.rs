//! Cards and the card-token parser.

use vstd::prelude::*;
use vstd::string::StrSliceExecFns;
use vstd::string::StringExecFns;

verus! {

/// One of the four French suits.
#[derive(Clone, Copy, PartialEq, Eq, Structural, Debug)]
pub enum Suit {
    Spade,
    Club,
    Heart,
    Diamond,
}

/// A playing card: a rank value in `2..=14` (11 = Jack, 12 = Queen,
/// 13 = King, 14 = Ace) together with a suit.
#[derive(Clone, Copy, PartialEq, Eq, Structural, Debug)]
pub struct Card {
    pub value: u8,
    pub suit: Suit,
}

/// Why a hand string was rejected.
#[derive(Debug)]
pub enum ParseError {
    /// A token that does not denote a valid rank-and-suit combination;
    /// carries the offending token.
    MalformedCard(String),
    /// A hand whose token count is not exactly five.
    MalformedHand,
}

pub open spec fn valid_card(c: Card) -> bool {
    2 <= c.value <= 14
}

/// The rank denoted by a single rank character, if any.
pub open spec fn rank_of_char(c: char) -> Option<u8> {
    if c == '2' {
        Some(2u8)
    } else if c == '3' {
        Some(3u8)
    } else if c == '4' {
        Some(4u8)
    } else if c == '5' {
        Some(5u8)
    } else if c == '6' {
        Some(6u8)
    } else if c == '7' {
        Some(7u8)
    } else if c == '8' {
        Some(8u8)
    } else if c == '9' {
        Some(9u8)
    } else if c == 'J' {
        Some(11u8)
    } else if c == 'Q' {
        Some(12u8)
    } else if c == 'K' {
        Some(13u8)
    } else if c == 'A' {
        Some(14u8)
    } else {
        None
    }
}

/// The suit denoted by a suit letter, if any.
pub open spec fn suit_of_char(c: char) -> Option<Suit> {
    if c == 'S' {
        Some(Suit::Spade)
    } else if c == 'C' {
        Some(Suit::Club)
    } else if c == 'H' {
        Some(Suit::Heart)
    } else if c == 'D' {
        Some(Suit::Diamond)
    } else {
        None
    }
}

/// The card denoted by one whitespace-free token: a rank token
/// (`"2"`..`"9"`, `"10"`, `"J"`, `"Q"`, `"K"`, `"A"`) followed by a suit
/// letter (`S`, `C`, `H`, `D`). Any other token denotes no card.
pub open spec fn card_of_token(t: Seq<char>) -> Option<Card> {
    if t.len() == 2 {
        match (rank_of_char(t[0]), suit_of_char(t[1])) {
            (Some(v), Some(s)) => Some(Card { value: v, suit: s }),
            _ => None,
        }
    } else if t.len() == 3 && t[0] == '1' && t[1] == '0' {
        match suit_of_char(t[2]) {
            Some(s) => Some(Card { value: 10u8, suit: s }),
            None => None,
        }
    } else {
        None
    }
}

/// Every card a token denotes has a rank in range.
pub proof fn lemma_card_of_token_valid(t: Seq<char>)
    ensures
        card_of_token(t) is Some ==> valid_card(card_of_token(t).unwrap()),
{
}

fn char_rank(c: char) -> (r: Option<u8>)
    ensures
        r == rank_of_char(c),
{
    if c == '2' {
        Some(2u8)
    } else if c == '3' {
        Some(3u8)
    } else if c == '4' {
        Some(4u8)
    } else if c == '5' {
        Some(5u8)
    } else if c == '6' {
        Some(6u8)
    } else if c == '7' {
        Some(7u8)
    } else if c == '8' {
        Some(8u8)
    } else if c == '9' {
        Some(9u8)
    } else if c == 'J' {
        Some(11u8)
    } else if c == 'Q' {
        Some(12u8)
    } else if c == 'K' {
        Some(13u8)
    } else if c == 'A' {
        Some(14u8)
    } else {
        None
    }
}

fn char_suit(c: char) -> (r: Option<Suit>)
    ensures
        r == suit_of_char(c),
{
    if c == 'S' {
        Some(Suit::Spade)
    } else if c == 'C' {
        Some(Suit::Club)
    } else if c == 'H' {
        Some(Suit::Heart)
    } else if c == 'D' {
        Some(Suit::Diamond)
    } else {
        None
    }
}

/// Parse one card token. Returns the denoted card, or `MalformedCard`
/// carrying the token itself when the token denotes no card.
pub fn parse_card(card_str: &str) -> (r: Result<Card, ParseError>)
    ensures
        match r {
            Ok(c) => card_of_token(card_str@) == Some(c),
            Err(e) => {
                &&& card_of_token(card_str@) is None
                &&& e matches ParseError::MalformedCard(t) && t@ == card_str@
            },
        },
{
    let n = card_str.unicode_len();
    if n == 2 {
        let rv = char_rank(card_str.get_char(0));
        let sv = char_suit(card_str.get_char(1));
        if let (Some(v), Some(s)) = (rv, sv) {
            return Ok(Card { value: v, suit: s });
        }
    } else if n == 3 {
        let c0 = card_str.get_char(0);
        let c1 = card_str.get_char(1);
        if c0 == '1' && c1 == '0' {
            if let Some(s) = char_suit(card_str.get_char(2)) {
                return Ok(Card { value: 10u8, suit: s });
            }
        }
    }
    Err(ParseError::MalformedCard(String::from_str(card_str)))
}

} // verus!
