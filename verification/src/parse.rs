//! Hand strings: tokenization and parsing into classified hands.

use vstd::prelude::*;
use vstd::string::StrSliceExecFns;

use crate::card::Card;
use crate::card::ParseError;
use crate::card::card_of_token;
use crate::card::lemma_card_of_token_valid;
use crate::card::parse_card;
use crate::card::valid_card;
use crate::classify::HandType;
use crate::classify::category_of;
use crate::classify::determine_hand_type;
use crate::classify::is_flush_cards;
use crate::classify::profile_hand;
use crate::classify::ranks_of;
use crate::classify::tie_breaker_of;
use crate::ranks::sort_ranks;

verus! {

/// The pieces of `s` between its space characters, in order: a split on
/// every single space, with empty pieces kept. There is always at least
/// one piece.
pub open spec fn split_sp(s: Seq<char>) -> Seq<Seq<char>>
    decreases s.len(),
{
    if s.len() == 0 {
        seq![Seq::<char>::empty()]
    } else {
        let rest = split_sp(s.subrange(1, s.len() as int));
        if s[0] == ' ' {
            seq![Seq::<char>::empty()] + rest
        } else {
            seq![seq![s[0]] + rest[0]] + rest.subrange(1, rest.len() as int)
        }
    }
}

pub proof fn lemma_split_sp_len(s: Seq<char>)
    ensures
        split_sp(s).len() >= 1,
    decreases s.len(),
{
    if s.len() > 0 {
        lemma_split_sp_len(s.subrange(1, s.len() as int));
    }
}

/// A hand string is exactly five card tokens separated by single spaces.
pub open spec fn hand_ok(s: Seq<char>) -> bool {
    &&& split_sp(s).len() == 5
    &&& forall|j: int| 0 <= j < 5 ==> card_of_token(#[trigger] split_sp(s)[j]) is Some
}

/// The cards of a well-formed hand string, in token order.
pub open spec fn hand_cards(s: Seq<char>) -> Seq<Card> {
    split_sp(s).map_values(|t: Seq<char>| card_of_token(t).unwrap())
}

/// The first token in the list that denotes no card.
pub open spec fn first_bad_token(tokens: Seq<Seq<char>>) -> Seq<char>
    decreases tokens.len(),
{
    if tokens.len() == 0 {
        Seq::empty()
    } else if card_of_token(tokens[0]) is None {
        tokens[0]
    } else {
        first_bad_token(tokens.subrange(1, tokens.len() as int))
    }
}

pub proof fn lemma_first_bad_token(tokens: Seq<Seq<char>>, i: int)
    requires
        0 <= i < tokens.len(),
        forall|j: int| 0 <= j < i ==> card_of_token(#[trigger] tokens[j]) is Some,
        card_of_token(tokens[i]) is None,
    ensures
        first_bad_token(tokens) == tokens[i],
    decreases i,
{
    if i > 0 {
        let tail = tokens.subrange(1, tokens.len() as int);
        assert forall|j: int| 0 <= j < i - 1 implies card_of_token(#[trigger] tail[j])
            is Some by {
            assert(tail[j] == tokens[j + 1]);
        }
        assert(tail[i - 1] == tokens[i]);
        lemma_first_bad_token(tail, i - 1);
    }
}

/// The error owed for a malformed hand string: a wrong token count is
/// `MalformedHand`; otherwise the first bad token is reported.
pub open spec fn matches_hand_error(e: ParseError, s: Seq<char>) -> bool {
    if split_sp(s).len() != 5 {
        e matches ParseError::MalformedHand
    } else {
        e matches ParseError::MalformedCard(t) && t@ == first_bad_token(split_sp(s))
    }
}

/// A parsed, profiled and classified hand, keeping a reference to the
/// original input text it was read from.
#[derive(Debug)]
pub struct Hand<'a> {
    pub cards: Vec<Card>,
    pub hand_type: HandType,
    pub tie_breaker: Vec<u8>,
    pub input_string: &'a str,
}

impl<'a> Hand<'a> {
    /// The hand records exactly what its input text denotes: its five
    /// cards, their category, and their tie-break key.
    pub open spec fn wf(self) -> bool {
        &&& hand_ok(self.input_string@)
        &&& self.cards@ == hand_cards(self.input_string@)
        &&& forall|j: int| 0 <= j < self.cards@.len() ==> valid_card(#[trigger] self.cards@[j])
        &&& self.hand_type == category_of(
            sort_ranks(ranks_of(self.cards@)),
            is_flush_cards(self.cards@),
        )
        &&& self.tie_breaker@ == tie_breaker_of(
            sort_ranks(ranks_of(self.cards@)),
            is_flush_cards(self.cards@),
        )
    }
}

pub open spec fn views_of(tokens: Seq<&str>) -> Seq<Seq<char>> {
    tokens.map_values(|t: &str| t@)
}

/// Split `s` on each single space character, returning the pieces.
fn tokenize<'a>(s: &'a str) -> (tokens: Vec<&'a str>)
    ensures
        views_of(tokens@) == split_sp(s@),
{
    let n = s.unicode_len();
    let mut tokens: Vec<&str> = Vec::new();
    let mut start: usize = 0;
    let mut i: usize = 0;
    proof {
        lemma_split_sp_len(s@);
        assert(s@.subrange(0, n as int) =~= s@);
        assert(s@.subrange(0, 0) =~= Seq::<char>::empty());
        let sp = split_sp(s@);
        assert(views_of(tokens@) + seq![s@.subrange(0, 0) + sp[0]] + sp.subrange(
            1,
            sp.len() as int,
        ) =~~= sp);
    }
    while i < n
        invariant
            start <= i <= n,
            n as nat == s@.len(),
            split_sp(s@) == views_of(tokens@) + seq![
                s@.subrange(start as int, i as int) + split_sp(
                    s@.subrange(i as int, n as int),
                )[0],
            ] + split_sp(s@.subrange(i as int, n as int)).subrange(
                1,
                split_sp(s@.subrange(i as int, n as int)).len() as int,
            ),
        decreases n - i,
    {
        let ghost suf = s@.subrange(i as int, n as int);
        let ghost nxt = s@.subrange(i + 1, n as int);
        proof {
            lemma_split_sp_len(nxt);
            assert(suf.len() > 0);
            assert(suf[0] == s@[i as int]);
            assert(suf.subrange(1, suf.len() as int) =~= nxt);
        }
        let c = s.get_char(i);
        if c == ' ' {
            let tok = s.substring_char(start, i);
            proof {
                let r = split_sp(nxt);
                // the current piece is closed by this space
                assert(split_sp(suf) =~~= seq![Seq::<char>::empty()] + r);
                assert(split_sp(suf)[0] =~= Seq::<char>::empty());
                assert(s@.subrange(start as int, i as int) + Seq::<char>::empty() =~= s@.subrange(
                    start as int,
                    i as int,
                ));
                assert(views_of(tokens@.push(tok)) =~~= views_of(tokens@) + seq![
                    s@.subrange(start as int, i as int),
                ]);
                assert(split_sp(suf).subrange(1, split_sp(suf).len() as int) =~~= r);
                assert(r =~~= seq![r[0]] + r.subrange(1, r.len() as int));
                assert(s@.subrange(i + 1, i + 1) =~= Seq::<char>::empty());
                assert(views_of(tokens@) + seq![s@.subrange(start as int, i as int)] + seq![
                    Seq::<char>::empty() + r[0],
                ] + r.subrange(1, r.len() as int) =~~= views_of(tokens@) + seq![
                    s@.subrange(start as int, i as int) + split_sp(suf)[0],
                ] + split_sp(suf).subrange(1, split_sp(suf).len() as int));
            }
            tokens.push(tok);
            start = i + 1;
        } else {
            proof {
                let r = split_sp(nxt);
                assert(split_sp(suf) =~~= seq![seq![s@[i as int]] + r[0]] + r.subrange(
                    1,
                    r.len() as int,
                ));
                assert(s@.subrange(start as int, i + 1) =~= s@.subrange(start as int, i as int)
                    + seq![s@[i as int]]);
                assert(s@.subrange(start as int, i + 1) + r[0] =~= s@.subrange(
                    start as int,
                    i as int,
                ) + (seq![s@[i as int]] + r[0]));
                assert(split_sp(suf).subrange(1, split_sp(suf).len() as int) =~~= r.subrange(
                    1,
                    r.len() as int,
                ));
            }
        }
        i = i + 1;
    }
    let tok = s.substring_char(start, n);
    proof {
        let suf = s@.subrange(n as int, n as int);
        assert(suf =~= Seq::<char>::empty());
        assert(split_sp(suf) =~~= seq![Seq::<char>::empty()]);
        assert(split_sp(suf).subrange(1, split_sp(suf).len() as int) =~~= Seq::<Seq<char>>::empty());
        assert(s@.subrange(start as int, n as int) + Seq::<char>::empty() =~= s@.subrange(
            start as int,
            n as int,
        ));
        assert(views_of(tokens@.push(tok)) =~~= views_of(tokens@) + seq![
            s@.subrange(start as int, n as int),
        ]);
        assert(views_of(tokens@) + seq![s@.subrange(start as int, n as int)] =~~= split_sp(s@));
    }
    tokens.push(tok);
    tokens
}

/// Parse a hand string: five space-separated card tokens. On success the
/// hand holds the denoted cards, their category and their tie-break key;
/// otherwise the owed error is returned and identifies the offence.
pub fn parse_hand<'a>(hand_str: &'a str) -> (r: Result<Hand<'a>, ParseError>)
    ensures
        match r {
            Ok(h) => {
                &&& hand_ok(hand_str@)
                &&& h.wf()
                &&& h.input_string@ == hand_str@
            },
            Err(e) => {
                &&& !hand_ok(hand_str@)
                &&& matches_hand_error(e, hand_str@)
            },
        },
{
    let tokens = tokenize(hand_str);
    let ghost sp = split_sp(hand_str@);
    proof {
        assert(tokens@.len() == sp.len());
    }
    if tokens.len() != 5 {
        return Err(ParseError::MalformedHand);
    }
    let mut cards: Vec<Card> = Vec::new();
    let mut i: usize = 0;
    while i < 5
        invariant
            i <= 5,
            tokens@.len() == 5,
            sp == split_sp(hand_str@),
            views_of(tokens@) == sp,
            cards@.len() == i,
            forall|j: int| 0 <= j < i ==> card_of_token(#[trigger] sp[j]) == Some(cards@[j]),
        decreases 5 - i,
    {
        proof {
            assert(views_of(tokens@)[i as int] == tokens@[i as int]@);
        }
        match parse_card(tokens[i]) {
            Ok(c) => {
                cards.push(c);
            },
            Err(e) => {
                proof {
                    lemma_first_bad_token(sp, i as int);
                }
                return Err(e);
            },
        }
        i = i + 1;
    }
    proof {
        assert forall|j: int| 0 <= j < 5 implies card_of_token(#[trigger] sp[j]) is Some by {
            assert(card_of_token(sp[j]) == Some(cards@[j]));
        }
        assert(cards@ =~= hand_cards(hand_str@));
        assert forall|j: int| 0 <= j < cards@.len() implies valid_card(
            #[trigger] cards@[j],
        ) by {
            lemma_card_of_token_valid(sp[j]);
        }
    }
    let profile = profile_hand(&cards);
    let r = determine_hand_type(profile, &cards);
    let tie_breaker = r.0;
    let hand_type = r.1;
    Ok(Hand { cards, hand_type, tie_breaker, input_string: hand_str })
}

} // verus!
