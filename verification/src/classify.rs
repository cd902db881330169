//! Hand profiling and classification: the nine ordered categories and the
//! tie-break key of a five-card hand.

use vstd::prelude::*;

use crate::card::Card;
use crate::card::Suit;
use crate::ranks::cnt;
use crate::ranks::count_rank;
use crate::ranks::has_kind;
use crate::ranks::lemma_has_kind_iff;
use crate::ranks::lemma_rwcd_elems;
use crate::ranks::lemma_sort_ranks_props;
use crate::ranks::lemma_two_pairs_iff;
use crate::ranks::ranks_with_count;
use crate::ranks::ranks_with_count_desc;
use crate::ranks::sort_ranks;
use crate::ranks::sorted_asc;
use crate::ranks::sorted_ranks;
use crate::ranks::two_distinct_pairs;

verus! {

/// The nine hand categories, weakest first. A later variant beats any
/// earlier one regardless of tie-break values.
#[derive(Clone, Copy, PartialEq, Eq, Structural, Debug)]
pub enum HandType {
    HighCard,
    OnePair,
    TwoPair,
    ThreeOfAKind,
    Straight,
    Flush,
    FullHouse,
    FourOfAKind,
    StraightFlush,
}

/// The position of a category in the strength order, weakest at 0.
pub open spec fn strength(t: HandType) -> int {
    match t {
        HandType::HighCard => 0,
        HandType::OnePair => 1,
        HandType::TwoPair => 2,
        HandType::ThreeOfAKind => 3,
        HandType::Straight => 4,
        HandType::Flush => 5,
        HandType::FullHouse => 6,
        HandType::FourOfAKind => 7,
        HandType::StraightFlush => 8,
    }
}

pub fn hand_type_strength(t: HandType) -> (s: u8)
    ensures
        s as int == strength(t),
{
    match t {
        HandType::HighCard => 0,
        HandType::OnePair => 1,
        HandType::TwoPair => 2,
        HandType::ThreeOfAKind => 3,
        HandType::Straight => 4,
        HandType::Flush => 5,
        HandType::FullHouse => 6,
        HandType::FourOfAKind => 7,
        HandType::StraightFlush => 8,
    }
}

/// The rank values of a hand, in card order.
pub open spec fn ranks_of(cs: Seq<Card>) -> Seq<u8> {
    cs.map_values(|c: Card| c.value)
}

/// All cards share one suit.
pub open spec fn is_flush_cards(cs: Seq<Card>) -> bool {
    forall|i: int| 0 <= i < cs.len() ==> (#[trigger] cs[i].suit) == cs[0].suit
}

/// The wheel: the ascending ranks 2, 3, 4, 5, Ace, in which the ace plays
/// low and the straight counts as five-high.
pub open spec fn is_wheel(rs: Seq<u8>) -> bool {
    rs.len() == 5 && rs[0] == 2 && rs[1] == 3 && rs[2] == 4 && rs[3] == 5 && rs[4] == 14
}

/// Five ascending ranks form a straight: consecutive values, or the wheel.
pub open spec fn is_straight_ranks(rs: Seq<u8>) -> bool {
    rs.len() == 5 && (is_wheel(rs) || (forall|i: int| 0 <= i < 4 ==> #[trigger] rs[i + 1] == rs[i]
        + 1))
}

/// The high card of a straight: 5 for the wheel, else the largest rank.
pub open spec fn straight_high(rs: Seq<u8>) -> u8 {
    if is_wheel(rs) {
        5u8
    } else {
        rs[4]
    }
}

/// The category of a hand with ascending sorted ranks `rs` and flush flag
/// `flush`. The first matching rule in strength order applies.
pub open spec fn category_of(rs: Seq<u8>, flush: bool) -> HandType {
    if is_straight_ranks(rs) && flush {
        HandType::StraightFlush
    } else if has_kind(rs, 4) {
        HandType::FourOfAKind
    } else if has_kind(rs, 3) && has_kind(rs, 2) {
        HandType::FullHouse
    } else if flush {
        HandType::Flush
    } else if is_straight_ranks(rs) {
        HandType::Straight
    } else if has_kind(rs, 3) {
        HandType::ThreeOfAKind
    } else if two_distinct_pairs(rs) {
        HandType::TwoPair
    } else if has_kind(rs, 2) {
        HandType::OnePair
    } else {
        HandType::HighCard
    }
}

/// The tie-break key of a hand: the category-defining ranks followed by
/// the kicker ranks, all most-significant first.
pub open spec fn tie_breaker_of(rs: Seq<u8>, flush: bool) -> Seq<u8> {
    let cat = category_of(rs, flush);
    if cat == HandType::StraightFlush || cat == HandType::Straight {
        seq![straight_high(rs)]
    } else if cat == HandType::Flush || cat == HandType::HighCard {
        rs.reverse()
    } else if cat == HandType::FourOfAKind {
        ranks_with_count_desc(rs, rs, 4) + ranks_with_count_desc(rs, rs, 1)
    } else if cat == HandType::FullHouse {
        ranks_with_count_desc(rs, rs, 3) + ranks_with_count_desc(rs, rs, 2)
    } else if cat == HandType::ThreeOfAKind {
        ranks_with_count_desc(rs, rs, 3) + ranks_with_count_desc(rs, rs, 1)
    } else {
        // TwoPair and OnePair: the pair ranks descending, then the kickers
        ranks_with_count_desc(rs, rs, 2) + ranks_with_count_desc(rs, rs, 1)
    }
}

/// The signals classification reads off a hand: the sorted rank values
/// (the rank-count of any rank can be read from them), the distinct suits
/// present, and whether the ranks form a straight.
pub struct HandProfile {
    pub sorted_ranks: Vec<u8>,
    pub suits: Vec<Suit>,
    pub is_straight: bool,
}

impl HandProfile {
    /// This profile describes the hand `cards`.
    pub open spec fn wf_for(self, cards: Seq<Card>) -> bool {
        &&& self.sorted_ranks@ == sort_ranks(ranks_of(cards))
        &&& (forall|i: int|
            0 <= i < self.suits@.len() ==> exists|j: int|
                0 <= j < cards.len() && (#[trigger] cards[j].suit) == #[trigger] self.suits@[i])
        &&& (forall|j: int| 0 <= j < cards.len() ==> self.suits@.contains(cards[j].suit))
        &&& (forall|i: int, k: int|
            0 <= i < k < self.suits@.len() ==> self.suits@[i] != self.suits@[k])
        &&& self.is_straight == is_straight_ranks(sort_ranks(ranks_of(cards)))
    }
}

/// A well-formed profile has one suit exactly when the hand is a flush.
proof fn lemma_suits_flush(p: HandProfile, cards: Seq<Card>)
    requires
        p.wf_for(cards),
        cards.len() > 0,
    ensures
        p.suits@.len() == 1 <==> is_flush_cards(cards),
{
    let suits = p.suits@;
    if suits.len() == 1 {
        assert forall|i: int| 0 <= i < cards.len() implies (#[trigger] cards[i].suit)
            == cards[0].suit by {
            assert(suits.contains(cards[i].suit));
            assert(suits.contains(cards[0].suit));
        }
    }
    if is_flush_cards(cards) {
        assert(suits.contains(cards[0].suit));
        assert(suits.len() >= 1);
        if suits.len() > 1 {
            let j0 = choose|j: int| 0 <= j < cards.len() && cards[j].suit == suits[0];
            let j1 = choose|j: int| 0 <= j < cards.len() && cards[j].suit == suits[1];
            assert(suits[0] == cards[0].suit && suits[1] == cards[0].suit);
        }
    }
}

/// Scan a five-card hand and extract the signals classification needs.
pub fn profile_hand(cards: &Vec<Card>) -> (p: HandProfile)
    requires
        cards@.len() == 5,
    ensures
        p.wf_for(cards@),
{
    let mut ranks: Vec<u8> = Vec::new();
    let mut i: usize = 0;
    while i < cards.len()
        invariant
            i <= cards@.len(),
            ranks@.len() == i,
            forall|j: int| 0 <= j < i ==> ranks@[j] == cards@[j].value,
        decreases cards@.len() - i,
    {
        ranks.push(cards[i].value);
        i = i + 1;
    }
    proof {
        assert(ranks@ =~= ranks_of(cards@));
    }
    let srs = sorted_ranks(&ranks);
    proof {
        lemma_sort_ranks_props(ranks@);
    }

    let mut suits: Vec<Suit> = Vec::new();
    let mut i: usize = 0;
    while i < cards.len()
        invariant
            i <= cards@.len(),
            forall|k: int|
                0 <= k < suits@.len() ==> exists|j: int|
                    0 <= j < cards@.len() && (#[trigger] cards@[j].suit) == #[trigger] suits@[k],
            forall|j: int| 0 <= j < i ==> suits@.contains(cards@[j].suit),
            forall|k: int, l: int| 0 <= k < l < suits@.len() ==> suits@[k] != suits@[l],
        decreases cards@.len() - i,
    {
        let s = cards[i].suit;
        let mut present = false;
        let mut j: usize = 0;
        while j < suits.len()
            invariant
                j <= suits@.len(),
                present == exists|k: int| 0 <= k < j && suits@[k] == s,
            decreases suits@.len() - j,
        {
            if suits[j] == s {
                present = true;
            }
            j = j + 1;
        }
        if !present {
            let ghost old_suits = suits@;
            suits.push(s);
            proof {
                assert forall|j: int| 0 <= j <= i implies suits@.contains(
                    cards@[j].suit,
                ) by {
                    if j < i {
                        let k = choose|k: int|
                            0 <= k < old_suits.len() && old_suits[k] == cards@[j].suit;
                        assert(suits@[k] == cards@[j].suit);
                    } else {
                        assert(suits@[suits@.len() - 1] == cards@[j].suit);
                    }
                }
            }
        } else {
            proof {
                let k = choose|k: int| 0 <= k < suits@.len() && suits@[k] == s;
                assert(suits@[k] == cards@[i as int].suit);
            }
        }
        i = i + 1;
    }

    let wheel = srs[0] == 2 && srs[1] == 3 && srs[2] == 4 && srs[3] == 5 && srs[4] == 14;
    let run = srs[1] as u16 == srs[0] as u16 + 1 && srs[2] as u16 == srs[1] as u16 + 1
        && srs[3] as u16 == srs[2] as u16 + 1 && srs[4] as u16 == srs[3] as u16 + 1;
    proof {
        assert(wheel == is_wheel(srs@));
        if run {
            assert(forall|k: int| 0 <= k < 4 ==> #[trigger] srs@[k + 1] == srs@[k] + 1);
        }
        if !wheel && is_straight_ranks(srs@) {
            assert(srs@[0int + 1] == srs@[0int] + 1);
            assert(srs@[1int + 1] == srs@[1int] + 1);
            assert(srs@[2int + 1] == srs@[2int] + 1);
            assert(srs@[3int + 1] == srs@[3int] + 1);
        }
        assert((wheel || run) == is_straight_ranks(srs@));
    }
    HandProfile { sorted_ranks: srs, suits, is_straight: wheel || run }
}

/// Append `group` then `kickers` to the tie-break key: the shared shape of
/// the of-a-kind, full-house and two-pair keys.
pub fn of_a_kind_tie_breaker(group: &Vec<u8>, kickers: &Vec<u8>, tie_breaker: &mut Vec<u8>)
    ensures
        final(tie_breaker)@ == old(tie_breaker)@ + group@ + kickers@,
{
    let mut i: usize = 0;
    while i < group.len()
        invariant
            i <= group@.len(),
            tie_breaker@ == old(tie_breaker)@ + group@.subrange(0, i as int),
        decreases group@.len() - i,
    {
        proof {
            assert(old(tie_breaker)@ + group@.subrange(0, i + 1) =~= (old(tie_breaker)@
                + group@.subrange(0, i as int)).push(group@[i as int]));
        }
        tie_breaker.push(group[i]);
        i = i + 1;
    }
    proof {
        assert(group@.subrange(0, group@.len() as int) =~= group@);
    }
    let mut i: usize = 0;
    while i < kickers.len()
        invariant
            i <= kickers@.len(),
            tie_breaker@ == old(tie_breaker)@ + group@ + kickers@.subrange(0, i as int),
        decreases kickers@.len() - i,
    {
        proof {
            assert(old(tie_breaker)@ + group@ + kickers@.subrange(0, i + 1) =~= (old(
                tie_breaker,
            )@ + group@ + kickers@.subrange(0, i as int)).push(kickers@[i as int]));
        }
        tie_breaker.push(kickers[i]);
        i = i + 1;
    }
    proof {
        assert(kickers@.subrange(0, kickers@.len() as int) =~= kickers@);
    }
}

/// Append the straight's high card: 5 for the wheel, else the top rank.
pub fn straight_tie_breaker(srs: &Vec<u8>, tie_breaker: &mut Vec<u8>)
    requires
        srs@.len() == 5,
    ensures
        final(tie_breaker)@ == old(tie_breaker)@ + seq![straight_high(srs@)],
{
    let wheel = srs[0] == 2 && srs[1] == 3 && srs[2] == 4 && srs[3] == 5 && srs[4] == 14;
    proof {
        assert(wheel == is_wheel(srs@));
        assert(old(tie_breaker)@.push(straight_high(srs@)) =~= old(tie_breaker)@ + seq![
            straight_high(srs@),
        ]);
    }
    if wheel {
        tie_breaker.push(5);
    } else {
        tie_breaker.push(srs[4]);
    }
}

/// Append all five ranks, highest first.
fn descending_ranks(srs: &Vec<u8>, tie_breaker: &mut Vec<u8>)
    ensures
        final(tie_breaker)@ == old(tie_breaker)@ + srs@.reverse(),
{
    let mut i: usize = srs.len();
    while i > 0
        invariant
            i <= srs@.len(),
            tie_breaker@ == old(tie_breaker)@ + srs@.reverse().subrange(
                0,
                srs@.len() - i as int,
            ),
        decreases i,
    {
        i = i - 1;
        proof {
            assert(srs@.reverse()[srs@.len() - i - 1] == srs@[i as int]);
            assert(old(tie_breaker)@ + srs@.reverse().subrange(0, srs@.len() - i as int) =~= (old(
                tie_breaker,
            )@ + srs@.reverse().subrange(0, srs@.len() - i - 1)).push(srs@[i as int]));
        }
        tie_breaker.push(srs[i]);
    }
    proof {
        assert(srs@.reverse().subrange(0, srs@.len() as int) =~= srs@.reverse());
    }
}

/// Map a profiled hand to its category and tie-break key, by the first
/// matching rule in strength order.
pub fn determine_hand_type(profile: HandProfile, cards: &Vec<Card>) -> (r: (Vec<u8>, HandType))
    requires
        cards@.len() == 5,
        profile.wf_for(cards@),
    ensures
        r.1 == category_of(sort_ranks(ranks_of(cards@)), is_flush_cards(cards@)),
        r.0@ == tie_breaker_of(sort_ranks(ranks_of(cards@)), is_flush_cards(cards@)),
{
    let srs = profile.sorted_ranks;
    let flush = profile.suits.len() == 1;
    let straight = profile.is_straight;
    let quads = ranks_with_count(&srs, 4);
    let trips = ranks_with_count(&srs, 3);
    let pairs = ranks_with_count(&srs, 2);
    let solos = ranks_with_count(&srs, 1);
    proof {
        let rs = sort_ranks(ranks_of(cards@));
        lemma_sort_ranks_props(ranks_of(cards@));
        lemma_suits_flush(profile, cards@);
        lemma_has_kind_iff(rs, 4);
        lemma_has_kind_iff(rs, 3);
        lemma_has_kind_iff(rs, 2);
        lemma_two_pairs_iff(rs);
    }
    let mut tie_breaker: Vec<u8> = Vec::new();
    let hand_type: HandType;
    if straight && flush {
        hand_type = HandType::StraightFlush;
        straight_tie_breaker(&srs, &mut tie_breaker);
    } else if quads.len() > 0 {
        hand_type = HandType::FourOfAKind;
        of_a_kind_tie_breaker(&quads, &solos, &mut tie_breaker);
    } else if trips.len() > 0 && pairs.len() > 0 {
        hand_type = HandType::FullHouse;
        of_a_kind_tie_breaker(&trips, &pairs, &mut tie_breaker);
    } else if flush {
        hand_type = HandType::Flush;
        descending_ranks(&srs, &mut tie_breaker);
    } else if straight {
        hand_type = HandType::Straight;
        straight_tie_breaker(&srs, &mut tie_breaker);
    } else if trips.len() > 0 {
        hand_type = HandType::ThreeOfAKind;
        of_a_kind_tie_breaker(&trips, &solos, &mut tie_breaker);
    } else if pairs.len() >= 2 {
        hand_type = HandType::TwoPair;
        of_a_kind_tie_breaker(&pairs, &solos, &mut tie_breaker);
    } else if pairs.len() > 0 {
        hand_type = HandType::OnePair;
        of_a_kind_tie_breaker(&pairs, &solos, &mut tie_breaker);
    } else {
        hand_type = HandType::HighCard;
        descending_ranks(&srs, &mut tie_breaker);
    }
    proof {
        assert(tie_breaker@ =~= tie_breaker_of(
            sort_ranks(ranks_of(cards@)),
            is_flush_cards(cards@),
        ));
    }
    (tie_breaker, hand_type)
}

} // verus!
