//! Ordering of classified hands and selection of the winning ones.

use vstd::prelude::*;

use crate::card::ParseError;
use crate::classify::HandType;
use crate::classify::category_of;
use crate::classify::hand_type_strength;
use crate::classify::is_flush_cards;
use crate::classify::ranks_of;
use crate::classify::strength;
use crate::classify::tie_breaker_of;
use crate::parse::Hand;
use crate::parse::hand_cards;
use crate::parse::hand_ok;
use crate::parse::matches_hand_error;
use crate::parse::parse_hand;
use crate::ranks::sort_ranks;

verus! {

/// Lexicographic order on tie-break keys: the first differing entry
/// decides; a key that runs out first ranks no higher.
pub open spec fn lex_le(a: Seq<u8>, b: Seq<u8>) -> bool
    decreases a.len(),
{
    if a.len() == 0 {
        true
    } else if b.len() == 0 {
        false
    } else if a[0] < b[0] {
        true
    } else if a[0] > b[0] {
        false
    } else {
        lex_le(a.subrange(1, a.len() as int), b.subrange(1, b.len() as int))
    }
}

/// The ranking key of a well-formed hand string: its category and its
/// tie-break key.
pub open spec fn key_of(s: Seq<char>) -> (HandType, Seq<u8>) {
    let cs = hand_cards(s);
    (
        category_of(sort_ranks(ranks_of(cs)), is_flush_cards(cs)),
        tie_breaker_of(sort_ranks(ranks_of(cs)), is_flush_cards(cs)),
    )
}

/// `a` ranks no higher than `b`: a weaker category, or the same category
/// and a lexicographically no-larger tie-break key.
pub open spec fn key_le(a: (HandType, Seq<u8>), b: (HandType, Seq<u8>)) -> bool {
    strength(a.0) < strength(b.0) || (a.0 == b.0 && lex_le(a.1, b.1))
}

/// Every hand string in the list is well formed.
pub open spec fn all_ok(hs: Seq<&str>) -> bool {
    forall|i: int| 0 <= i < hs.len() ==> hand_ok(#[trigger] hs[i]@)
}

/// The greatest ranking key among the hands (meaningful for a non-empty
/// list of well-formed hands).
pub open spec fn best_key(hs: Seq<&str>) -> (HandType, Seq<u8>)
    recommends
        hs.len() >= 1,
    decreases hs.len(),
{
    if hs.len() <= 1 {
        key_of(hs[0]@)
    } else {
        let rest = best_key(hs.drop_last());
        let k = key_of(hs.last()@);
        if key_le(k, rest) {
            rest
        } else {
            k
        }
    }
}

/// The hands whose ranking key equals the best key, in input order.
pub open spec fn winners_of(hs: Seq<&str>) -> Seq<&str> {
    hs.filter(|h: &str| key_of(h@) == best_key(hs))
}

/// The position of the first hand string that is not well formed.
pub open spec fn first_bad_hand_idx(hs: Seq<&str>) -> int
    decreases hs.len(),
{
    if hs.len() == 0 {
        0
    } else if !hand_ok(hs[0]@) {
        0
    } else {
        1 + first_bad_hand_idx(hs.subrange(1, hs.len() as int))
    }
}

pub proof fn lemma_first_bad_hand(hs: Seq<&str>, i: int)
    requires
        0 <= i < hs.len(),
        forall|j: int| 0 <= j < i ==> hand_ok(#[trigger] hs[j]@),
        !hand_ok(hs[i]@),
    ensures
        first_bad_hand_idx(hs) == i,
    decreases i,
{
    if i > 0 {
        let tail = hs.subrange(1, hs.len() as int);
        assert forall|j: int| 0 <= j < i - 1 implies hand_ok(#[trigger] tail[j]@) by {
            assert(tail[j] == hs[j + 1]);
        }
        assert(tail[i - 1] == hs[i]);
        lemma_first_bad_hand(tail, i - 1);
    }
}

/// The best key is the key of some hand in the list.
pub proof fn lemma_best_key_witness(hs: Seq<&str>)
    requires
        hs.len() > 0,
    ensures
        exists|i: int| 0 <= i < hs.len() && key_of(#[trigger] hs[i]@) == best_key(hs),
    decreases hs.len(),
{
    if hs.len() > 1 {
        let rest = best_key(hs.drop_last());
        let k = key_of(hs.last()@);
        if key_le(k, rest) {
            lemma_best_key_witness(hs.drop_last());
            let i = choose|i: int|
                0 <= i < hs.drop_last().len() && key_of(#[trigger] hs.drop_last()[i]@)
                    == best_key(hs.drop_last());
            assert(hs[i] == hs.drop_last()[i]);
            assert(key_of(hs[i]@) == best_key(hs));
        } else {
            assert(key_of(hs[hs.len() - 1]@) == best_key(hs));
        }
    } else {
        assert(key_of(hs[0]@) == best_key(hs));
    }
}

/// A non-empty list of hands always has at least one winner.
pub proof fn lemma_winners_nonempty(hs: Seq<&str>)
    requires
        hs.len() > 0,
    ensures
        winners_of(hs).len() > 0,
{
    lemma_best_key_witness(hs);
    let i = choose|i: int| 0 <= i < hs.len() && key_of(#[trigger] hs[i]@) == best_key(hs);
    Seq::lemma_filter_contains(hs, |h: &str| key_of(h@) == best_key(hs), i);
    let w = winners_of(hs);
    assert(w.contains(hs[i]));
    let j = choose|j: int| 0 <= j < w.len() && w[j] == hs[i];
}

/// Category ordering dominates: a hand of a stronger category beats any
/// hand of a weaker category, whatever the tie-break keys hold.
pub proof fn lemma_category_dominates(a: (HandType, Seq<u8>), b: (HandType, Seq<u8>))
    requires
        strength(a.0) > strength(b.0),
    ensures
        !key_le(a, b),
        key_le(b, a),
{
}

/// The tie-break order is total.
pub proof fn lemma_lex_le_total(a: Seq<u8>, b: Seq<u8>)
    ensures
        lex_le(a, b) || lex_le(b, a),
    decreases a.len(),
{
    if a.len() > 0 && b.len() > 0 && a[0] == b[0] {
        lemma_lex_le_total(
            a.subrange(1, a.len() as int),
            b.subrange(1, b.len() as int),
        );
    }
}

/// The ranking order is total: any two keys are comparable.
pub proof fn lemma_key_le_total(a: (HandType, Seq<u8>), b: (HandType, Seq<u8>))
    ensures
        key_le(a, b) || key_le(b, a),
{
    lemma_lex_le_total(a.1, b.1);
}

pub proof fn lemma_lex_le_antisym(a: Seq<u8>, b: Seq<u8>)
    requires
        lex_le(a, b),
        lex_le(b, a),
    ensures
        a == b,
    decreases a.len(),
{
    if a.len() == 0 {
        assert(a =~= b);
    } else {
        let at = a.subrange(1, a.len() as int);
        let bt = b.subrange(1, b.len() as int);
        lemma_lex_le_antisym(at, bt);
        assert forall|i: int| 0 <= i < a.len() implies a[i] == b[i] by {
            if i > 0 {
                assert(at[i - 1] == bt[i - 1]);
            }
        }
        assert(a =~= b);
    }
}

/// Keys that rank no higher than each other are equal: together with
/// totality and transitivity, the ranking is a total order on keys.
pub proof fn lemma_key_le_antisym(a: (HandType, Seq<u8>), b: (HandType, Seq<u8>))
    requires
        key_le(a, b),
        key_le(b, a),
    ensures
        a == b,
{
    lemma_lex_le_antisym(a.1, b.1);
}

pub proof fn lemma_lex_le_trans(a: Seq<u8>, b: Seq<u8>, c: Seq<u8>)
    requires
        lex_le(a, b),
        lex_le(b, c),
    ensures
        lex_le(a, c),
    decreases a.len(),
{
    if a.len() > 0 && b.len() > 0 && c.len() > 0 && a[0] == b[0] && b[0] == c[0] {
        lemma_lex_le_trans(
            a.subrange(1, a.len() as int),
            b.subrange(1, b.len() as int),
            c.subrange(1, c.len() as int),
        );
    }
}

/// The ranking order is transitive.
pub proof fn lemma_key_le_trans(
    a: (HandType, Seq<u8>),
    b: (HandType, Seq<u8>),
    c: (HandType, Seq<u8>),
)
    requires
        key_le(a, b),
        key_le(b, c),
    ensures
        key_le(a, c),
{
    if a.0 == b.0 && b.0 == c.0 {
        lemma_lex_le_trans(a.1, b.1, c.1);
    }
}

pub proof fn lemma_lex_le_refl(a: Seq<u8>)
    ensures
        lex_le(a, a),
    decreases a.len(),
{
    if a.len() > 0 {
        lemma_lex_le_refl(a.subrange(1, a.len() as int));
    }
}

/// The ranking order is reflexive.
pub proof fn lemma_key_le_refl(a: (HandType, Seq<u8>))
    ensures
        key_le(a, a),
{
    lemma_lex_le_refl(a.1);
}

/// The best key is an upper bound: no hand in the list ranks above it.
pub proof fn lemma_best_key_upper(hs: Seq<&str>, i: int)
    requires
        0 <= i < hs.len(),
    ensures
        key_le(key_of(hs[i]@), best_key(hs)),
    decreases hs.len(),
{
    let k = key_of(hs.last()@);
    if hs.len() == 1 {
        lemma_key_le_refl(key_of(hs[0]@));
    } else {
        let rest = best_key(hs.drop_last());
        if i == hs.len() - 1 {
            if !key_le(k, rest) {
                lemma_key_le_refl(k);
            }
        } else {
            assert(hs.drop_last()[i] == hs[i]);
            lemma_best_key_upper(hs.drop_last(), i);
            if !key_le(k, rest) {
                lemma_key_le_total(k, rest);
                lemma_key_le_trans(key_of(hs[i]@), rest, k);
            }
        }
    }
}

/// Classification is deterministic: hands parsed from equal text carry
/// equal categories and equal tie-break keys.
pub proof fn lemma_classification_deterministic<'a, 'b>(h1: Hand<'a>, h2: Hand<'b>)
    requires
        h1.wf(),
        h2.wf(),
        h1.input_string@ == h2.input_string@,
    ensures
        h1.hand_type == h2.hand_type,
        h1.tie_breaker@ == h2.tie_breaker@,
{
}

fn lex_le_exec(a: &Vec<u8>, b: &Vec<u8>) -> (r: bool)
    ensures
        r == lex_le(a@, b@),
{
    let mut i: usize = 0;
    proof {
        assert(a@.subrange(0, a@.len() as int) =~= a@);
        assert(b@.subrange(0, b@.len() as int) =~= b@);
    }
    while i < a.len() && i < b.len()
        invariant
            i <= a@.len(),
            i <= b@.len(),
            lex_le(a@, b@) == lex_le(
                a@.subrange(i as int, a@.len() as int),
                b@.subrange(i as int, b@.len() as int),
            ),
        decreases a@.len() - i,
    {
        let ghost sa = a@.subrange(i as int, a@.len() as int);
        let ghost sb = b@.subrange(i as int, b@.len() as int);
        proof {
            assert(sa[0] == a@[i as int]);
            assert(sb[0] == b@[i as int]);
            assert(sa.subrange(1, sa.len() as int) =~= a@.subrange(i + 1, a@.len() as int));
            assert(sb.subrange(1, sb.len() as int) =~= b@.subrange(i + 1, b@.len() as int));
        }
        if a[i] < b[i] {
            return true;
        }
        if a[i] > b[i] {
            return false;
        }
        i = i + 1;
    }
    i == a.len()
}

fn vec_eq(a: &Vec<u8>, b: &Vec<u8>) -> (r: bool)
    ensures
        r == (a@ == b@),
{
    if a.len() != b.len() {
        return false;
    }
    let mut i: usize = 0;
    while i < a.len()
        invariant
            i <= a@.len(),
            a@.len() == b@.len(),
            forall|j: int| 0 <= j < i ==> a@[j] == b@[j],
        decreases a@.len() - i,
    {
        if a[i] != b[i] {
            return false;
        }
        i = i + 1;
    }
    proof {
        assert(a@ =~= b@);
    }
    true
}

/// Does `a` rank no higher than `b`?
fn hand_le(a: &Hand, b: &Hand) -> (r: bool)
    ensures
        r == key_le((a.hand_type, a.tie_breaker@), (b.hand_type, b.tie_breaker@)),
{
    let sa = hand_type_strength(a.hand_type);
    let sb = hand_type_strength(b.hand_type);
    if sa < sb {
        true
    } else if sa > sb {
        false
    } else {
        proof {
            assert(a.hand_type == b.hand_type);
        }
        lex_le_exec(&a.tie_breaker, &b.tie_breaker)
    }
}

/// Given a list of poker hands, return a list of those hands which win.
///
/// The returned entries are the very references that were passed in, in
/// their original relative order; `Ok(None)` is returned exactly for an
/// empty input, and a malformed hand fails the whole call with the owed
/// error.
pub fn winning_hands<'a>(hands: &[&'a str]) -> (r: Result<Option<Vec<&'a str>>, ParseError>)
    ensures
        match r {
            Ok(opt) => {
                &&& all_ok(hands@)
                &&& match opt {
                    None => hands@.len() == 0,
                    Some(ws) => hands@.len() > 0 && ws@ == winners_of(hands@) && ws@.len()
                        > 0,
                }
            },
            Err(e) => {
                &&& !all_ok(hands@)
                &&& matches_hand_error(e, hands@[first_bad_hand_idx(hands@)]@)
            },
        },
{
    let mut parsed: Vec<Hand<'a>> = Vec::new();
    let mut i: usize = 0;
    while i < hands.len()
        invariant
            i <= hands@.len(),
            parsed@.len() == i,
            forall|j: int|
                0 <= j < i ==> (#[trigger] parsed@[j]).wf() && parsed@[j].input_string@
                    == hands@[j]@,
        decreases hands@.len() - i,
    {
        match parse_hand(hands[i]) {
            Ok(h) => {
                parsed.push(h);
            },
            Err(e) => {
                proof {
                    assert forall|j: int| 0 <= j < i implies hand_ok(
                        #[trigger] hands@[j]@,
                    ) by {
                        assert(parsed@[j].wf());
                    }
                    lemma_first_bad_hand(hands@, i as int);
                    assert(!hand_ok(hands@[i as int]@));
                }
                return Err(e);
            },
        }
        i = i + 1;
    }
    proof {
        assert forall|j: int| 0 <= j < hands@.len() implies hand_ok(#[trigger] hands@[j]@) by {
            assert(parsed@[j].wf());
        }
    }
    if parsed.len() == 0 {
        return Ok(None);
    }

    let mut best: usize = 0;
    let mut i: usize = 1;
    proof {
        assert(hands@.subrange(0, 1) =~= seq![hands@[0]]);
        assert(parsed@[0].wf());
        assert(best_key(hands@.subrange(0, 1)) == key_of(hands@[0]@));
    }
    while i < parsed.len()
        invariant
            1 <= i <= parsed@.len(),
            best < i,
            parsed@.len() == hands@.len(),
            forall|j: int|
                0 <= j < parsed@.len() ==> (#[trigger] parsed@[j]).wf()
                    && parsed@[j].input_string@ == hands@[j]@,
            (parsed@[best as int].hand_type, parsed@[best as int].tie_breaker@) == best_key(
                hands@.subrange(0, i as int),
            ),
        decreases parsed@.len() - i,
    {
        proof {
            assert(hands@.subrange(0, i + 1).drop_last() =~= hands@.subrange(0, i as int));
            assert(hands@.subrange(0, i + 1).last() == hands@[i as int]);
            assert(parsed@[i as int].wf());
        }
        if !hand_le(&parsed[i], &parsed[best]) {
            best = i;
        }
        i = i + 1;
    }
    proof {
        assert(hands@.subrange(0, hands@.len() as int) =~= hands@);
    }

    let mut winners: Vec<&'a str> = Vec::new();
    let mut i: usize = 0;
    proof {
        reveal(Seq::filter);
        assert(hands@.subrange(0, 0) =~= Seq::<&str>::empty());
    }
    while i < parsed.len()
        invariant
            i <= parsed@.len(),
            best < parsed@.len(),
            parsed@.len() == hands@.len(),
            forall|j: int|
                0 <= j < parsed@.len() ==> (#[trigger] parsed@[j]).wf()
                    && parsed@[j].input_string@ == hands@[j]@,
            (parsed@[best as int].hand_type, parsed@[best as int].tie_breaker@) == best_key(
                hands@,
            ),
            winners@ == hands@.subrange(0, i as int).filter(
                |h: &str| key_of(h@) == best_key(hands@),
            ),
        decreases parsed@.len() - i,
    {
        let same_type = parsed[i].hand_type == parsed[best].hand_type;
        let eq = same_type && vec_eq(&parsed[i].tie_breaker, &parsed[best].tie_breaker);
        proof {
            reveal(Seq::filter);
            assert(parsed@[i as int].wf());
            assert(hands@.subrange(0, i + 1).drop_last() =~= hands@.subrange(0, i as int));
            assert(hands@.subrange(0, i + 1).last() == hands@[i as int]);
            assert(eq == (key_of(hands@[i as int]@) == best_key(hands@)));
        }
        if eq {
            winners.push(hands[i]);
        }
        i = i + 1;
    }
    proof {
        assert(hands@.subrange(0, hands@.len() as int) =~= hands@);
        lemma_winners_nonempty(hands@);
    }
    Ok(Some(winners))
}

} // verus!
