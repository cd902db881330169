//! Arithmetic over a hand's rank values: counting duplicates, sorting,
//! and extracting the ranks that form groups of a given size.

use vstd::prelude::*;

verus! {

/// How many entries of `rs` equal `x`.
pub open spec fn cnt(rs: Seq<u8>, x: u8) -> nat
    decreases rs.len(),
{
    if rs.len() == 0 {
        0
    } else {
        (if rs.last() == x {
            1nat
        } else {
            0nat
        }) + cnt(rs.drop_last(), x)
    }
}

pub open spec fn sorted_asc(rs: Seq<u8>) -> bool {
    forall|i: int, j: int| 0 <= i < j < rs.len() ==> rs[i] <= rs[j]
}

/// `x` placed before the first entry of `rs` that is at least `x`.
pub open spec fn insert_sorted(x: u8, rs: Seq<u8>) -> Seq<u8>
    decreases rs.len(),
{
    if rs.len() == 0 {
        seq![x]
    } else if x <= rs[0] {
        seq![x] + rs
    } else {
        seq![rs[0]] + insert_sorted(x, rs.subrange(1, rs.len() as int))
    }
}

/// The ascending reordering of `rs`: each entry inserted in turn.
pub open spec fn sort_ranks(rs: Seq<u8>) -> Seq<u8>
    decreases rs.len(),
{
    if rs.len() == 0 {
        Seq::empty()
    } else {
        insert_sorted(rs[0], sort_ranks(rs.subrange(1, rs.len() as int)))
    }
}

/// The distinct entries of `rs` (ascending) that occur exactly `k` times in
/// `full`, listed in descending order, each once. An entry is picked at its
/// first occurrence, so duplicates contribute one entry.
pub open spec fn ranks_with_count_desc(rs: Seq<u8>, full: Seq<u8>, k: nat) -> Seq<u8>
    decreases rs.len(),
{
    if rs.len() == 0 {
        Seq::empty()
    } else {
        let rest = ranks_with_count_desc(rs.drop_last(), full, k);
        if cnt(full, rs.last()) == k && (rs.len() == 1 || rs[rs.len() - 2] != rs.last()) {
            seq![rs.last()] + rest
        } else {
            rest
        }
    }
}

/// Some rank occurs exactly `k` times in `rs`.
pub open spec fn has_kind(rs: Seq<u8>, k: nat) -> bool {
    exists|x: u8| cnt(rs, x) == k
}

/// A rank occurs in `rs` if and only if its count is positive.
pub proof fn lemma_cnt_pos(rs: Seq<u8>, x: u8)
    ensures
        cnt(rs, x) > 0 <==> exists|i: int| 0 <= i < rs.len() && rs[i] == x,
    decreases rs.len(),
{
    if rs.len() > 0 {
        lemma_cnt_pos(rs.drop_last(), x);
        if rs.last() == x {
            assert(rs[rs.len() - 1] == x);
        } else if cnt(rs, x) > 0 {
            let i = choose|i: int| 0 <= i < rs.drop_last().len() && rs.drop_last()[i] == x;
            assert(rs[i] == x);
        } else if exists|i: int| 0 <= i < rs.len() && rs[i] == x {
            let i = choose|i: int| 0 <= i < rs.len() && rs[i] == x;
            assert(rs.drop_last()[i] == x);
        }
    }
}

pub proof fn lemma_insert_sorted_props(x: u8, rs: Seq<u8>)
    requires
        sorted_asc(rs),
    ensures
        sorted_asc(insert_sorted(x, rs)),
        insert_sorted(x, rs).len() == rs.len() + 1,
    decreases rs.len(),
{
    if rs.len() > 0 && x > rs[0] {
        let tail = rs.subrange(1, rs.len() as int);
        lemma_insert_sorted_props(x, tail);
        let out = seq![rs[0]] + insert_sorted(x, tail);
        assert forall|i: int, j: int| 0 <= i < j < out.len() implies out[i] <= out[j] by {
            if i == 0 {
                let it = insert_sorted(x, tail);
                if it[j - 1] != x {
                    lemma_insert_sorted_members(x, tail, j - 1);
                }
            }
        }
    }
}

/// Every entry of `insert_sorted(x, rs)` other than the inserted `x` comes
/// from `rs`.
pub proof fn lemma_insert_sorted_members(x: u8, rs: Seq<u8>, i: int)
    requires
        0 <= i < insert_sorted(x, rs).len(),
        insert_sorted(x, rs)[i] != x,
    ensures
        exists|j: int| 0 <= j < rs.len() && rs[j] == insert_sorted(x, rs)[i],
    decreases rs.len(),
{
    if rs.len() == 0 {
    } else if x <= rs[0] {
        assert(rs[i - 1] == insert_sorted(x, rs)[i]);
    } else {
        if i == 0 {
            assert(rs[0] == insert_sorted(x, rs)[0]);
        } else {
            let tail = rs.subrange(1, rs.len() as int);
            lemma_insert_sorted_members(x, tail, i - 1);
            let j = choose|j: int|
                0 <= j < tail.len() && tail[j] == insert_sorted(x, tail)[i - 1];
            assert(rs[j + 1] == insert_sorted(x, rs)[i]);
        }
    }
}

pub proof fn lemma_sort_ranks_props(rs: Seq<u8>)
    ensures
        sorted_asc(sort_ranks(rs)),
        sort_ranks(rs).len() == rs.len(),
    decreases rs.len(),
{
    if rs.len() > 0 {
        let tail = rs.subrange(1, rs.len() as int);
        lemma_sort_ranks_props(tail);
        lemma_insert_sorted_props(rs[0], sort_ranks(tail));
    }
}

/// Inserting at the first position whose entry is at least `x` is what
/// `insert_sorted` does.
pub proof fn lemma_insert_sorted_splice(x: u8, rs: Seq<u8>, p: int)
    requires
        0 <= p <= rs.len(),
        forall|j: int| 0 <= j < p ==> rs[j] < x,
        p < rs.len() ==> x <= rs[p],
    ensures
        insert_sorted(x, rs) == rs.insert(p, x),
    decreases rs.len(),
{
    if rs.len() == 0 {
        assert(insert_sorted(x, rs) =~= rs.insert(0, x));
    } else if p == 0 {
        assert(insert_sorted(x, rs) =~= rs.insert(0, x));
    } else {
        let tail = rs.subrange(1, rs.len() as int);
        lemma_insert_sorted_splice(x, tail, p - 1);
        assert(insert_sorted(x, rs) =~= rs.insert(p, x)) by {
            assert(insert_sorted(x, rs) == seq![rs[0]] + tail.insert(p - 1, x));
        }
    }
}

/// Every entry listed by `ranks_with_count_desc` occurs exactly `k` times
/// in `full`.
pub proof fn lemma_rwcd_elems(rs: Seq<u8>, full: Seq<u8>, k: nat)
    ensures
        forall|i: int|
            0 <= i < ranks_with_count_desc(rs, full, k).len() ==> cnt(
                full,
                #[trigger] ranks_with_count_desc(rs, full, k)[i],
            ) == k,
    decreases rs.len(),
{
    if rs.len() > 0 {
        lemma_rwcd_elems(rs.drop_last(), full, k);
        let out = ranks_with_count_desc(rs, full, k);
        let rest = ranks_with_count_desc(rs.drop_last(), full, k);
        if cnt(full, rs.last()) == k && (rs.len() == 1 || rs[rs.len() - 2] != rs.last()) {
            assert forall|i: int| 0 <= i < out.len() implies cnt(full, out[i]) == k by {
                if i > 0 {
                    assert(rest[i - 1] == out[i]);
                }
            }
        }
    }
}

/// On an ascending `rs`, the listing is strictly descending and bounded by
/// the last (largest) entry of `rs`.
pub proof fn lemma_rwcd_desc(rs: Seq<u8>, full: Seq<u8>, k: nat)
    requires
        sorted_asc(rs),
    ensures
        forall|i: int|
            0 <= i < ranks_with_count_desc(rs, full, k).len() ==> rs.len() > 0
                && #[trigger] ranks_with_count_desc(rs, full, k)[i] <= rs[rs.len() - 1],
        forall|i: int, j: int|
            0 <= i < j < ranks_with_count_desc(rs, full, k).len()
                ==> ranks_with_count_desc(rs, full, k)[i] > ranks_with_count_desc(rs, full, k)[j],
    decreases rs.len(),
{
    if rs.len() > 0 {
        let pre = rs.drop_last();
        assert(sorted_asc(pre));
        lemma_rwcd_desc(pre, full, k);
        let out = ranks_with_count_desc(rs, full, k);
        let rest = ranks_with_count_desc(pre, full, k);
        if cnt(full, rs.last()) == k && (rs.len() == 1 || rs[rs.len() - 2] != rs.last()) {
            assert forall|i: int| 0 <= i < out.len() implies rs.len() > 0 && out[i] <= rs[rs.len()
                - 1] by {
                if i > 0 {
                    assert(rest[i - 1] == out[i]);
                    if rs.len() > 1 {
                        assert(rest[i - 1] <= pre[pre.len() - 1]);
                        assert(pre[pre.len() - 1] == rs[rs.len() - 2]);
                        assert(rs[rs.len() - 2] <= rs[rs.len() - 1]);
                    }
                }
            }
            assert forall|i: int, j: int| 0 <= i < j < out.len() implies out[i] > out[j] by {
                if i == 0 {
                    assert(rest[j - 1] == out[j]);
                    assert(rs.len() > 1);
                    assert(rest[j - 1] <= rs[rs.len() - 2]);
                    assert(rs[rs.len() - 2] < rs[rs.len() - 1]);
                } else {
                    assert(rest[i - 1] == out[i]);
                    assert(rest[j - 1] == out[j]);
                }
            }
        }
    }
}

/// Every rank of `rs` that occurs exactly `k` times in `full` is listed.
pub proof fn lemma_rwcd_complete(rs: Seq<u8>, full: Seq<u8>, k: nat, x: u8)
    requires
        cnt(full, x) == k,
        exists|i: int| 0 <= i < rs.len() && rs[i] == x,
    ensures
        ranks_with_count_desc(rs, full, k).contains(x),
    decreases rs.len(),
{
    let out = ranks_with_count_desc(rs, full, k);
    let rest = ranks_with_count_desc(rs.drop_last(), full, k);
    let took = cnt(full, rs.last()) == k && (rs.len() == 1 || rs[rs.len() - 2] != rs.last());
    if rs.last() == x && took {
        assert(out[0] == x);
    } else {
        if rs.last() == x {
            // not taken at the last position: the entry just before it is
            // also `x`, so `x` occurs in the shorter prefix as well
            assert(rs.drop_last()[rs.len() - 2] == x);
        } else {
            let i = choose|i: int| 0 <= i < rs.len() && rs[i] == x;
            assert(rs.drop_last()[i] == x);
        }
        lemma_rwcd_complete(rs.drop_last(), full, k, x);
        let j = choose|j: int| 0 <= j < rest.len() && rest[j] == x;
        if took {
            assert(out[j + 1] == x);
        } else {
            assert(out[j] == x);
        }
    }
}

/// Two distinct ranks each occur exactly twice.
pub open spec fn two_distinct_pairs(rs: Seq<u8>) -> bool {
    exists|x: u8, y: u8| x != y && cnt(rs, x) == 2 && cnt(rs, y) == 2
}

/// Some rank occurs exactly `k` times exactly when the listing of such
/// ranks is non-empty.
pub proof fn lemma_has_kind_iff(rs: Seq<u8>, k: nat)
    requires
        k >= 1,
    ensures
        has_kind(rs, k) <==> ranks_with_count_desc(rs, rs, k).len() >= 1,
{
    if has_kind(rs, k) {
        let x = choose|x: u8| cnt(rs, x) == k;
        lemma_cnt_pos(rs, x);
        lemma_rwcd_complete(rs, rs, k, x);
    }
    if ranks_with_count_desc(rs, rs, k).len() >= 1 {
        lemma_rwcd_elems(rs, rs, k);
        assert(cnt(rs, ranks_with_count_desc(rs, rs, k)[0]) == k);
    }
}

/// Two distinct pairs exist exactly when the listing of pair ranks has at
/// least two entries.
pub proof fn lemma_two_pairs_iff(rs: Seq<u8>)
    requires
        sorted_asc(rs),
    ensures
        two_distinct_pairs(rs) <==> ranks_with_count_desc(rs, rs, 2).len() >= 2,
{
    let pairs = ranks_with_count_desc(rs, rs, 2);
    if two_distinct_pairs(rs) {
        let (x, y) = choose|x: u8, y: u8| x != y && cnt(rs, x) == 2 && cnt(rs, y) == 2;
        lemma_cnt_pos(rs, x);
        lemma_cnt_pos(rs, y);
        lemma_rwcd_complete(rs, rs, 2, x);
        lemma_rwcd_complete(rs, rs, 2, y);
        let ix = choose|i: int| 0 <= i < pairs.len() && pairs[i] == x;
        let iy = choose|i: int| 0 <= i < pairs.len() && pairs[i] == y;
        assert(ix != iy);
    }
    if pairs.len() >= 2 {
        lemma_rwcd_elems(rs, rs, 2);
        lemma_rwcd_desc(rs, rs, 2);
        assert(pairs[0] != pairs[1] && cnt(rs, pairs[0]) == 2 && cnt(rs, pairs[1]) == 2);
    }
}

/// Count how often `x` occurs in `rs`.
pub fn count_rank(rs: &Vec<u8>, x: u8) -> (c: usize)
    ensures
        c as nat == cnt(rs@, x),
{
    let mut c: usize = 0;
    let mut i: usize = 0;
    while i < rs.len()
        invariant
            i <= rs.len(),
            c as nat == cnt(rs@.subrange(0, i as int), x),
            c <= i,
        decreases rs.len() - i,
    {
        proof {
            assert(rs@.subrange(0, i + 1).drop_last() =~= rs@.subrange(0, i as int));
            assert(rs@.subrange(0, i + 1).last() == rs@[i as int]);
        }
        if rs[i] == x {
            c = c + 1;
        }
        i = i + 1;
    }
    proof {
        assert(rs@.subrange(0, rs@.len() as int) =~= rs@);
    }
    c
}

fn insert_rank(v: &mut Vec<u8>, x: u8)
    ensures
        final(v)@ == insert_sorted(x, old(v)@),
{
    let mut p: usize = 0;
    while p < v.len() && v[p] < x
        invariant
            p <= v@.len(),
            v@ == old(v)@,
            forall|j: int| 0 <= j < p ==> v@[j] < x,
        decreases v@.len() - p,
    {
        p = p + 1;
    }
    proof {
        lemma_insert_sorted_splice(x, v@, p as int);
    }
    v.insert(p, x);
}

/// The ascending reordering of `rs`.
pub fn sorted_ranks(rs: &Vec<u8>) -> (out: Vec<u8>)
    ensures
        out@ == sort_ranks(rs@),
{
    let mut out: Vec<u8> = Vec::new();
    let mut i: usize = rs.len();
    while i > 0
        invariant
            i <= rs.len(),
            out@ == sort_ranks(rs@.subrange(i as int, rs@.len() as int)),
        decreases i,
    {
        i = i - 1;
        proof {
            let suf = rs@.subrange(i as int, rs@.len() as int);
            assert(suf[0] == rs@[i as int]);
            assert(suf.subrange(1, suf.len() as int) =~= rs@.subrange(
                i + 1,
                rs@.len() as int,
            ));
        }
        insert_rank(&mut out, rs[i]);
    }
    proof {
        assert(rs@.subrange(0, rs@.len() as int) =~= rs@);
    }
    out
}

/// The distinct ranks that occur exactly `k` times in `rs`, descending.
pub fn ranks_with_count(rs: &Vec<u8>, k: usize) -> (out: Vec<u8>)
    ensures
        out@ == ranks_with_count_desc(rs@, rs@, k as nat),
{
    let mut out: Vec<u8> = Vec::new();
    let mut i: usize = rs.len();
    proof {
        assert(rs@.subrange(0, rs@.len() as int) =~= rs@);
        assert(Seq::<u8>::empty() + ranks_with_count_desc(rs@, rs@, k as nat)
            =~= ranks_with_count_desc(rs@, rs@, k as nat));
    }
    while i > 0
        invariant
            i <= rs.len(),
            ranks_with_count_desc(rs@, rs@, k as nat) == out@ + ranks_with_count_desc(
                rs@.subrange(0, i as int),
                rs@,
                k as nat,
            ),
        decreases i,
    {
        let c = count_rank(rs, rs[i - 1]);
        let took = c == k && (i == 1 || rs[i - 2] != rs[i - 1]);
        proof {
            let pref = rs@.subrange(0, i as int);
            assert(pref.drop_last() =~= rs@.subrange(0, i - 1));
            assert(pref.last() == rs@[i - 1]);
            if i > 1 {
                assert(pref[pref.len() - 2] == rs@[i - 2]);
            }
            if took {
                assert(out@.push(rs@[i - 1]) + ranks_with_count_desc(
                    rs@.subrange(0, i - 1),
                    rs@,
                    k as nat,
                ) =~= out@ + ranks_with_count_desc(pref, rs@, k as nat));
            }
        }
        if took {
            out.push(rs[i - 1]);
        }
        i = i - 1;
    }
    proof {
        assert(ranks_with_count_desc(rs@.subrange(0, 0), rs@, k as nat) =~= Seq::<u8>::empty());
        assert(out@ + Seq::<u8>::empty() =~= out@);
    }
    out
}

} // verus!
