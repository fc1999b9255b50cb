//! Tie-aware dense ranking. Scores are ranked from the highest value down;
//! equal values share a rank, the next distinct value takes the next rank
//! number, and a missing score means the entry is unranked and sorts after
//! every ranked entry.

use crate::decimal::{lemma_val_eq_lt, lemma_val_eq_props, val_eq, val_lt, Decimal};
use vstd::prelude::*;

verus! {

/// Does an earlier entry carry the same score value as entry `j`?
pub open spec fn has_eq_before(s: Seq<Option<Decimal>>, j: int) -> bool {
    exists|i: int|
        0 <= i < j && s[i] is Some && s[j] is Some && val_eq((#[trigger] s[i])->0, s[j]->0)
}

/// Number of distinct score values among the first `n` entries that are
/// strictly greater than `x`: each value is counted at its first occurrence.
pub open spec fn distinct_gt_count(s: Seq<Option<Decimal>>, x: Decimal, n: int) -> int
    decreases n,
{
    if n <= 0 {
        0
    } else {
        distinct_gt_count(s, x, n - 1) + if s[n - 1] is Some && val_lt(x, s[n - 1]->0)
            && !has_eq_before(s, n - 1) {
            1int
        } else {
            0int
        }
    }
}

/// The rank of entry `i`: one more than the number of distinct values above
/// it, or `None` for a missing score.
pub open spec fn spec_rank(s: Seq<Option<Decimal>>, i: int) -> Option<u64> {
    match s[i] {
        Some(x) => Some((1 + distinct_gt_count(s, x, s.len() as int)) as u64),
        None => None,
    }
}

/// The count never exceeds the number of entries inspected.
pub proof fn lemma_count_bound(s: Seq<Option<Decimal>>, x: Decimal, n: int)
    requires
        n >= 0,
    ensures
        0 <= distinct_gt_count(s, x, n) <= n,
    decreases n,
{
    if n > 0 {
        lemma_count_bound(s, x, n - 1);
    }
}

/// Entries with equal score values receive equal counts.
pub proof fn lemma_count_eq(s: Seq<Option<Decimal>>, x: Decimal, y: Decimal, n: int)
    requires
        val_eq(x, y),
    ensures
        distinct_gt_count(s, x, n) == distinct_gt_count(s, y, n),
    decreases n,
{
    if n > 0 {
        lemma_count_eq(s, x, y, n - 1);
        if s[n - 1] is Some {
            lemma_val_eq_lt(x, y, s[n - 1]->0);
        }
    }
}

/// Ties share a rank: two entries whose scores denote the same value are
/// assigned the same rank, and an entry without a score gets none.
pub proof fn lemma_rank_ties(s: Seq<Option<Decimal>>, i: int, j: int)
    requires
        0 <= i < s.len(),
        0 <= j < s.len(),
        s[i] is Some,
        s[j] is Some,
        val_eq(s[i]->0, s[j]->0),
    ensures
        spec_rank(s, i) == spec_rank(s, j),
{
    lemma_count_eq(s, s[i]->0, s[j]->0, s.len() as int);
    lemma_count_bound(s, s[i]->0, s.len() as int);
    lemma_count_bound(s, s[j]->0, s.len() as int);
}

/// Does an earlier entry carry the same score value as `x`?
pub open spec fn class_seen(s: Seq<Option<Decimal>>, x: Decimal, n: int) -> bool {
    exists|j: int| 0 <= j < n && (#[trigger] s[j]) is Some && val_eq(s[j]->0, x)
}

/// A strictly greater score means a strictly smaller (better) rank number.
pub proof fn lemma_count_strict(s: Seq<Option<Decimal>>, x: Decimal, y: Decimal, n: int)
    requires
        val_lt(y, x),
    ensures
        distinct_gt_count(s, x, n) + (if class_seen(s, x, n) {
            1int
        } else {
            0int
        }) <= distinct_gt_count(s, y, n),
    decreases n,
{
    if n > 0 {
        lemma_count_strict(s, x, y, n - 1);
        let e = s[n - 1];
        if e is Some {
            let z = e->0;
            // Everything above x is above y, and x's own class counts for y.
            if val_lt(x, z) && !has_eq_before(s, n - 1) {
                crate::decimal::lemma_val_lt_trans(y, x, z);
                crate::decimal::lemma_val_total(x, z);
                assert(class_seen(s, x, n) == class_seen(s, x, n - 1)) by {
                    if class_seen(s, x, n) && !class_seen(s, x, n - 1) {
                        let j = choose|j: int|
                            0 <= j < n && (#[trigger] s[j]) is Some && val_eq(s[j]->0, x);
                        assert(j == n - 1);
                        crate::decimal::lemma_val_eq_props(z, x, x);
                        assert(val_lt(x, z) && val_eq(x, z));
                        crate::decimal::lemma_val_total(x, z);
                    }
                    if class_seen(s, x, n - 1) {
                        let j = choose|j: int|
                            0 <= j < n - 1 && (#[trigger] s[j]) is Some && val_eq(s[j]->0, x);
                        assert(0 <= j < n && s[j] is Some && val_eq(s[j]->0, x));
                    }
                }
            } else if val_eq(z, x) {
                lemma_val_eq_lt(z, x, x);
                crate::decimal::lemma_val_eq_props(z, x, x);
                // z is above y but not above x.
                lemma_val_eq_lt(x, z, y);
                assert(val_lt(y, z));
                crate::decimal::lemma_val_total(x, z);
                assert(!val_lt(x, z));
                assert(class_seen(s, x, n)) by {
                    assert(s[n - 1] is Some && val_eq(s[n - 1]->0, x));
                }
                if !has_eq_before(s, n - 1) {
                    // First occurrence of x's class: counted for y only.
                    assert(!class_seen(s, x, n - 1)) by {
                        if class_seen(s, x, n - 1) {
                            let j = choose|j: int|
                                0 <= j < n - 1 && (#[trigger] s[j]) is Some && val_eq(s[j]->0, x);
                            lemma_val_eq_props(s[j]->0, x, z);
                            lemma_val_eq_props(x, z, s[j]->0);
                            assert(val_eq(s[j]->0, z));
                            lemma_val_eq_props(s[j]->0, z, z);
                            assert(has_eq_before(s, n - 1));
                        }
                    }
                } else {
                    // A repeated occurrence: counted for neither.
                    assert(class_seen(s, x, n - 1)) by {
                        let i = choose|i: int|
                            0 <= i < n - 1 && s[i] is Some && s[n - 1] is Some && val_eq(
                                (#[trigger] s[i])->0,
                                s[n - 1]->0,
                            );
                        lemma_val_eq_props(s[i]->0, z, x);
                    }
                }
            } else {
                // z is not above x and not equal to x: whether it counts for
                // y or not, the inequality only widens.
                crate::decimal::lemma_val_total(x, z);
                assert(class_seen(s, x, n) == class_seen(s, x, n - 1)) by {
                    if class_seen(s, x, n) && !class_seen(s, x, n - 1) {
                        let j = choose|j: int|
                            0 <= j < n && (#[trigger] s[j]) is Some && val_eq(s[j]->0, x);
                        assert(j == n - 1);
                        lemma_val_eq_props(z, x, x);
                        assert(val_eq(x, z));
                    }
                    if class_seen(s, x, n - 1) {
                        let j = choose|j: int|
                            0 <= j < n - 1 && (#[trigger] s[j]) is Some && val_eq(s[j]->0, x);
                        assert(0 <= j < n && s[j] is Some && val_eq(s[j]->0, x));
                    }
                }
            }
        } else {
            assert(class_seen(s, x, n) == class_seen(s, x, n - 1)) by {
                if class_seen(s, x, n) && !class_seen(s, x, n - 1) {
                    let j = choose|j: int|
                        0 <= j < n && (#[trigger] s[j]) is Some && val_eq(s[j]->0, x);
                    assert(j == n - 1);
                }
                if class_seen(s, x, n - 1) {
                    let j = choose|j: int|
                        0 <= j < n - 1 && (#[trigger] s[j]) is Some && val_eq(s[j]->0, x);
                    assert(0 <= j < n && s[j] is Some && val_eq(s[j]->0, x));
                }
            }
        }
    }
}

/// Higher scores rank strictly better: if entry `i` scores strictly above
/// entry `j`, its rank number is strictly smaller.
pub proof fn lemma_rank_strict(s: Seq<Option<Decimal>>, i: int, j: int)
    requires
        0 <= i < s.len(),
        0 <= j < s.len(),
        s.len() < u64::MAX,
        s[i] is Some,
        s[j] is Some,
        val_lt(s[j]->0, s[i]->0),
    ensures
        spec_rank(s, i)->0 < spec_rank(s, j)->0,
{
    let x = s[i]->0;
    let y = s[j]->0;
    lemma_count_strict(s, x, y, s.len() as int);
    lemma_val_eq_props(x, x, x);
    assert(class_seen(s, x, s.len() as int)) by {
        assert(0 <= i < s.len() && (s[i]) is Some && val_eq(s[i]->0, x));
    }
    lemma_count_bound(s, x, s.len() as int);
    lemma_count_bound(s, y, s.len() as int);
}

/// Does an earlier entry of the score list carry the same value as entry
/// `j`? Runtime check matching `has_eq_before`.
fn exists_eq_before(scores: &Vec<Option<Decimal>>, j: usize) -> (r: bool)
    requires
        j < scores@.len(),
    ensures
        r == has_eq_before(scores@, j as int),
{
    let xj = match scores[j] {
        Some(x) => x,
        None => {
            return false;
        },
    };
    let mut i: usize = 0;
    while i < j
        invariant
            i <= j < scores@.len(),
            scores@[j as int] == Some(xj),
            forall|t: int|
                0 <= t < i ==> !((#[trigger] scores@[t]) is Some && val_eq(
                    scores@[t]->0,
                    xj,
                )),
        decreases j - i,
    {
        match scores[i] {
            Some(xi) => {
                if xi.eq_val(xj) {
                    return true;
                }
            },
            None => {},
        }
        i = i + 1;
    }
    false
}

/// Count the distinct score values strictly above `x`; see
/// `distinct_gt_count`.
fn count_distinct_gt(scores: &Vec<Option<Decimal>>, x: Decimal) -> (c: usize)
    ensures
        c == distinct_gt_count(scores@, x, scores@.len() as int),
        c <= scores@.len(),
{
    proof {
        lemma_count_bound(scores@, x, scores@.len() as int);
    }
    let mut c: usize = 0;
    let mut n: usize = 0;
    while n < scores.len()
        invariant
            n <= scores@.len(),
            c == distinct_gt_count(scores@, x, n as int),
            c <= n,
        decreases scores@.len() - n,
    {
        proof {
            lemma_count_bound(scores@, x, n as int);
        }
        match scores[n] {
            Some(z) => {
                if x.lt_val(z) {
                    if !exists_eq_before(scores, n) {
                        c = c + 1;
                    }
                }
            },
            None => {},
        }
        n = n + 1;
    }
    c
}

/// Assign dense, tie-aware ranks to a score list; see `spec_rank`.
pub fn assign_ranks(scores: &Vec<Option<Decimal>>) -> (ranks: Vec<Option<u64>>)
    requires
        scores@.len() < usize::MAX,
    ensures
        ranks@.len() == scores@.len(),
        forall|i: int| 0 <= i < scores@.len() ==> ranks@[i] == spec_rank(scores@, i),
{
    let mut ranks: Vec<Option<u64>> = Vec::new();
    let mut i: usize = 0;
    while i < scores.len()
        invariant
            i <= scores@.len() < usize::MAX,
            ranks@.len() == i,
            forall|t: int| 0 <= t < i ==> ranks@[t] == spec_rank(scores@, t),
        decreases scores@.len() - i,
    {
        match scores[i] {
            Some(x) => {
                let c = count_distinct_gt(scores, x);
                ranks.push(Some(1 + c as u64));
            },
            None => {
                ranks.push(None);
            },
        }
        i = i + 1;
    }
    ranks
}

/// Indices with rank `rr`, in input order, among the first `n` entries.
pub open spec fn idxs_with_rank(ranks: Seq<Option<u64>>, rr: u64, n: int) -> Seq<int>
    decreases n,
{
    if n <= 0 {
        Seq::empty()
    } else {
        idxs_with_rank(ranks, rr, n - 1) + if ranks[n - 1] == Some(rr) {
            seq![n - 1]
        } else {
            Seq::empty()
        }
    }
}

/// Indices without a rank, in input order, among the first `n` entries.
pub open spec fn idxs_unranked(ranks: Seq<Option<u64>>, n: int) -> Seq<int>
    decreases n,
{
    if n <= 0 {
        Seq::empty()
    } else {
        idxs_unranked(ranks, n - 1) + if ranks[n - 1] is None {
            seq![n - 1]
        } else {
            Seq::empty()
        }
    }
}

/// All indices with a rank of at most `rr`, ordered by rank and, within one
/// rank, by input position.
pub open spec fn order_upto(ranks: Seq<Option<u64>>, rr: int) -> Seq<int>
    decreases rr,
{
    if rr <= 0 {
        Seq::empty()
    } else {
        order_upto(ranks, rr - 1) + idxs_with_rank(ranks, rr as u64, ranks.len() as int)
    }
}

/// The presentation order of ranked results: ranks ascending (so scores
/// descending), ties in input order, unranked entries last.
pub open spec fn spec_order(ranks: Seq<Option<u64>>) -> Seq<int> {
    order_upto(ranks, ranks.len() as int) + idxs_unranked(ranks, ranks.len() as int)
}

proof fn lemma_idxs_bounds(ranks: Seq<Option<u64>>, rr: u64, n: int)
    requires
        n <= ranks.len(),
    ensures
        forall|p: int|
            0 <= p < idxs_with_rank(ranks, rr, n).len() ==> 0 <= #[trigger] idxs_with_rank(
                ranks,
                rr,
                n,
            )[p] < ranks.len(),
        forall|p: int|
            0 <= p < idxs_unranked(ranks, n).len() ==> 0 <= #[trigger] idxs_unranked(ranks, n)[p]
                < ranks.len(),
    decreases n,
{
    if n > 0 {
        lemma_idxs_bounds(ranks, rr, n - 1);
        assert forall|p: int| 0 <= p < idxs_with_rank(ranks, rr, n).len() implies 0 <= #[trigger]
        idxs_with_rank(ranks, rr, n)[p] < ranks.len() by {
            if p < idxs_with_rank(ranks, rr, n - 1).len() {
                assert(idxs_with_rank(ranks, rr, n)[p] == idxs_with_rank(ranks, rr, n - 1)[p]);
            } else {
                assert(idxs_with_rank(ranks, rr, n)[p] == n - 1);
            }
        }
        assert forall|p: int| 0 <= p < idxs_unranked(ranks, n).len() implies 0 <= #[trigger]
        idxs_unranked(ranks, n)[p] < ranks.len() by {
            if p < idxs_unranked(ranks, n - 1).len() {
                assert(idxs_unranked(ranks, n)[p] == idxs_unranked(ranks, n - 1)[p]);
            } else {
                assert(idxs_unranked(ranks, n)[p] == n - 1);
            }
        }
    }
}

proof fn lemma_order_upto_bounds(ranks: Seq<Option<u64>>, rr: int)
    ensures
        forall|p: int|
            0 <= p < order_upto(ranks, rr).len() ==> 0 <= #[trigger] order_upto(ranks, rr)[p]
                < ranks.len(),
    decreases rr,
{
    if rr > 0 {
        lemma_order_upto_bounds(ranks, rr - 1);
        lemma_idxs_bounds(ranks, rr as u64, ranks.len() as int);
        assert forall|p: int| 0 <= p < order_upto(ranks, rr).len() implies 0 <= #[trigger]
        order_upto(ranks, rr)[p] < ranks.len() by {
            if p < order_upto(ranks, rr - 1).len() {
                assert(order_upto(ranks, rr)[p] == order_upto(ranks, rr - 1)[p]);
            } else {
                assert(order_upto(ranks, rr)[p] == idxs_with_rank(
                    ranks,
                    rr as u64,
                    ranks.len() as int,
                )[p - order_upto(ranks, rr - 1).len()]);
            }
        }
    }
}

/// Every position the presentation order mentions is a valid index.
pub proof fn lemma_order_bounds(ranks: Seq<Option<u64>>)
    ensures
        forall|p: int|
            0 <= p < spec_order(ranks).len() ==> 0 <= #[trigger] spec_order(ranks)[p]
                < ranks.len(),
{
    lemma_order_upto_bounds(ranks, ranks.len() as int);
    lemma_idxs_bounds(ranks, 0, ranks.len() as int);
}


proof fn lemma_idxs_rank_values(ranks: Seq<Option<u64>>, rr: u64, n: int)
    requires
        n <= ranks.len(),
    ensures
        forall|p: int|
            0 <= p < idxs_with_rank(ranks, rr, n).len() ==> 0 <= #[trigger] idxs_with_rank(
                ranks,
                rr,
                n,
            )[p] < ranks.len() && ranks[idxs_with_rank(ranks, rr, n)[p]] == Some(rr),
    decreases n,
{
    if n > 0 {
        lemma_idxs_rank_values(ranks, rr, n - 1);
        assert forall|p: int| 0 <= p < idxs_with_rank(ranks, rr, n).len() implies 0 <= #[trigger]
        idxs_with_rank(ranks, rr, n)[p] < ranks.len() && ranks[idxs_with_rank(ranks, rr, n)[p]]
            == Some(rr) by {
            if p < idxs_with_rank(ranks, rr, n - 1).len() {
                assert(idxs_with_rank(ranks, rr, n)[p] == idxs_with_rank(ranks, rr, n - 1)[p]);
            } else {
                assert(idxs_with_rank(ranks, rr, n)[p] == n - 1);
            }
        }
    }
}

proof fn lemma_unranked_values(ranks: Seq<Option<u64>>, n: int)
    requires
        n <= ranks.len(),
    ensures
        forall|p: int|
            0 <= p < idxs_unranked(ranks, n).len() ==> 0 <= #[trigger] idxs_unranked(ranks, n)[p]
                < ranks.len() && ranks[idxs_unranked(ranks, n)[p]] is None,
    decreases n,
{
    if n > 0 {
        lemma_unranked_values(ranks, n - 1);
        assert forall|p: int| 0 <= p < idxs_unranked(ranks, n).len() implies 0 <= #[trigger]
        idxs_unranked(ranks, n)[p] < ranks.len() && ranks[idxs_unranked(ranks, n)[p]] is None by {
            if p < idxs_unranked(ranks, n - 1).len() {
                assert(idxs_unranked(ranks, n)[p] == idxs_unranked(ranks, n - 1)[p]);
            } else {
                assert(idxs_unranked(ranks, n)[p] == n - 1);
            }
        }
    }
}

proof fn lemma_order_upto_values(ranks: Seq<Option<u64>>, rr: int)
    requires
        rr <= u64::MAX,
    ensures
        forall|p: int|
            0 <= p < order_upto(ranks, rr).len() ==> 0 <= #[trigger] order_upto(ranks, rr)[p]
                < ranks.len() && ranks[order_upto(ranks, rr)[p]] is Some && 1 <= ranks[order_upto(
                ranks,
                rr,
            )[p]]->0 <= rr,
    decreases rr,
{
    if rr > 0 {
        lemma_order_upto_values(ranks, rr - 1);
        lemma_idxs_rank_values(ranks, rr as u64, ranks.len() as int);
        assert forall|p: int| 0 <= p < order_upto(ranks, rr).len() implies 0 <= #[trigger]
        order_upto(ranks, rr)[p] < ranks.len() && ranks[order_upto(ranks, rr)[p]] is Some && 1
            <= ranks[order_upto(ranks, rr)[p]]->0 <= rr by {
            if p < order_upto(ranks, rr - 1).len() {
                assert(order_upto(ranks, rr)[p] == order_upto(ranks, rr - 1)[p]);
            } else {
                assert(order_upto(ranks, rr)[p] == idxs_with_rank(
                    ranks,
                    rr as u64,
                    ranks.len() as int,
                )[p - order_upto(ranks, rr - 1).len()]);
            }
        }
    }
}

proof fn lemma_order_upto_monotone(ranks: Seq<Option<u64>>, rr: int)
    requires
        rr <= u64::MAX,
    ensures
        forall|p: int, q: int|
            0 <= p <= q < order_upto(ranks, rr).len() ==> (#[trigger] ranks[order_upto(
                ranks,
                rr,
            )[p]])->0 <= (#[trigger] ranks[order_upto(ranks, rr)[q]])->0,
    decreases rr,
{
    if rr > 0 {
        lemma_order_upto_monotone(ranks, rr - 1);
        lemma_order_upto_values(ranks, rr - 1);
        lemma_order_upto_values(ranks, rr);
        lemma_idxs_rank_values(ranks, rr as u64, ranks.len() as int);
        let cut = order_upto(ranks, rr - 1).len() as int;
        assert forall|p: int, q: int|
            0 <= p <= q < order_upto(ranks, rr).len() implies (#[trigger] ranks[order_upto(
            ranks,
            rr,
        )[p]])->0 <= (#[trigger] ranks[order_upto(ranks, rr)[q]])->0 by {
            if q < cut {
                assert(order_upto(ranks, rr)[p] == order_upto(ranks, rr - 1)[p]);
                assert(order_upto(ranks, rr)[q] == order_upto(ranks, rr - 1)[q]);
            } else if p < cut {
                assert(order_upto(ranks, rr)[p] == order_upto(ranks, rr - 1)[p]);
                assert(order_upto(ranks, rr)[q] == idxs_with_rank(
                    ranks,
                    rr as u64,
                    ranks.len() as int,
                )[q - cut]);
            } else {
                assert(order_upto(ranks, rr)[p] == idxs_with_rank(
                    ranks,
                    rr as u64,
                    ranks.len() as int,
                )[p - cut]);
                assert(order_upto(ranks, rr)[q] == idxs_with_rank(
                    ranks,
                    rr as u64,
                    ranks.len() as int,
                )[q - cut]);
            }
        }
    }
}

/// The presentation order is sound: wherever a ranked entry stands, every
/// entry before it is ranked too and carries a rank number no larger — so
/// the list runs from the best rank down, ties keep input order, and every
/// unranked entry stands after all ranked ones.
pub proof fn lemma_presentation_order(ranks: Seq<Option<u64>>)
    requires
        ranks.len() <= u64::MAX,
    ensures
        forall|p: int, q: int|
            0 <= p <= q < spec_order(ranks).len() && (#[trigger] ranks[spec_order(ranks)[q]])
                is Some ==> (#[trigger] ranks[spec_order(ranks)[p]]) is Some && ranks[spec_order(
                ranks,
            )[p]]->0 <= ranks[spec_order(ranks)[q]]->0,
{
    let n = ranks.len() as int;
    let ranked = order_upto(ranks, n);
    let unranked = idxs_unranked(ranks, n);
    lemma_order_upto_values(ranks, n);
    lemma_order_upto_monotone(ranks, n);
    lemma_unranked_values(ranks, n);
    assert forall|p: int, q: int|
        0 <= p <= q < spec_order(ranks).len() && (#[trigger] ranks[spec_order(ranks)[q]]) is Some
        implies (#[trigger] ranks[spec_order(ranks)[p]]) is Some && ranks[spec_order(ranks)[p]]->0
        <= ranks[spec_order(ranks)[q]]->0 by {
        if q >= ranked.len() {
            assert(spec_order(ranks)[q] == unranked[q - ranked.len()]);
            assert(ranks[spec_order(ranks)[q]] is None);
        } else {
            assert(spec_order(ranks)[p] == ranked[p]);
            assert(spec_order(ranks)[q] == ranked[q]);
        }
    }
}

/// Compute the presentation order of a rank list; see `spec_order`.
pub fn ranked_order(ranks: &Vec<Option<u64>>) -> (ord: Vec<usize>)
    ensures
        ord@.len() == spec_order(ranks@).len(),
        forall|p: int| 0 <= p < ord@.len() ==> ord@[p] == spec_order(ranks@)[p],
        forall|p: int| 0 <= p < ord@.len() ==> (#[trigger] ord@[p]) < ranks@.len(),
{
    let n = ranks.len();
    let mut ord: Vec<usize> = Vec::new();
    let mut rr: usize = 0;
    while rr < n
        invariant
            rr <= n == ranks@.len(),
            ord@.len() == order_upto(ranks@, rr as int).len(),
            forall|p: int| 0 <= p < ord@.len() ==> ord@[p] == order_upto(ranks@, rr as int)[p],
            forall|p: int| 0 <= p < ord@.len() ==> (#[trigger] ord@[p]) < n,
        decreases n - rr,
    {
        rr = rr + 1;
        let ghost target = order_upto(ranks@, rr as int);
        let mut j: usize = 0;
        while j < n
            invariant
                rr <= n == ranks@.len(),
                j <= n,
                target == order_upto(ranks@, rr as int),
                ord@.len() == order_upto(ranks@, rr - 1).len() + idxs_with_rank(
                    ranks@,
                    rr as u64,
                    j as int,
                ).len(),
                forall|p: int|
                    0 <= p < ord@.len() ==> ord@[p] == (order_upto(ranks@, rr - 1)
                        + idxs_with_rank(ranks@, rr as u64, j as int))[p],
                forall|p: int| 0 <= p < ord@.len() ==> (#[trigger] ord@[p]) < n,
            decreases n - j,
        {
            let hit = match ranks[j] {
                Some(v) => v == rr as u64,
                None => false,
            };
            if hit {
                ord.push(j);
            }
            j = j + 1;
        }
    }
    let ghost ranked_part = order_upto(ranks@, n as int);
    let mut j: usize = 0;
    while j < n
        invariant
            j <= n == ranks@.len(),
            ranked_part == order_upto(ranks@, n as int),
            ord@.len() == ranked_part.len() + idxs_unranked(ranks@, j as int).len(),
            forall|p: int|
                0 <= p < ord@.len() ==> ord@[p] == (ranked_part + idxs_unranked(
                    ranks@,
                    j as int,
                ))[p],
            forall|p: int| 0 <= p < ord@.len() ==> (#[trigger] ord@[p]) < n,
        decreases n - j,
    {
        let hit = match ranks[j] {
            Some(_) => false,
            None => true,
        };
        if hit {
            ord.push(j);
        }
        j = j + 1;
    }
    proof {
        assert(forall|p: int|
            0 <= p < ord@.len() ==> ord@[p] == (ranked_part + idxs_unranked(
                ranks@,
                n as int,
            ))[p]);
    }
    ord
}

} // verus!
