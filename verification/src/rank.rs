//! The order of the units by score.

use vstd::prelude::*;
use vstd::set_lib::{lemma_int_range, set_int_range};

verus! {

/// Whether unit `i` is ranked before unit `j`: it has the higher score, or
/// the same score and the earlier place in the text.
pub open spec fn beats(scores: Seq<nat>, i: int, j: int) -> bool {
    scores[i] > scores[j] || (scores[i] == scores[j] && i < j)
}

/// The units that are ranked before unit `i`.
pub open spec fn above(scores: Seq<nat>, i: int) -> Set<int> {
    Set::new(|j: int| 0 <= j < scores.len() && beats(scores, j, i))
}

/// The place of unit `i` in the ranking, counted from 0: the number of
/// units that are ranked before it.
pub open spec fn rank(scores: Seq<nat>, i: int) -> nat {
    above(scores, i).len()
}

/// The scores as natural numbers.
pub open spec fn nats(v: Seq<usize>) -> Seq<nat> {
    Seq::new(v.len(), |i: int| v[i] as nat)
}

/// Whether `order` names units of `scores`, each ranked before all that
/// follow it.
pub open spec fn descending(scores: Seq<nat>, order: Seq<usize>) -> bool {
    &&& forall|k: int| 0 <= k < order.len() ==> (#[trigger] order[k]) < scores.len()
    &&& forall|k: int, l: int|
        0 <= k < l < order.len() ==> beats(
            scores,
            #[trigger] order[k] as int,
            #[trigger] order[l] as int,
        )
}

/// Whether `order` names unit `i`.
pub open spec fn lists(order: Seq<usize>, i: int) -> bool {
    exists|k: int| 0 <= k < order.len() && #[trigger] order[k] == i
}

/// Whether `order` is the ranking of all units of `scores`.
pub open spec fn is_order(scores: Seq<nat>, order: Seq<usize>) -> bool {
    &&& order.len() == scores.len()
    &&& descending(scores, order)
    &&& forall|i: int| 0 <= i < scores.len() ==> #[trigger] lists(order, i)
}

/// Every unit has a place below the number of units.
pub proof fn lemma_rank_in_range(scores: Seq<nat>, i: int)
    requires
        0 <= i < scores.len(),
    ensures
        rank(scores, i) < scores.len(),
{
    let all = set_int_range(0, scores.len() as int);
    lemma_int_range(0, scores.len() as int);
    above(scores, i).lemma_subset_not_in_lt(all, i);
}

/// In the ranking of all units, the unit at place `k` has rank `k`.
pub proof fn lemma_rank_of_place(scores: Seq<nat>, order: Seq<usize>, k: int)
    requires
        is_order(scores, order),
        0 <= k < order.len(),
    ensures
        rank(scores, order[k] as int) == k,
{
    let before = Seq::new(k as nat, |j: int| order[j] as int);
    assert forall|a: int, b: int|
        0 <= a < before.len() && 0 <= b < before.len() && a != b implies before[a]
        != before[b] by {
        if a < b {
            assert(beats(scores, order[a] as int, order[b] as int));
        } else {
            assert(beats(scores, order[b] as int, order[a] as int));
        }
    }
    before.unique_seq_to_set();
    assert forall|j: int|
        above(scores, order[k] as int).contains(j) <==> before.to_set().contains(j) by {
        if above(scores, order[k] as int).contains(j) {
            assert(lists(order, j));
            let m = choose|m: int| 0 <= m < order.len() && order[m] == j;
            if m > k {
                assert(beats(scores, order[k] as int, order[m] as int));
            }
            assert(m < k);
            assert(before[m] == j);
        }
        if before.to_set().contains(j) {
            let m = choose|m: int| 0 <= m < before.len() && before[m] == j;
            assert(beats(scores, order[m] as int, order[k] as int));
        }
    }
    assert(above(scores, order[k] as int) =~= before.to_set());
}

/// Whether unit `i` is ranked before unit `j`.
fn precedes(scores: &Vec<usize>, i: usize, j: usize) -> (b: bool)
    requires
        i < scores.len(),
        j < scores.len(),
    ensures
        b == beats(nats(scores@), i as int, j as int),
{
    scores[i] > scores[j] || (scores[i] == scores[j] && i < j)
}

/// Merges two rankings of different units into one.
fn merge(scores: &Vec<usize>, left: &Vec<usize>, right: &Vec<usize>) -> (out: Vec<usize>)
    requires
        descending(nats(scores@), left@),
        descending(nats(scores@), right@),
        forall|a: int, b: int|
            0 <= a < left.len() && 0 <= b < right.len() ==> left[a] != right[b],
    ensures
        descending(nats(scores@), out@),
        out.len() == left.len() + right.len(),
        forall|x: usize| out@.contains(x) <==> left@.contains(x) || right@.contains(x),
{
    let ghost sc = nats(scores@);
    let mut out: Vec<usize> = Vec::new();
    let mut i: usize = 0;
    let mut j: usize = 0;
    while i < left.len() || j < right.len()
        invariant
            sc == nats(scores@),
            i <= left.len(),
            j <= right.len(),
            out.len() == i + j,
            descending(sc, left@),
            descending(sc, right@),
            descending(sc, out@),
            forall|a: int, b: int|
                0 <= a < left.len() && 0 <= b < right.len() ==> left[a] != right[b],
            forall|k: int, a: int|
                0 <= k < out.len() && i <= a < left.len() ==> beats(
                    sc,
                    #[trigger] out[k] as int,
                    #[trigger] left[a] as int,
                ),
            forall|k: int, b: int|
                0 <= k < out.len() && j <= b < right.len() ==> beats(
                    sc,
                    #[trigger] out[k] as int,
                    #[trigger] right[b] as int,
                ),
            forall|x: usize|
                out@.contains(x) <==> left@.take(i as int).contains(x) || right@.take(
                    j as int,
                ).contains(x),
        decreases left.len() - i + right.len() - j,
    {
        let from_left: bool = if j >= right.len() {
            true
        } else if i >= left.len() {
            false
        } else {
            precedes(scores, left[i], right[j])
        };
        let ghost prior = out@;
        if from_left {
            let x: usize = left[i];
            out.push(x);
            proof {
                assert(left@.take(i + 1) =~= left@.take(i as int).push(x));
                assert forall|y: usize|
                    out@.contains(y) <==> left@.take(i + 1).contains(y) || right@.take(
                        j as int,
                    ).contains(y) by {
                    vstd::seq_lib::lemma_seq_contains_after_push(prior, x, y);
                    vstd::seq_lib::lemma_seq_contains_after_push(left@.take(i as int), x, y);
                }
            }
            i += 1;
        } else {
            let x: usize = right[j];
            out.push(x);
            proof {
                assert(right@.take(j + 1) =~= right@.take(j as int).push(x));
                assert forall|y: usize|
                    out@.contains(y) <==> left@.take(i as int).contains(y) || right@.take(
                        j + 1,
                    ).contains(y) by {
                    vstd::seq_lib::lemma_seq_contains_after_push(prior, x, y);
                    vstd::seq_lib::lemma_seq_contains_after_push(right@.take(j as int), x, y);
                }
            }
            j += 1;
        }
    }
    assert(left@.take(i as int) =~= left@);
    assert(right@.take(j as int) =~= right@);
    out
}

/// The ranking of the units `lo..hi` among themselves.
fn sort_range(scores: &Vec<usize>, lo: usize, hi: usize) -> (order: Vec<usize>)
    requires
        lo <= hi <= scores.len(),
    ensures
        descending(nats(scores@), order@),
        order.len() == hi - lo,
        forall|x: usize| order@.contains(x) <==> lo <= x < hi,
    decreases hi - lo,
{
    let mut order: Vec<usize> = Vec::new();
    if hi - lo == 0 {
        return order;
    }
    if hi - lo == 1 {
        order.push(lo);
        assert(order@[0] == lo);
        return order;
    }
    let mid: usize = lo + (hi - lo) / 2;
    let left = sort_range(scores, lo, mid);
    let right = sort_range(scores, mid, hi);
    proof {
        assert forall|a: int, b: int|
            0 <= a < left.len() && 0 <= b < right.len() implies left[a] != right[b] by {
            assert(left@.contains(left[a]));
            assert(right@.contains(right[b]));
        }
    }
    merge(scores, &left, &right)
}

/// The ranking of all units: by falling score, and among units of one score
/// in the order of the text.
pub fn rank_order(scores: &Vec<usize>) -> (order: Vec<usize>)
    ensures
        is_order(nats(scores@), order@),
        forall|k: int|
            0 <= k < order.len() ==> rank(nats(scores@), #[trigger] order[k] as int) == k,
{
    let order = sort_range(scores, 0, scores.len());
    proof {
        assert forall|i: int| 0 <= i < scores.len() implies #[trigger] lists(order@, i) by {
            assert(order@.contains(i as usize));
        }
        assert forall|k: int| 0 <= k < order.len() implies rank(
            nats(scores@),
            #[trigger] order[k] as int,
        ) == k by {
            lemma_rank_of_place(nats(scores@), order@, k);
        }
    }
    order
}

} // verus!
