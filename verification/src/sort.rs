//! Ordering the rows of a frequency table by their counts.

use crate::bag::{
    keeps_ties_in_order, lemma_with_count_add, lemma_with_count_none, lemma_with_count_push,
    sorted_by_count, with_count,
};
use vstd::prelude::*;
use vstd::seq_lib::{lemma_multiset_commutative, to_multiset_build};

verus! {

/// Merges two sorted runs of rows into one sorted run.
///
/// Of two rows with the same count, the one from `left` comes first.
fn merge(left: &Vec<(char, u32)>, right: &Vec<(char, u32)>) -> (out: Vec<(char, u32)>)
    requires
        sorted_by_count(left@),
        sorted_by_count(right@),
    ensures
        sorted_by_count(out@),
        out@.to_multiset() == left@.to_multiset().add(right@.to_multiset()),
        forall|n: u32| #[trigger] with_count(out@, n) == with_count(left@, n) + with_count(right@, n),
{
    let mut out: Vec<(char, u32)> = Vec::new();
    let mut i: usize = 0;
    let mut j: usize = 0;
    proof {
        out@.to_multiset_ensures();
        left@.take(0).to_multiset_ensures();
        right@.take(0).to_multiset_ensures();
        assert(out@.to_multiset() =~= left@.take(0).to_multiset().add(
            right@.take(0).to_multiset(),
        ));
        assert forall|n: u32| #[trigger]
            with_count(out@, n) == with_count(left@.take(0), n) + with_count(
                right@.take(0),
                n,
            ) by {
            lemma_with_count_none(out@, n);
            lemma_with_count_none(left@.take(0), n);
            lemma_with_count_none(right@.take(0), n);
        }
    }
    while i < left.len() || j < right.len()
        invariant
            i <= left.len(),
            j <= right.len(),
            sorted_by_count(left@),
            sorted_by_count(right@),
            sorted_by_count(out@),
            out@.to_multiset() == left@.take(i as int).to_multiset().add(
                right@.take(j as int).to_multiset(),
            ),
            forall|k: int| 0 <= k < out.len() && i < left.len() ==> out@[k].1 <= left@[i as int].1,
            forall|k: int|
                0 <= k < out.len() && j < right.len() ==> out@[k].1 <= right@[j as int].1,
            forall|k: int| 0 <= k < j && i < left.len() ==> right@[k].1 < left@[i as int].1,
            forall|n: u32| #[trigger]
                with_count(out@, n) == with_count(left@.take(i as int), n) + with_count(
                    right@.take(j as int),
                    n,
                ),
        decreases left.len() - i + right.len() - j,
    {
        let from_left = if j >= right.len() {
            true
        } else if i >= left.len() {
            false
        } else {
            left[i].1 <= right[j].1
        };
        let ghost before = out@;
        if from_left {
            let row = left[i];
            out.push(row);
            proof {
                to_multiset_build(before, row);
                to_multiset_build(left@.take(i as int), row);
                assert(left@.take(i + 1) =~= left@.take(i as int).push(row));
                assert(out@.to_multiset() =~= left@.take(i + 1).to_multiset().add(
                    right@.take(j as int).to_multiset(),
                ));
                lemma_with_count_none(right@.take(j as int), row.1);
                assert forall|n: u32| #[trigger]
                    with_count(out@, n) == with_count(left@.take(i + 1), n) + with_count(
                        right@.take(j as int),
                        n,
                    ) by {
                    lemma_with_count_push(before, row, n);
                    lemma_with_count_push(left@.take(i as int), row, n);
                    assert(with_count(before, n) == with_count(left@.take(i as int), n)
                        + with_count(right@.take(j as int), n));
                    if row.1 == n {
                        assert(with_count(left@.take(i as int), n).push(row) + with_count(
                            right@.take(j as int),
                            n,
                        ) =~= (with_count(left@.take(i as int), n) + with_count(
                            right@.take(j as int),
                            n,
                        )).push(row));
                    }
                }
            }
            i += 1;
        } else {
            let row = right[j];
            out.push(row);
            proof {
                to_multiset_build(before, row);
                to_multiset_build(right@.take(j as int), row);
                assert(right@.take(j + 1) =~= right@.take(j as int).push(row));
                assert(out@.to_multiset() =~= left@.take(i as int).to_multiset().add(
                    right@.take(j + 1).to_multiset(),
                ));
                assert forall|n: u32| #[trigger]
                    with_count(out@, n) == with_count(left@.take(i as int), n) + with_count(
                        right@.take(j + 1),
                        n,
                    ) by {
                    lemma_with_count_push(before, row, n);
                    lemma_with_count_push(right@.take(j as int), row, n);
                    assert(with_count(before, n) == with_count(left@.take(i as int), n)
                        + with_count(right@.take(j as int), n));
                    if row.1 == n {
                        assert(with_count(left@.take(i as int), n) + with_count(
                            right@.take(j as int),
                            n,
                        ).push(row) =~= (with_count(left@.take(i as int), n) + with_count(
                            right@.take(j as int),
                            n,
                        )).push(row));
                    }
                }
            }
            j += 1;
        }
    }
    proof {
        assert(left@.take(i as int) =~= left@);
        assert(right@.take(j as int) =~= right@);
    }
    out
}

/// The rows of `rows` from `lo` up to `hi`, sorted by count.
fn sorted_range(rows: &Vec<(char, u32)>, lo: usize, hi: usize) -> (out: Vec<(char, u32)>)
    requires
        lo <= hi <= rows.len(),
    ensures
        sorted_by_count(out@),
        out@.to_multiset() == rows@.subrange(lo as int, hi as int).to_multiset(),
        keeps_ties_in_order(rows@.subrange(lo as int, hi as int), out@),
    decreases hi - lo,
{
    if hi - lo <= 1 {
        let mut out: Vec<(char, u32)> = Vec::new();
        if lo < hi {
            out.push(rows[lo]);
        }
        assert(out@ =~= rows@.subrange(lo as int, hi as int));
        out
    } else {
        let mid: usize = lo + (hi - lo) / 2;
        let left = sorted_range(rows, lo, mid);
        let right = sorted_range(rows, mid, hi);
        proof {
            lemma_multiset_commutative(
                rows@.subrange(lo as int, mid as int),
                rows@.subrange(mid as int, hi as int),
            );
            assert(rows@.subrange(lo as int, hi as int) =~= rows@.subrange(lo as int, mid as int)
                + rows@.subrange(mid as int, hi as int));
        }
        let out = merge(&left, &right);
        proof {
            assert forall|n: u32| #[trigger]
                with_count(out@, n) == with_count(rows@.subrange(lo as int, hi as int), n) by {
                lemma_with_count_add(
                    rows@.subrange(lo as int, mid as int),
                    rows@.subrange(mid as int, hi as int),
                    n,
                );
                assert(with_count(left@, n) == with_count(
                    rows@.subrange(lo as int, mid as int),
                    n,
                ));
                assert(with_count(right@, n) == with_count(
                    rows@.subrange(mid as int, hi as int),
                    n,
                ));
            }
        }
        out
    }
}

/// Sorts rows by count, smallest first.
///
/// The rows are rearranged and otherwise unchanged, and rows with the same
/// count stay in the order in which they came.
pub fn sort_by_count(rows: &mut Vec<(char, u32)>)
    ensures
        sorted_by_count(final(rows)@),
        final(rows)@.to_multiset() == old(rows)@.to_multiset(),
        keeps_ties_in_order(old(rows)@, final(rows)@),
{
    let sorted = sorted_range(rows, 0, rows.len());
    assert(rows@.subrange(0, rows@.len() as int) =~= rows@);
    *rows = sorted;
}

} // verus!
