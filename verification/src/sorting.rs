//! Sorting numbers in ascending order.

use vstd::prelude::*;
use vstd::relations::{sorted_by, total_ordering};
use vstd::seq_lib::{lemma_multiset_commutative, lemma_sorted_unique, to_multiset_build};

verus! {

/// The order of the numbers.
pub open spec fn at_most() -> spec_fn(i64, i64) -> bool {
    |a: i64, b: i64| a <= b
}

/// The numbers of `s` in ascending order.
pub open spec fn ascending(s: Seq<i64>) -> Seq<i64> {
    s.sort_by(at_most())
}

/// Whether no number of `s` is followed by a smaller one.
pub open spec fn is_ascending(s: Seq<i64>) -> bool {
    forall|i: int, j: int| 0 <= i < j < s.len() ==> s[i] <= s[j]
}

/// The sequence in ascending order is ascending, and holds each number as
/// often as the sequence does.
pub proof fn lemma_ascending(s: Seq<i64>)
    ensures
        is_ascending(ascending(s)),
        ascending(s).to_multiset() == s.to_multiset(),
        ascending(s).len() == s.len(),
{
    broadcast use vstd::seq_lib::group_to_multiset_ensures;

    assert(total_ordering(at_most()));
    s.lemma_sort_by_ensures(at_most());
    let sorted = ascending(s);
    assert forall|i: int, j: int| 0 <= i < j < sorted.len() implies sorted[i] <= sorted[j] by {
        assert(at_most()(sorted[i], sorted[j]));
    }
    assert(sorted.to_multiset().len() == s.to_multiset().len());
}

/// An ascending sequence that holds each number as often as `s` does is `s`
/// in ascending order.
proof fn lemma_is_the_ascending(s: Seq<i64>, sorted: Seq<i64>)
    requires
        is_ascending(sorted),
        sorted.to_multiset() == s.to_multiset(),
    ensures
        sorted == ascending(s),
{
    assert(total_ordering(at_most()));
    s.lemma_sort_by_ensures(at_most());
    assert(sorted_by(sorted, at_most()));
    lemma_sorted_unique(sorted, ascending(s), at_most());
}

/// Merges two ascending vectors into one.
fn merge(a: &Vec<i64>, b: &Vec<i64>) -> (out: Vec<i64>)
    requires
        is_ascending(a@),
        is_ascending(b@),
    ensures
        is_ascending(out@),
        out@.to_multiset() == a@.to_multiset().add(b@.to_multiset()),
{
    broadcast use {vstd::seq_lib::group_to_multiset_ensures, vstd::multiset::group_multiset_axioms};

    let mut out: Vec<i64> = Vec::new();
    let mut i: usize = 0;
    let mut j: usize = 0;
    assert(a@.take(0) =~= Seq::<i64>::empty());
    assert(b@.take(0) =~= Seq::<i64>::empty());
    assert(out@.to_multiset() =~= a@.take(0).to_multiset().add(b@.take(0).to_multiset()));
    while i < a.len() || j < b.len()
        invariant
            is_ascending(a@),
            is_ascending(b@),
            i <= a@.len(),
            j <= b@.len(),
            is_ascending(out@),
            out@.to_multiset() == a@.take(i as int).to_multiset().add(
                b@.take(j as int).to_multiset(),
            ),
            forall|k: int| 0 <= k < out@.len() && i < a@.len() ==> out@[k] <= a@[i as int],
            forall|k: int| 0 <= k < out@.len() && j < b@.len() ==> out@[k] <= b@[j as int],
        decreases a@.len() - i + b@.len() - j,
    {
        let ghost before = out@;
        if j >= b.len() || (i < a.len() && a[i] <= b[j]) {
            let x = a[i];
            out.push(x);
            proof {
                assert(a@.take(i + 1) =~= a@.take(i as int).push(x));
                assert(out@ == before.push(x));
                to_multiset_build(before, x);
                to_multiset_build(a@.take(i as int), x);
                assert(out@.to_multiset() =~= a@.take(i + 1).to_multiset().add(
                    b@.take(j as int).to_multiset(),
                ));
            }
            i += 1;
        } else {
            let x = b[j];
            out.push(x);
            proof {
                assert(b@.take(j + 1) =~= b@.take(j as int).push(x));
                assert(out@ == before.push(x));
                to_multiset_build(before, x);
                to_multiset_build(b@.take(j as int), x);
                assert(out@.to_multiset() =~= a@.take(i as int).to_multiset().add(
                    b@.take(j + 1).to_multiset(),
                ));
            }
            j += 1;
        }
    }
    assert(a@.take(a@.len() as int) =~= a@);
    assert(b@.take(b@.len() as int) =~= b@);
    out
}

/// Sorts the numbers at the positions from `lo` up to `hi`.
fn sort_range(v: &Vec<i64>, lo: usize, hi: usize) -> (out: Vec<i64>)
    requires
        lo <= hi <= v@.len(),
    ensures
        is_ascending(out@),
        out@.to_multiset() == v@.subrange(lo as int, hi as int).to_multiset(),
    decreases hi - lo,
{
    broadcast use vstd::seq_lib::group_to_multiset_ensures;

    if hi - lo <= 1 {
        let mut out: Vec<i64> = Vec::new();
        if hi - lo == 1 {
            out.push(v[lo]);
        }
        assert(out@ =~= v@.subrange(lo as int, hi as int));
        out
    } else {
        let mid = lo + (hi - lo) / 2;
        let left = sort_range(v, lo, mid);
        let right = sort_range(v, mid, hi);
        proof {
            assert(v@.subrange(lo as int, hi as int) =~= v@.subrange(lo as int, mid as int)
                + v@.subrange(mid as int, hi as int));
            lemma_multiset_commutative(
                v@.subrange(lo as int, mid as int),
                v@.subrange(mid as int, hi as int),
            );
        }
        merge(&left, &right)
    }
}

/// Sorts numbers in ascending order.
pub fn sort(v: &Vec<i64>) -> (out: Vec<i64>)
    ensures
        out@ == ascending(v@),
{
    let out = sort_range(v, 0, v.len());
    proof {
        assert(v@.subrange(0, v@.len() as int) =~= v@);
        lemma_is_the_ascending(v@, out@);
    }
    out
}

} // verus!
