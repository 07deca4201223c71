//! The two orders of the relabeling: degree-node pairs from the largest down,
//! and node ids from the smallest up.

use rayon::slice::ParallelSliceMut;
use std::cmp::Ordering;
use vstd::prelude::*;
use vstd::relations::{sorted_by, total_ordering};

verus! {

/// `a` comes no later than `b` when pairs are listed from the largest down:
/// the larger first component first, and among equal first components the
/// larger second component first.
pub open spec fn pair_ge(a: (usize, usize), b: (usize, usize)) -> bool {
    a.0 > b.0 || (a.0 == b.0 && a.1 >= b.1)
}

/// The order of pairs from the largest down, as a relation.
pub open spec fn descending_pairs() -> spec_fn((usize, usize), (usize, usize)) -> bool {
    |a: (usize, usize), b: (usize, usize)| pair_ge(a, b)
}

/// The order of numbers from the smallest up, as a relation.
pub open spec fn ascending() -> spec_fn(usize, usize) -> bool {
    |a: usize, b: usize| a <= b
}

/// The order of numbers from the largest down, as a relation.
pub open spec fn descending() -> spec_fn(usize, usize) -> bool {
    |a: usize, b: usize| a >= b
}

/// All three relations are total orders, which is what a sort asks of the
/// order that it is given.
pub proof fn lemma_orders_total()
    ensures
        total_ordering(descending_pairs()),
        total_ordering(ascending()),
        total_ordering(descending()),
{
}

/// Orders two pairs so that a sort by it lists the pairs from the largest
/// down: `Less` says that `left` is the larger pair.
pub fn larger_first(left: &(usize, usize), right: &(usize, usize)) -> (order: Ordering)
    ensures
        (order == Ordering::Less) <==> (pair_ge(*left, *right) && *left != *right),
        (order == Ordering::Equal) <==> *left == *right,
        (order == Ordering::Greater) <==> (pair_ge(*right, *left) && *left != *right),
{
    if left.0 > right.0 {
        Ordering::Less
    } else if left.0 < right.0 {
        Ordering::Greater
    } else if left.1 > right.1 {
        Ordering::Less
    } else if left.1 < right.1 {
        Ordering::Greater
    } else {
        Ordering::Equal
    }
}

/// Sorts the pairs from the largest down, with rayon's
/// `ParallelSliceMut::par_sort_unstable_by` under the order `larger_first`.
///
/// Taken on trust from rayon: afterwards the vector holds the same pairs as
/// before, each as often as before, and they stand in the order of the
/// comparison, which is total.
#[verifier::external_body]
pub(crate) fn par_sort_largest_first(pairs: &mut Vec<(usize, usize)>)
    ensures
        final(pairs)@.to_multiset() == old(pairs)@.to_multiset(),
        sorted_by(final(pairs)@, descending_pairs()),
{
    pairs.par_sort_unstable_by(|left, right| larger_first(left, right));
}

/// Sorts the numbers from the smallest up, with std's `sort_unstable` on
/// slices.
///
/// Taken on trust from std: afterwards the slice holds the same numbers as
/// before, each as often as before, in ascending order.
#[verifier::external_body]
pub(crate) fn sort_smallest_first(list: &mut [usize])
    ensures
        final(list)@.to_multiset() == old(list)@.to_multiset(),
        sorted_by(final(list)@, ascending()),
{
    list.sort_unstable();
}

} // verus!
