//! The data-parallel steps, handed to rayon's work-stealing pool. Each
//! function here is one fork-join: it returns when every task has ended.

use rayon::iter::{
    IndexedParallelIterator, IntoParallelIterator, IntoParallelRefMutIterator, ParallelIterator,
};
use vstd::prelude::*;

verus! {

/// `index` is one of the indices `0, 1, .., len - 1`.
pub open spec fn is_index(index: int, len: int) -> bool {
    0 <= index < len
}

/// The results of `op` for the indices `0, 1, .., count - 1`, in that order,
/// computed in parallel with rayon: `into_par_iter` on the range of the
/// indices, `map` with `op`, and `collect_into_vec`.
///
/// Taken on trust from rayon: `op` is called on indices of the range only,
/// and the collected vector holds, at every index of the range, what one call
/// of `op` returned for that index.
#[verifier::external_body]
pub(crate) fn par_map_collect<R, F>(count: usize, op: &F) -> (results: Vec<R>) where
    R: Send,
    F: Fn(usize) -> R + Send + Sync,

    requires
        forall|index: usize| index < count ==> call_requires(*op, (index,)),
    ensures
        results@.len() == count,
        forall|index: int|
            0 <= index < count ==> call_ensures(*op, (index as usize,), #[trigger] results@[index]),
{
    let mut results = Vec::new();
    (0..count).into_par_iter().map(op).collect_into_vec(&mut results);
    results
}

/// Calls `op` once for every entry of `items`, with the entry's index and the
/// exclusive reference to the entry, in parallel with rayon: `par_iter_mut` on
/// the slice, `enumerate`, and `for_each` with `op`.
///
/// Taken on trust from rayon: `for_each` runs the function once on each item,
/// and `enumerate` pairs the entry at an index with that index. So every
/// entry ends as one call of `op` for its index leaves it.
#[verifier::external_body]
pub(crate) fn par_for_each_item<T, F>(items: &mut [T], op: &F) where
    T: Send,
    F: Fn(usize, &mut T) + Send + Sync,

    requires
        forall|index: usize, item: &mut T|
            index < old(items)@.len() && *item == old(items)@[index as int] ==> call_requires(
                *op,
                (index, item),
            ),
    ensures
        final(items)@.len() == old(items)@.len(),
        forall|index: int| #[trigger]
            is_index(index, old(items)@.len() as int) ==> exists|item: &mut T|
                *item == old(items)@[index] && *final(item) == final(items)@[index]
                    && #[trigger] call_ensures(*op, (index as usize, item), ()),
{
    items.par_iter_mut().enumerate().for_each(|(index, item)| op(index, item));
}

} // verus!
