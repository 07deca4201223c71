//! Carving a buffer of node values into one exclusive sub-buffer per range of
//! a partition.

use crate::partition::{contiguous, covered, lemma_contiguous_ordered};
use std::ops::Range;
use vstd::prelude::*;

verus! {

/// Where the pieces of a buffer lie when they are laid end to end: if piece
/// `i` is as wide as range `i` of a contiguous partition, the pieces together
/// are as long as the partition covers, and entry `k` of piece `i` is the
/// entry of the whole at `partition[i].start + k`.
pub proof fn lemma_flatten_by_partition<T>(
    pieces: Seq<Seq<T>>,
    partition: Seq<Range<usize>>,
    i: int,
    k: int,
)
    requires
        contiguous(partition),
        pieces.len() == partition.len(),
        forall|j: int|
            0 <= j < pieces.len() ==> (#[trigger] pieces[j]).len() == partition[j].end
                - partition[j].start,
        0 <= i < pieces.len(),
        0 <= k < pieces[i].len(),
    ensures
        pieces.flatten().len() == covered(partition),
        partition[i].start + k < covered(partition),
        pieces.flatten()[partition[i].start + k] == pieces[i][k],
    decreases pieces.len(),
{
    let last = pieces.len() - 1;
    let front = pieces.drop_last();
    let front_ranges = partition.take(last);
    assert(pieces =~= front.push(pieces.last()));
    front.lemma_flatten_push(pieces.last());
    lemma_flatten_length(front, front_ranges);
    if i < last {
        lemma_flatten_by_partition(front, front_ranges, i, k);
    }
}

/// Pieces that are as wide as the ranges of a contiguous partition are
/// together as long as the partition covers.
pub proof fn lemma_flatten_length<T>(pieces: Seq<Seq<T>>, partition: Seq<Range<usize>>)
    requires
        contiguous(partition),
        pieces.len() == partition.len(),
        forall|j: int|
            0 <= j < pieces.len() ==> (#[trigger] pieces[j]).len() == partition[j].end
                - partition[j].start,
    ensures
        pieces.flatten().len() == covered(partition),
    decreases pieces.len(),
{
    if pieces.len() > 0 {
        let last = pieces.len() - 1;
        let front = pieces.drop_last();
        assert(pieces =~= front.push(pieces.last()));
        front.lemma_flatten_push(pieces.last());
        lemma_flatten_length(front, partition.take(last));
    }
}

/// Splits `slice` into one exclusive sub-slice per range of `partition`: the
/// sub-slice at index `i` holds the values of the nodes of range `i`. Laid end
/// to end the sub-slices are the slice, when they are handed out and when they
/// are given back.
pub fn split_by_partition<'a, T>(partition: &[Range<usize>], slice: &'a mut [T]) -> (splits: Vec<
    &'a mut [T],
>)
    requires
        contiguous(partition@),
        covered(partition@) == old(slice)@.len(),
    ensures
        splits@.len() == partition@.len(),
        forall|i: int|
            #![trigger splits@[i]]
            0 <= i < partition@.len() ==> splits@[i]@ == old(slice)@.subrange(
                partition@[i].start as int,
                partition@[i].end as int,
            ),
        Seq::new(splits@.len(), |i: int| splits@[i]@).flatten() == old(slice)@,
        final(slice)@ == Seq::new(splits@.len(), |i: int| final(splits@[i])@).flatten(),
{
    let mut splits: Vec<&'a mut [T]> = Vec::with_capacity(partition.len());

    let mut remainder = slice;
    let mut current_start: usize = 0;
    let mut i: usize = 0;
    while i < partition.len()
        invariant
            contiguous(partition@),
            covered(partition@) == old(slice)@.len(),
            i <= partition@.len(),
            splits@.len() == i,
            current_start == covered(partition@.take(i as int)),
            current_start <= old(slice)@.len(),
            remainder@ == old(slice)@.subrange(current_start as int, old(slice)@.len() as int),
            forall|j: int|
                #![trigger splits@[j]]
                0 <= j < i ==> splits@[j]@ == old(slice)@.subrange(
                    partition@[j].start as int,
                    partition@[j].end as int,
                ),
            Seq::new(splits@.len(), |j: int| splits@[j]@).flatten() == old(slice)@.subrange(
                0,
                current_start as int,
            ),
            final(slice)@ == Seq::new(splits@.len(), |j: int| final(splits@[j])@).flatten()
                + final(remainder)@,
        decreases partition@.len() - i,
    {
        proof {
            lemma_contiguous_ordered(partition@, i as int, partition@.len() - 1);
        }
        let ghost given_back = Seq::new(splits@.len(), |j: int| final(splits@[j])@);
        let ghost handed_out = Seq::new(splits@.len(), |j: int| splits@[j]@);
        let next_end = partition[i].end - current_start;
        current_start += next_end;

        let (left, right) = remainder.split_at_mut(next_end);

        splits.push(left);
        remainder = right;
        i += 1;
        proof {
            let newest = splits@[i - 1];
            assert(Seq::new(splits@.len(), |j: int| final(splits@[j])@) =~= given_back.push(
                final(newest)@,
            ));
            given_back.lemma_flatten_push(final(newest)@);
            assert(Seq::new(splits@.len(), |j: int| splits@[j]@) =~= handed_out.push(newest@));
            handed_out.lemma_flatten_push(newest@);
        }
    }
    splits
}

} // verus!
