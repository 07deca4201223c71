//! Range partitions of the node set `[0, n)` and the greedy pass that cuts the
//! node set into ranges of roughly equal cost.

use std::ops::Range;
use vstd::prelude::*;

verus! {

/// The ranges follow one another without gap or overlap, the first one
/// beginning at node 0, and none of them runs backwards.
pub open spec fn contiguous(p: Seq<Range<usize>>) -> bool {
    &&& forall|i: int| 0 <= i < p.len() ==> (#[trigger] p[i]).start <= p[i].end
    &&& p.len() > 0 ==> p[0].start == 0
    &&& forall|i: int, j: int|
        0 <= i && j == i + 1 && j < p.len() ==> (#[trigger] p[i]).end == (#[trigger] p[j]).start
}

/// The node at which a chain of contiguous ranges stops: the end of its last
/// range, or 0 for the empty chain.
pub open spec fn covered(p: Seq<Range<usize>>) -> int {
    if p.len() == 0 {
        0
    } else {
        p.last().end as int
    }
}

/// `p` is a partition of the node set `[0, n)`.
pub open spec fn is_partition(p: Seq<Range<usize>>, n: int) -> bool {
    contiguous(p) && covered(p) == n
}

/// The sum of the widths `end - start` of the ranges of `p`.
pub open spec fn total_width(p: Seq<Range<usize>>) -> int
    decreases p.len(),
{
    if p.len() == 0 {
        0
    } else {
        total_width(p.drop_last()) + (p.last().end - p.last().start)
    }
}

/// The sum of the costs of the nodes in `[lo, hi)`.
pub open spec fn cost_sum(costs: Seq<usize>, lo: int, hi: int) -> int
    decreases hi - lo,
{
    if hi <= lo {
        0
    } else {
        cost_sum(costs, lo, hi - 1) + costs[hi - 1]
    }
}

/// `p` is the partition that the greedy pass makes of the nodes `[0, costs.len())`.
///
/// Every range is non-empty. Each range but the last has reached `batch_size`.
/// While fewer than `max_batches - 1` ranges were closed, a range was closed at
/// the first node at which its cost reached `batch_size`: none of its proper
/// prefixes reaches it. The range with index `max_batches - 1`, if there is
/// one, takes all nodes that are left.
pub open spec fn is_greedy_partition(
    costs: Seq<usize>,
    batch_size: int,
    max_batches: int,
    p: Seq<Range<usize>>,
) -> bool {
    &&& is_partition(p, costs.len() as int)
    &&& 1 <= p.len() <= max_batches
    &&& forall|i: int| 0 <= i < p.len() ==> (#[trigger] p[i]).start < p[i].end
    &&& forall|i: int|
        0 <= i < p.len() - 1 ==> cost_sum(costs, (#[trigger] p[i]).start as int, p[i].end as int)
            >= batch_size
    &&& forall|i: int, w: int|
        0 <= i < p.len() && i < max_batches - 1 && p[i].start < w < p[i].end ==> #[trigger] cost_sum(
            costs,
            p[i].start as int,
            w,
        ) < batch_size
}

/// In a contiguous chain, later ranges begin and end no earlier than earlier ones.
pub proof fn lemma_contiguous_ordered(p: Seq<Range<usize>>, i: int, j: int)
    requires
        contiguous(p),
        0 <= i <= j < p.len(),
    ensures
        p[i].start <= p[j].start,
        p[i].end <= p[j].end,
        i < j ==> p[i].end <= p[j].start,
    decreases j - i,
{
    if i < j {
        lemma_contiguous_ordered(p, i, j - 1);
    }
}

/// The range of a partition of `[0, n)` in which a node lies.
pub proof fn lemma_range_of_node(partition: Seq<Range<usize>>, node: int) -> (i: int)
    requires
        contiguous(partition),
        0 <= node < covered(partition),
    ensures
        0 <= i < partition.len(),
        partition[i].start <= node < partition[i].end,
    decreases partition.len(),
{
    let last = partition.len() - 1;
    if partition[last].start <= node {
        last
    } else {
        lemma_range_of_node(partition.take(last), node)
    }
}

/// The widths of a contiguous chain add up to the node at which it stops.
pub proof fn lemma_total_width_of_contiguous(p: Seq<Range<usize>>)
    requires
        contiguous(p),
    ensures
        total_width(p) == covered(p),
    decreases p.len(),
{
    if p.len() > 0 {
        lemma_total_width_of_contiguous(p.drop_last());
    }
}

/// The cost of `[lo, hi)` depends on the costs below `hi` only.
pub proof fn lemma_cost_sum_agrees(a: Seq<usize>, b: Seq<usize>, lo: int, hi: int)
    requires
        0 <= lo,
        hi <= a.len(),
        hi <= b.len(),
        forall|k: int| lo <= k < hi ==> a[k] == b[k],
    ensures
        cost_sum(a, lo, hi) == cost_sum(b, lo, hi),
    decreases hi - lo,
{
    if lo < hi {
        lemma_cost_sum_agrees(a, b, lo, hi - 1);
    }
}

/// The cost of a range grows with the range.
pub proof fn lemma_cost_sum_monotone(costs: Seq<usize>, lo: int, mid: int, hi: int)
    requires
        lo <= mid <= hi,
    ensures
        0 <= cost_sum(costs, lo, mid) <= cost_sum(costs, lo, hi),
    decreases hi - lo,
{
    if lo < hi {
        if mid < hi {
            lemma_cost_sum_monotone(costs, lo, mid, hi - 1);
        } else {
            lemma_cost_sum_monotone(costs, lo, lo, hi - 1);
        }
    }
}

/// Two greedy partitions of the same costs agree on every range that both have.
proof fn lemma_greedy_ranges_agree(
    costs: Seq<usize>,
    batch_size: int,
    max_batches: int,
    p: Seq<Range<usize>>,
    q: Seq<Range<usize>>,
    i: int,
)
    requires
        is_greedy_partition(costs, batch_size, max_batches, p),
        is_greedy_partition(costs, batch_size, max_batches, q),
        0 <= i < p.len(),
        i < q.len(),
    ensures
        p[i] == q[i],
    decreases i,
{
    if i > 0 {
        lemma_greedy_ranges_agree(costs, batch_size, max_batches, p, q, i - 1);
    }
    lemma_contiguous_ordered(p, i, p.len() - 1);
    lemma_contiguous_ordered(q, i, q.len() - 1);
}

/// The greedy partition is determined by the costs, the batch size and the
/// number of batches: any two partitions that `is_greedy_partition` accepts for
/// them are the same sequence of ranges.
pub proof fn lemma_greedy_partition_unique(
    costs: Seq<usize>,
    batch_size: int,
    max_batches: int,
    p: Seq<Range<usize>>,
    q: Seq<Range<usize>>,
)
    requires
        is_greedy_partition(costs, batch_size, max_batches, p),
        is_greedy_partition(costs, batch_size, max_batches, q),
    ensures
        p == q,
{
    let k = if p.len() <= q.len() { p.len() as int } else { q.len() as int };
    lemma_greedy_ranges_agree(costs, batch_size, max_batches, p, q, k - 1);
    if p.len() < q.len() {
        lemma_contiguous_ordered(q, k, q.len() - 1);
    } else if q.len() < p.len() {
        lemma_contiguous_ordered(p, k, p.len() - 1);
    }
    assert forall|i: int| 0 <= i < p.len() implies p[i] == q[i] by {
        lemma_greedy_ranges_agree(costs, batch_size, max_batches, p, q, i);
    }
}

/// Tells whether the ranges are contiguous: whether each begins where the one
/// before it ends, the first at node 0, and none runs backwards.
pub fn is_contiguous(partition: &[Range<usize>]) -> (yes: bool)
    ensures
        yes == contiguous(partition@),
{
    let mut expected_start: usize = 0;
    let mut i: usize = 0;
    while i < partition.len()
        invariant
            i <= partition@.len(),
            contiguous(partition@.take(i as int)),
            expected_start == covered(partition@.take(i as int)),
        decreases partition@.len() - i,
    {
        if partition[i].start != expected_start || partition[i].end < partition[i].start {
            return false;
        }
        expected_start = partition[i].end;
        i += 1;
    }
    proof {
        assert(partition@.take(partition@.len() as int) =~= partition@);
    }
    true
}

/// Cuts the nodes `[0, node_count)` into at most `max_batches` contiguous
/// ranges in one pass: a range is closed as soon as the costs of its nodes add
/// up to `batch_size`, until only one range is left to give out, which takes
/// the remaining nodes.
///
/// The running cost saturates at `usize::MAX`; since `batch_size` is no larger,
/// it compares with `batch_size` as the exact sum does.
pub fn greedy_node_map_partition<F>(
    node_map: F,
    node_count: usize,
    batch_size: usize,
    max_batches: usize,
) -> (partitions: Vec<Range<usize>>) where F: Fn(usize) -> usize
    requires
        node_count >= 1,
        max_batches >= 1,
        forall|node: usize| node < node_count ==> call_requires(node_map, (node,)),
    ensures
        exists|costs: Seq<usize>|
            {
                &&& costs.len() == node_count
                &&& forall|node: int|
                    0 <= node < node_count ==> call_ensures(
                        node_map,
                        (node as usize,),
                        #[trigger] costs[node],
                    )
                &&& is_greedy_partition(costs, batch_size as int, max_batches as int, partitions@)
            },
{
    let mut partitions: Vec<Range<usize>> = Vec::new();
    let mut partition_size: usize = 0;
    let mut partition_start: usize = 0;
    let upper_bound = node_count - 1;
    let ghost mut costs: Seq<usize> = Seq::empty();

    let mut node: usize = 0;
    while node < node_count
        invariant
            node_count >= 1,
            max_batches >= 1,
            upper_bound == node_count - 1,
            forall|node: usize| node < node_count ==> call_requires(node_map, (node,)),
            node <= node_count,
            costs.len() == node,
            forall|v: int| 0 <= v < node ==> call_ensures(node_map, (v as usize,), #[trigger] costs[v]),
            partition_start <= node,
            node < node_count ==> partitions@.len() <= max_batches - 1,
            partitions@.len() <= max_batches,
            contiguous(partitions@),
            covered(partitions@) == partition_start,
            node == node_count ==> partition_start == node_count,
            forall|i: int|
                0 <= i < partitions@.len() ==> (#[trigger] partitions@[i]).start < partitions@[i].end,
            forall|i: int|
                0 <= i < partitions@.len() && (#[trigger] partitions@[i]).end < node_count ==> cost_sum(
                    costs,
                    partitions@[i].start as int,
                    partitions@[i].end as int,
                ) >= batch_size,
            forall|i: int, w: int|
                0 <= i < partitions@.len() && i < max_batches - 1 && partitions@[i].start < w
                    < partitions@[i].end ==> #[trigger] cost_sum(costs, partitions@[i].start as int, w)
                    < batch_size,
            partition_size == if cost_sum(costs, partition_start as int, node as int) <= usize::MAX {
                cost_sum(costs, partition_start as int, node as int)
            } else {
                usize::MAX as int
            },
            partitions@.len() < max_batches - 1 ==> forall|w: int|
                partition_start < w <= node ==> #[trigger] cost_sum(costs, partition_start as int, w)
                    < batch_size,
        decreases node_count - node,
    {
        let cost = node_map(node);
        proof {
            let before = costs;
            costs = costs.push(cost);
            assert forall|i: int|
                0 <= i < partitions@.len() && (#[trigger] partitions@[i]).end < node_count implies cost_sum(
                costs,
                partitions@[i].start as int,
                partitions@[i].end as int,
            ) >= batch_size by {
                lemma_contiguous_ordered(partitions@, i, partitions@.len() - 1);
                lemma_cost_sum_agrees(
                    before,
                    costs,
                    partitions@[i].start as int,
                    partitions@[i].end as int,
                );
            }
            assert forall|i: int, w: int|
                0 <= i < partitions@.len() && i < max_batches - 1 && partitions@[i].start < w
                    < partitions@[i].end implies #[trigger] cost_sum(
                costs,
                partitions@[i].start as int,
                w,
            ) < batch_size by {
                lemma_contiguous_ordered(partitions@, i, partitions@.len() - 1);
                lemma_cost_sum_agrees(before, costs, partitions@[i].start as int, w);
            }
            if partitions@.len() < max_batches - 1 {
                assert forall|w: int| partition_start < w <= node implies #[trigger] cost_sum(
                    costs,
                    partition_start as int,
                    w,
                ) < batch_size by {
                    lemma_cost_sum_agrees(before, costs, partition_start as int, w);
                }
            }
            lemma_cost_sum_agrees(before, costs, partition_start as int, node as int);
        }
        partition_size = partition_size.saturating_add(cost);

        if (partitions.len() < max_batches - 1 && partition_size >= batch_size) || node
            == upper_bound {
            let partition_end = node + 1;
            partitions.push(partition_start..partition_end);
            partition_size = 0;
            partition_start = partition_end;
        }
        node += 1;
    }
    proof {
        let p = partitions@;
        assert forall|i: int| 0 <= i < p.len() - 1 implies cost_sum(
            costs,
            (#[trigger] p[i]).start as int,
            p[i].end as int,
        ) >= batch_size by {
            lemma_contiguous_ordered(p, i + 1, p.len() - 1);
        }
    }
    partitions
}

} // verus!
