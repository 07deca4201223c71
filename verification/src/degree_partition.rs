//! Partitions of the node set into ranges of roughly equal total degree.

use crate::csr::{adjacency_valid, degrees, Adjacency};
use crate::graph::{DirectedGraph, Graph, UndirectedGraph};
use crate::partition::{cost_sum, greedy_node_map_partition, is_greedy_partition, is_partition};
use std::ops::Range;
use vstd::prelude::*;

verus! {

/// `total / parts`, rounded up.
pub open spec fn ceil_div(total: int, parts: int) -> int {
    if total % parts == 0 {
        total / parts
    } else {
        total / parts + 1
    }
}

/// `ceil_div(total, parts)` is the least number of which `parts` copies reach
/// `total`.
pub proof fn lemma_ceil_div(total: int, parts: int)
    requires
        total >= 0,
        parts >= 1,
    ensures
        0 <= ceil_div(total, parts) <= total,
        parts * ceil_div(total, parts) >= total,
        parts * (ceil_div(total, parts) - 1) < total,
{
    let q = total / parts;
    let r = total % parts;
    assert(total == parts * q + r && 0 <= r < parts) by {
        vstd::arithmetic::div_mod::lemma_fundamental_div_mod(total, parts);
    }
    assert(q <= parts * q) by (nonlinear_arith)
        requires
            q >= 0,
            parts >= 1,
    ;
    assert(parts * (q + 1) == parts * q + parts) by (nonlinear_arith);
    assert(parts * (q - 1) == parts * q - parts) by (nonlinear_arith);
}

/// What a degree partition is: for the adjacency `adj`, a total degree
/// `total` and a `concurrency`, the greedy partition of the nodes by degree
/// with batches of `ceil_div(total, concurrency)`, at most `concurrency` of them.
pub open spec fn is_degree_partition(
    adj: Adjacency,
    total: int,
    concurrency: int,
    partition: Seq<Range<usize>>,
) -> bool {
    is_greedy_partition(degrees(adj), ceil_div(total, concurrency), concurrency, partition)
}

/// A degree partition has at most `concurrency` ranges; the ranges are
/// contiguous, begin at node 0 and end at the node count; and every range but
/// the last holds at least the batch size in degree. A range that holds less
/// is therefore the last one; where it has the index `concurrency - 1`, it is
/// the one that took the nodes that were left.
pub proof fn lemma_degree_partition_balanced(
    adj: Adjacency,
    total: int,
    concurrency: int,
    partition: Seq<Range<usize>>,
)
    requires
        is_degree_partition(adj, total, concurrency, partition),
    ensures
        partition.len() <= concurrency,
        is_partition(partition, adj.len() as int),
        forall|i: int|
            0 <= i < partition.len() - 1 ==> cost_sum(
                degrees(adj),
                (#[trigger] partition[i]).start as int,
                partition[i].end as int,
            ) >= ceil_div(total, concurrency),
{
}

/// The greedy partition of the nodes of `adj` by the degrees that `degree`
/// returns, with `total` as the total degree.
fn partition_by_degree<F>(
    degree: F,
    Ghost(adj): Ghost<Adjacency>,
    node_count: usize,
    total: usize,
    concurrency: usize,
) -> (partition: Vec<Range<usize>>) where F: Fn(usize) -> usize
    requires
        adjacency_valid(adj),
        node_count == adj.len(),
        node_count >= 1,
        concurrency >= 1,
        forall|node: usize| node < node_count ==> call_requires(degree, (node,)),
        forall|node: usize, d: usize|
            node < node_count && call_ensures(degree, (node,), d) ==> d == adj[node as int].len(),
    ensures
        is_degree_partition(adj, total as int, concurrency as int, partition@),
{
    proof {
        lemma_ceil_div(total as int, concurrency as int);
    }
    let quotient = total / concurrency;
    let batch_size = if total % concurrency == 0 {
        quotient
    } else {
        quotient + 1
    };
    let partition = greedy_node_map_partition(degree, node_count, batch_size, concurrency);
    proof {
        let costs = choose|costs: Seq<usize>|
            {
                &&& costs.len() == node_count
                &&& forall|node: int|
                    0 <= node < node_count ==> call_ensures(
                        degree,
                        (node as usize,),
                        #[trigger] costs[node],
                    )
                &&& is_greedy_partition(
                    costs,
                    batch_size as int,
                    concurrency as int,
                    partition@,
                )
            };
        assert(costs =~= degrees(adj));
    }
    partition
}

/// Partition the node set based on the degrees of the nodes.
pub trait DegreePartitionOp: UndirectedGraph {
    /// Divides the nodes into at most `concurrency` ranges of roughly equal
    /// total degree: the greedy partition by degree, with a batch size of
    /// twice the edge count over `concurrency`, rounded up.
    fn degree_partition(&self, concurrency: usize) -> (partition: Vec<Range<usize>>)
        requires
            self.wf(),
            self.spec_node_count() >= 1,
            concurrency >= 1,
        ensures
            is_degree_partition(
                self.adjacency(),
                2 * (self.spec_edge_count() as int),
                concurrency as int,
                partition@,
            ),
    ;
}

impl<U: UndirectedGraph> DegreePartitionOp for U {
    fn degree_partition(&self, concurrency: usize) -> (partition: Vec<Range<usize>>) {
        proof {
            self.lemma_undirected();
        }
        let node_map = |node: usize| -> (d: usize)
            requires
                node < self.spec_node_count(),
            ensures
                d == self.adjacency()[node as int].len(),
            { self.degree(node) };
        partition_by_degree(
            node_map,
            Ghost(self.adjacency()),
            self.node_count(),
            self.edge_count() * 2,
            concurrency,
        )
    }
}

/// Partition the node set based on the out degrees of the nodes.
pub trait OutDegreePartitionOp: DirectedGraph {
    /// Divides the nodes into at most `concurrency` ranges of roughly equal
    /// total out degree: the greedy partition by out degree, with a batch size
    /// of the edge count over `concurrency`, rounded up.
    fn out_degree_partition(&self, concurrency: usize) -> (partition: Vec<Range<usize>>)
        requires
            self.wf(),
            self.spec_node_count() >= 1,
            concurrency >= 1,
        ensures
            is_degree_partition(
                self.out_adjacency(),
                self.spec_edge_count() as int,
                concurrency as int,
                partition@,
            ),
    ;
}

impl<D: DirectedGraph> OutDegreePartitionOp for D {
    fn out_degree_partition(&self, concurrency: usize) -> (partition: Vec<Range<usize>>) {
        proof {
            self.lemma_directed();
        }
        let node_map = |node: usize| -> (d: usize)
            requires
                node < self.spec_node_count(),
            ensures
                d == self.out_adjacency()[node as int].len(),
            { self.out_degree(node) };
        partition_by_degree(
            node_map,
            Ghost(self.out_adjacency()),
            self.node_count(),
            self.edge_count(),
            concurrency,
        )
    }
}

/// Partition the node set based on the in degrees of the nodes.
pub trait InDegreePartitionOp: DirectedGraph {
    /// Divides the nodes into at most `concurrency` ranges of roughly equal
    /// total in degree: the greedy partition by in degree, with a batch size
    /// of the edge count over `concurrency`, rounded up. The edge count is
    /// taken once, as for the out degrees: the in degrees add up to it.
    fn in_degree_partition(&self, concurrency: usize) -> (partition: Vec<Range<usize>>)
        requires
            self.wf(),
            self.spec_node_count() >= 1,
            concurrency >= 1,
        ensures
            is_degree_partition(
                self.in_adjacency(),
                self.spec_edge_count() as int,
                concurrency as int,
                partition@,
            ),
    ;
}

impl<D: DirectedGraph> InDegreePartitionOp for D {
    fn in_degree_partition(&self, concurrency: usize) -> (partition: Vec<Range<usize>>) {
        proof {
            self.lemma_directed();
        }
        let node_map = |node: usize| -> (d: usize)
            requires
                node < self.spec_node_count(),
            ensures
                d == self.in_adjacency()[node as int].len(),
            { self.in_degree(node) };
        partition_by_degree(
            node_map,
            Ghost(self.in_adjacency()),
            self.node_count(),
            self.edge_count(),
            concurrency,
        )
    }
}

} // verus!
