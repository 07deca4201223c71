//! Relabeling of an undirected graph in descending order of degree: the node
//! of the largest degree becomes node 0, and every neighbor list is rewritten
//! in the new ids and sorted.

use crate::csr::{
    adjacency_of, adjacency_valid, degrees, entry_count, lemma_adjacency_of_csr_valid,
    lemma_degree_sum, Adjacency, Csr,
};
use crate::graph::{FromCsr, Graph, UndirectedGraph};
use crate::order::{ascending, descending_pairs, par_sort_largest_first, sort_smallest_first};
use crate::par::{is_index, par_for_each_item, par_map_collect};
use crate::partition::{
    cost_sum, lemma_cost_sum_agrees, lemma_cost_sum_monotone, lemma_range_of_node,
};
use crate::split::{lemma_flatten_by_partition, lemma_flatten_length, split_by_partition};
use std::ops::Range;
use vstd::prelude::*;
use vstd::relations::sorted_by;
use vstd::seq_lib::lemma_sorted_unique;

verus! {

/// The degree of every node, paired with the node, in the order of the nodes.
pub open spec fn degree_pairs(adj: Adjacency) -> Seq<(usize, usize)> {
    Seq::new(adj.len(), |v: int| (adj[v].len() as usize, v as usize))
}

/// The degree-node pairs from the largest down: by descending degree, and
/// among nodes of one degree by descending id. The node at index `i` is the one
/// that gets the new id `i`.
pub open spec fn degree_order(adj: Adjacency) -> Seq<(usize, usize)> {
    degree_pairs(adj).sort_by(descending_pairs())
}

/// The first components of the pairs.
pub open spec fn degrees_of(pairs: Seq<(usize, usize)>) -> Seq<usize> {
    Seq::new(pairs.len(), |i: int| pairs[i].0)
}

/// The second components of the pairs.
pub open spec fn nodes_of(pairs: Seq<(usize, usize)>) -> Seq<usize> {
    Seq::new(pairs.len(), |i: int| pairs[i].1)
}

/// The inverse of a permutation: at `v`, the index at which `ids` holds `v`.
pub open spec fn inverse(ids: Seq<usize>) -> Seq<usize> {
    Seq::new(ids.len(), |v: int| ids.index_of(v as usize) as usize)
}

/// The new id of every node: `id_map(adj)[old]` is the index of `old` in the
/// degree order.
pub open spec fn id_map(adj: Adjacency) -> Seq<usize> {
    inverse(nodes_of(degree_order(adj)))
}

/// The graph relabeled in descending order of degree. The list of the new
/// node `i` is the list of the node that stands at index `i` of the degree
/// order, written in the new ids and sorted ascending.
pub open spec fn degree_ordered(adj: Adjacency) -> Adjacency {
    Seq::new(
        adj.len(),
        |i: int|
            relabel_list(adj[degree_order(adj)[i].1 as int], id_map(adj)).sort_by(ascending()),
    )
}

/// Every node id below `ids.len()` occurs in `ids`, and none occurs twice.
pub open spec fn is_permutation(ids: Seq<usize>) -> bool {
    &&& ids.len() <= usize::MAX
    &&& forall|i: int| 0 <= i < ids.len() ==> (#[trigger] ids[i]) < ids.len()
    &&& forall|i: int, j: int| 0 <= i < j < ids.len() ==> (#[trigger] ids[i]) != (#[trigger] ids[j])
    &&& forall|v: int| 0 <= v < ids.len() ==> #[trigger] ids.contains(v as usize)
}

/// A neighbor list in the new ids: entry `w` becomes `ids[w]`, in place.
pub open spec fn relabel_list(list: Seq<usize>, ids: Seq<usize>) -> Seq<usize> {
    Seq::new(list.len(), |k: int| ids[list[k] as int])
}

/// `offsets` carves the target buffer into one range per node of `adj`, the
/// range of node `u` lying at its new id `nodes[u]` and having the width of
/// the degree of `u`. The ranges of different nodes are disjoint, because
/// the new ids are a permutation and the offsets never decrease.
pub open spec fn carved(adj: Adjacency, nodes: Seq<usize>, offsets: Seq<usize>) -> bool {
    &&& nodes.len() == adj.len()
    &&& offsets.len() == adj.len() + 1
    &&& is_permutation(nodes)
    &&& offsets[0] == 0
    &&& forall|i: int, j: int| 0 <= i <= j < offsets.len() ==> offsets[i] <= offsets[j]
    &&& forall|u: int|
        0 <= u < adj.len() ==> offsets[(#[trigger] nodes[u]) + 1] - offsets[nodes[u] as int]
            == adj[u].len()
}

/// The ranges that the offsets carve out of the target buffer: range `i` is
/// `offsets[i]..offsets[i + 1]`.
pub open spec fn carved_ranges(offsets: Seq<usize>) -> Seq<Range<usize>> {
    Seq::new((offsets.len() - 1) as nat, |i: int| offsets[i]..offsets[i + 1])
}

/// The ranges that the offsets carve out of the target buffer, one per node.
fn ranges_of(offsets: &[usize]) -> (ranges: Vec<Range<usize>>)
    requires
        offsets@.len() >= 1,
    ensures
        ranges@ == carved_ranges(offsets@),
{
    let node_count = offsets.len() - 1;
    let mut ranges: Vec<Range<usize>> = Vec::with_capacity(node_count);
    let mut i: usize = 0;
    while i < node_count
        invariant
            node_count == offsets@.len() - 1,
            i <= node_count,
            ranges@.len() == i,
            forall|j: int| 0 <= j < i ==> ranges@[j] == carved_ranges(offsets@)[j],
        decreases node_count - i,
    {
        ranges.push(offsets[i]..offsets[i + 1]);
        i += 1;
    }
    ranges
}

/// The inverse of a permutation of the node ids: where `ids` holds `v` at
/// index `i`, the inverse holds `i` at index `v`. Each index is written to the
/// place of its id, and no two go to the same place.
fn inverse_of(ids: &[usize]) -> (inverted: Vec<usize>)
    requires
        is_permutation(ids@),
    ensures
        inverted@ == inverse(ids@),
{
    let node_count = ids.len();
    let mut inverted: Vec<usize> = vec![0; node_count];
    let mut i: usize = 0;
    while i < node_count
        invariant
            is_permutation(ids@),
            node_count == ids@.len(),
            i <= node_count,
            inverted@.len() == node_count,
            forall|done: int| 0 <= done < i ==> inverted@[(#[trigger] ids@[done]) as int] == done,
        decreases node_count - i,
    {
        inverted[ids[i]] = i;
        i += 1;
    }
    proof {
        lemma_inverse(ids@);
    }
    inverted
}

/// A list in the new ids, sorted, is as long as the list was and holds
/// new ids only.
pub proof fn lemma_relabeled_list(list: Seq<usize>, ids: Seq<usize>)
    requires
        forall|k: int| 0 <= k < list.len() ==> (#[trigger] list[k]) < ids.len(),
        forall|v: int| 0 <= v < ids.len() ==> (#[trigger] ids[v]) < ids.len(),
    ensures
        relabel_list(list, ids).sort_by(ascending()).len() == list.len(),
        relabel_list(list, ids).sort_by(ascending()).to_multiset() == relabel_list(
            list,
            ids,
        ).to_multiset(),
        forall|k: int|
            0 <= k < list.len() ==> (#[trigger] relabel_list(list, ids).sort_by(ascending())[k])
                < ids.len(),
{
    broadcast use vstd::seq_lib::group_to_multiset_ensures;

    let relabeled = relabel_list(list, ids);
    let sorted = relabeled.sort_by(ascending());
    relabeled.lemma_sort_by_ensures(ascending());
    assert(sorted.to_multiset().len() == relabeled.to_multiset().len());
    assert forall|k: int| 0 <= k < list.len() implies (#[trigger] sorted[k]) < ids.len() by {
        assert(sorted.to_multiset().count(sorted[k]) > 0);
    }
}

/// Writes the neighbor list of the node with the new id `new_id` into `list`,
/// its range of the target buffer: each neighbor `w` as `nodes[w]`, in the
/// order of the neighbors, and then sorted ascending.
pub fn relabel_list_into<G: UndirectedGraph>(
    graph: &G,
    nodes: &[usize],
    old_ids: &[usize],
    new_id: usize,
    list: &mut [usize],
)
    requires
        graph.wf(),
        nodes@.len() == graph.spec_node_count(),
        forall|v: int| 0 <= v < nodes@.len() ==> (#[trigger] nodes@[v]) < nodes@.len(),
        new_id < old_ids@.len(),
        old_ids@[new_id as int] < graph.spec_node_count(),
        old(list)@.len() == graph.adjacency()[old_ids@[new_id as int] as int].len(),
    ensures
        final(list)@ == relabel_list(
            graph.adjacency()[old_ids@[new_id as int] as int],
            nodes@,
        ).sort_by(ascending()),
{
    proof {
        graph.lemma_undirected();
    }
    let u = old_ids[new_id];
    let neighbors = graph.neighbors(u);
    let mut k: usize = 0;
    while k < neighbors.len()
        invariant
            adjacency_valid(graph.adjacency()),
            u < graph.adjacency().len(),
            neighbors@ == graph.adjacency()[u as int],
            nodes@.len() == graph.adjacency().len(),
            k <= neighbors@.len(),
            list@.len() == neighbors@.len(),
            forall|j: int| 0 <= j < k ==> list@[j] == nodes@[neighbors@[j] as int],
        decreases neighbors@.len() - k,
    {
        let v = neighbors[k];
        list[k] = nodes[v];
        k += 1;
    }
    let ghost unsorted = list@;
    assert(unsorted =~= relabel_list(graph.adjacency()[u as int], nodes@));
    sort_smallest_first(list);
    proof {
        unsorted.lemma_sort_by_ensures(ascending());
        lemma_sorted_unique(list@, unsorted.sort_by(ascending()), ascending());
    }
}

/// Writes the neighbor lists in the new ids into one buffer of targets: the
/// list of node `u` goes to the range that `offsets` gives its new id
/// `nodes[u]`, each neighbor `w` as `nodes[w]`, and is then sorted ascending.
///
/// The buffer is carved into the ranges of the new ids, which are disjoint,
/// and the ranges are filled in parallel, each by its own task.
pub fn relabel_targets<G: UndirectedGraph + Sync>(
    graph: &G,
    nodes: Vec<usize>,
    offsets: &[usize],
) -> (targets: Vec<usize>)
    requires
        graph.wf(),
        carved(graph.adjacency(), nodes@, offsets@),
    ensures
        targets@.len() == offsets@[graph.adjacency().len() as int],
        forall|u: int|
            #![trigger nodes@[u]]
            0 <= u < graph.adjacency().len() ==> targets@.subrange(
                offsets@[nodes@[u] as int] as int,
                offsets@[nodes@[u] + 1] as int,
            ) == relabel_list(graph.adjacency()[u], nodes@).sort_by(ascending()),
        forall|k: int| 0 <= k < targets@.len() ==> (#[trigger] targets@[k]) < graph.adjacency().len(),
{
    proof {
        graph.lemma_undirected();
        lemma_inverse(nodes@);
    }
    let ghost adj = graph.adjacency();
    let node_count = graph.node_count();
    let edge_count = offsets[node_count];
    let mut targets: Vec<usize> = vec![0; edge_count];
    let old_ids = inverse_of(nodes.as_slice());
    let ranges = ranges_of(offsets);
    let ghost sorted_lists = Seq::new(
        node_count as nat,
        |i: int| relabel_list(adj[old_ids@[i] as int], nodes@).sort_by(ascending()),
    );
    proof {
        assert forall|i: int| 0 <= i < node_count implies (#[trigger] sorted_lists[i]).len()
            == ranges@[i].end - ranges@[i].start && (forall|k: int|
            0 <= k < sorted_lists[i].len() ==> (#[trigger] sorted_lists[i][k]) < node_count) by {
            let u = old_ids@[i] as int;
            lemma_relabeled_list(adj[u], nodes@);
        }
    }

    let mut lists = split_by_partition(ranges.as_slice(), targets.as_mut_slice());
    let ghost given_back = Seq::new(lists@.len(), |i: int| final(lists@[i])@);
    let ghost handed_out = lists@;
    let relabel = |new_id: usize, list: &mut &mut [usize]|
        requires
            new_id < node_count,
            (*list)@.len() == graph.adjacency()[old_ids@[new_id as int] as int].len(),
        ensures
            final(*final(list))@ == final(*old(list))@,
            (*final(list))@ == relabel_list(
                graph.adjacency()[old_ids@[new_id as int] as int],
                nodes@,
            ).sort_by(ascending()),
        { relabel_list_into(graph, nodes.as_slice(), old_ids.as_slice(), new_id, list) };
    par_for_each_item(lists.as_mut_slice(), &relabel);
    proof {
        let after = Seq::new(lists@.len(), |i: int| lists@[i]@);
        assert forall|i: int| 0 <= i < after.len() implies after[i] == given_back[i] && after[i]
            == sorted_lists[i] by {
            assert(is_index(i, handed_out.len() as int));
        }
        assert(after =~= given_back);
        assert(after =~= sorted_lists);
    }
    proof {
        lemma_flatten_length(sorted_lists, ranges@);
        assert forall|u: int| #![trigger nodes@[u]] 0 <= u < adj.len() implies targets@.subrange(
            offsets@[nodes@[u] as int] as int,
            offsets@[nodes@[u] + 1] as int,
        ) == relabel_list(adj[u], nodes@).sort_by(ascending()) by {
            let i = nodes@[u] as int;
            let piece = targets@.subrange(offsets@[i] as int, offsets@[i + 1] as int);
            assert forall|k: int| 0 <= k < piece.len() implies piece[k] == sorted_lists[i][k] by {
                lemma_flatten_by_partition(sorted_lists, ranges@, i, k);
            }
        }
        assert forall|k: int| 0 <= k < targets@.len() implies (#[trigger] targets@[k])
            < adj.len() by {
            let i = lemma_range_of_node(ranges@, k);
            lemma_flatten_by_partition(sorted_lists, ranges@, i, k - ranges@[i].start);
        }
    }
    targets
}

/// A permutation and its inverse undo each other, and the inverse is a
/// permutation too.
pub proof fn lemma_inverse(ids: Seq<usize>)
    requires
        is_permutation(ids),
    ensures
        inverse(ids).len() == ids.len(),
        forall|i: int| 0 <= i < ids.len() ==> inverse(ids)[(#[trigger] ids[i]) as int] == i,
        forall|v: int| 0 <= v < ids.len() ==> ids[(#[trigger] inverse(ids)[v]) as int] == v,
        is_permutation(inverse(ids)),
{
    let inv = inverse(ids);
    assert forall|v: int| 0 <= v < ids.len() implies 0 <= (#[trigger] inv[v]) < ids.len()
        && ids[inv[v] as int] == v by {
        assert(ids.contains(v as usize));
    }
    assert forall|v: int| 0 <= v < inv.len() implies #[trigger] inv.contains(v as usize) by {
        assert(inv[ids[v] as int] == v);
    }
}

/// Unzips the sorted degree-node pairs: `degrees` takes the degree at every
/// index, which is the degree of the node with that new id, and `nodes` maps
/// every old node id to its new id, the index at which its pair stands.
///
/// No two new ids go to the same place of `nodes`, because the old ids are a
/// permutation.
pub fn unzip_degrees_and_nodes(degree_node_pairs: Vec<(usize, usize)>) -> (unzipped: (
    Vec<usize>,
    Vec<usize>,
))
    requires
        is_permutation(nodes_of(degree_node_pairs@)),
    ensures
        unzipped.0@ == degrees_of(degree_node_pairs@),
        unzipped.1@ == inverse(nodes_of(degree_node_pairs@)),
{
    let node_count = degree_node_pairs.len();
    let degree_at = |n: usize| -> (degree: usize)
        requires
            n < degree_node_pairs@.len(),
        ensures
            degree == degree_node_pairs@[n as int].0,
        { degree_node_pairs[n].0 };
    let node_at = |n: usize| -> (node: usize)
        requires
            n < degree_node_pairs@.len(),
        ensures
            node == degree_node_pairs@[n as int].1,
        { degree_node_pairs[n].1 };
    let degrees = par_map_collect(node_count, &degree_at);
    let old_ids = par_map_collect(node_count, &node_at);
    assert(old_ids@ =~= nodes_of(degree_node_pairs@));
    let nodes = inverse_of(old_ids.as_slice());
    (degrees, nodes)
}

/// The exclusive prefix sums of the degrees: the offsets of a
/// compressed-sparse-row container whose node `i` has `degrees[i]` targets.
pub fn prefix_sum(degrees: Vec<usize>) -> (offsets: Vec<usize>)
    requires
        cost_sum(degrees@, 0, degrees@.len() as int) <= usize::MAX,
    ensures
        offsets@.len() == degrees@.len() + 1,
        forall|i: int| 0 <= i <= degrees@.len() ==> offsets@[i] == cost_sum(degrees@, 0, i),
{
    let mut offsets: Vec<usize> = Vec::new();
    let mut total: usize = 0;
    offsets.push(total);
    let mut i: usize = 0;
    while i < degrees.len()
        invariant
            cost_sum(degrees@, 0, degrees@.len() as int) <= usize::MAX,
            i <= degrees@.len(),
            offsets@.len() == i + 1,
            total == cost_sum(degrees@, 0, i as int),
            forall|j: int| 0 <= j <= i ==> offsets@[j] == cost_sum(degrees@, 0, j),
        decreases degrees@.len() - i,
    {
        proof {
            lemma_cost_sum_monotone(degrees@, 0, i + 1, degrees@.len() as int);
        }
        total = total + degrees[i];
        offsets.push(total);
        i += 1;
    }
    offsets
}

/// What the degree order is made of: it holds the pair of every node once,
/// from the largest pair down.
pub proof fn lemma_degree_order(adj: Adjacency)
    requires
        adjacency_valid(adj),
    ensures
        degree_order(adj).len() == adj.len(),
        degree_order(adj).to_multiset() == degree_pairs(adj).to_multiset(),
        sorted_by(degree_order(adj), descending_pairs()),
        is_permutation(nodes_of(degree_order(adj))),
        forall|i: int|
            0 <= i < adj.len() ==> (#[trigger] degree_order(adj)[i]).0 == adj[degree_order(
                adj,
            )[i].1 as int].len(),
{
    broadcast use vstd::seq_lib::group_to_multiset_ensures;

    let pairs = degree_pairs(adj);
    let order = degree_order(adj);
    pairs.lemma_sort_by_ensures(descending_pairs());
    assert(order.len() == pairs.len()) by {
        assert(order.to_multiset().len() == pairs.to_multiset().len());
    }
    assert forall|v: int| 0 <= v < adj.len() implies adj[v].len() <= usize::MAX by {
        lemma_degree_sum(adj, v + 1);
    }
    assert forall|i: int| 0 <= i < order.len() implies (#[trigger] order[i]).1 < adj.len()
        && order[i].0 == adj[order[i].1 as int].len() by {
        assert(order.to_multiset().count(order[i]) > 0);
    }
    pairs.lemma_multiset_has_no_duplicates();
    order.lemma_multiset_has_no_duplicates_conv();
    let ids = nodes_of(order);
    assert forall|v: int| 0 <= v < ids.len() implies #[trigger] ids.contains(v as usize) by {
        assert(pairs.to_multiset().count(pairs[v]) > 0);
        let i = choose|i: int| 0 <= i < order.len() && order[i] == pairs[v];
        assert(ids[i] == v);
    }
}

/// Extracts the degree-node pairs of the graph and sorts them from the
/// largest down: by descending degree, and among nodes of one degree by
/// descending id.
pub fn sort_by_degree_desc<G: UndirectedGraph + Sync>(graph: &G) -> (degree_node_pairs: Vec<
    (usize, usize),
>)
    requires
        graph.wf(),
    ensures
        degree_node_pairs@ == degree_order(graph.adjacency()),
{
    proof {
        graph.lemma_undirected();
    }
    let node_count = graph.node_count();
    let degree_node_pair = |node: usize| -> (pair: (usize, usize))
        requires
            node < graph.spec_node_count(),
        ensures
            pair == (graph.adjacency()[node as int].len() as usize, node),
        { (graph.degree(node), node) };
    let mut degree_node_pairs = par_map_collect(node_count, &degree_node_pair);
    assert(degree_node_pairs@ =~= degree_pairs(graph.adjacency()));
    par_sort_largest_first(&mut degree_node_pairs);
    proof {
        lemma_degree_order(graph.adjacency());
        lemma_sorted_unique(
            degree_node_pairs@,
            degree_order(graph.adjacency()),
            descending_pairs(),
        );
    }
    degree_node_pairs
}

/// Adds the first component of a pair to a running total.
spec fn add_degree() -> spec_fn(int, (usize, usize)) -> int {
    |total: int, pair: (usize, usize)| total + pair.0
}

/// The sum of the first components, taken as a fold over the pairs.
proof fn lemma_degrees_of_sum(pairs: Seq<(usize, usize)>)
    ensures
        cost_sum(degrees_of(pairs), 0, pairs.len() as int) == pairs.fold_left(0int, add_degree()),
    decreases pairs.len(),
{
    if pairs.len() > 0 {
        let front = pairs.drop_last();
        lemma_degrees_of_sum(front);
        lemma_cost_sum_agrees(degrees_of(front), degrees_of(pairs), 0, front.len() as int);
    }
}

/// The degrees in the degree order add up to what the degrees add up to in
/// the order of the nodes: the number of entries of the adjacency.
pub proof fn lemma_degree_order_sum(adj: Adjacency)
    requires
        adjacency_valid(adj),
    ensures
        cost_sum(degrees_of(degree_order(adj)), 0, adj.len() as int) == entry_count(
            adj,
            adj.len() as int,
        ),
{
    let pairs = degree_pairs(adj);
    let order = degree_order(adj);
    lemma_degree_order(adj);
    lemma_degrees_of_sum(pairs);
    lemma_degrees_of_sum(order);
    vstd::seq_lib::lemma_fold_left_permutation(order, pairs, add_degree(), 0int);
    assert(degrees_of(pairs) =~= degrees(adj));
    lemma_degree_sum(adj, adj.len() as int);
}

/// Relabels the graph in descending order of degree: sorts the degree-node
/// pairs, unzips them into the new degrees and the id map, takes the prefix
/// sums of the new degrees as offsets, writes the relabeled, sorted lists into
/// the ranges that the offsets carve out, and builds the new graph from the
/// offsets and the targets.
pub fn relabel_by_degree<G: FromCsr + Sync>(graph: &G) -> (relabeled: G)
    requires
        graph.wf(),
    ensures
        relabeled.wf(),
        relabeled.adjacency() == degree_ordered(graph.adjacency()),
        relabeled.spec_node_count() == graph.spec_node_count(),
        relabeled.spec_edge_count() == graph.spec_edge_count(),
{
    let ghost adj = graph.adjacency();
    let ghost order = degree_order(adj);
    let ghost ids = nodes_of(order);
    proof {
        graph.lemma_undirected();
        lemma_degree_order(adj);
        lemma_degree_order_sum(adj);
        lemma_inverse(ids);
    }
    let degree_node_pairs = sort_by_degree_desc(graph);
    let (degrees, nodes) = unzip_degrees_and_nodes(degree_node_pairs);
    let offsets = prefix_sum(degrees);
    proof {
        assert forall|i: int, j: int| 0 <= i <= j < offsets@.len() implies offsets@[i]
            <= offsets@[j] by {
            lemma_cost_sum_monotone(degrees_of(order), 0, i, j);
        }
    }
    let targets = relabel_targets(graph, nodes, offsets.as_slice());
    proof {
        assert(offsets@.len() == offsets.len());
        let new_adj = adjacency_of(offsets@, targets@);
        assert forall|i: int| 0 <= i < adj.len() implies new_adj[i] == degree_ordered(adj)[i] by {
            let u = ids[i] as int;
        }
        lemma_adjacency_of_csr_valid(offsets@, targets@);
    }
    let relabeled = G::from_csr(Csr::new(offsets, targets));
    proof {
        relabeled.lemma_undirected();
    }
    relabeled
}

/// Relabel the nodes of a graph by degree.
pub trait RelabelByDegreeOp: UndirectedGraph + Sized {
    /// Creates a new graph by relabeling the node ids of the given graph in
    /// descending order of degree: the node with the largest degree becomes
    /// node 0, the node with the smallest degree becomes the last node. The new
    /// graph has as many nodes and edges as the given one.
    fn to_degree_ordered(&self) -> (graph: Self)
        requires
            self.wf(),
        ensures
            graph.wf(),
            graph.adjacency() == degree_ordered(self.adjacency()),
            graph.spec_node_count() == self.spec_node_count(),
            graph.spec_edge_count() == self.spec_edge_count(),
    ;
}

impl<G: FromCsr + Sync> RelabelByDegreeOp for G {
    fn to_degree_ordered(&self) -> (graph: Self) {
        relabel_by_degree(self)
    }
}

} // verus!
