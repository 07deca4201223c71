//! What holds of every relabeled graph: it keeps the nodes, the edges and
//! the degrees; its degrees stand in descending order; the id map carries
//! every edge over with its multiplicity; and relabeling once more changes
//! none of the degrees.

use crate::csr::{adjacency_valid, degrees, entry_count, lemma_entry_count_of_lengths, Adjacency};
use crate::order::{ascending, descending, descending_pairs};
use crate::relabel::{
    degree_order, degree_ordered, degree_pairs, degrees_of, id_map, is_permutation,
    lemma_degree_order, lemma_degree_order_sum, lemma_inverse, nodes_of, relabel_list,
};
use vstd::prelude::*;
use vstd::relations::sorted_by;
use vstd::seq_lib::lemma_sorted_unique;

verus! {

/// Sequences that hold the same pairs hold the same first components.
proof fn lemma_degrees_of_multiset(a: Seq<(usize, usize)>, b: Seq<(usize, usize)>)
    requires
        a.to_multiset() == b.to_multiset(),
    ensures
        degrees_of(a).to_multiset() == degrees_of(b).to_multiset(),
    decreases a.len(),
{
    broadcast use vstd::seq_lib::group_to_multiset_ensures;

    a.to_multiset_ensures();
    b.to_multiset_ensures();
    if a.len() > 0 {
        let last = a.last();
        assert(a.to_multiset().count(last) > 0);
        let at = choose|at: int| 0 <= at < b.len() && b[at] == last;
        let a_rest = a.drop_last();
        let b_rest = b.remove(at);
        assert(a_rest.to_multiset() =~= a.to_multiset().remove(last)) by {
            assert(a_rest =~= a.remove(a.len() - 1));
        }
        lemma_degrees_of_multiset(a_rest, b_rest);
        assert(degrees_of(a) =~= degrees_of(a_rest).push(last.0));
        assert(degrees_of(b) =~= degrees_of(b_rest).insert(at, last.0));
    }
}

/// A list in the new ids holds the new id of a node as often as the list
/// held the node.
proof fn lemma_relabel_list_count(list: Seq<usize>, ids: Seq<usize>, node: int)
    requires
        is_permutation(ids),
        forall|k: int| 0 <= k < list.len() ==> (#[trigger] list[k]) < ids.len(),
        0 <= node < ids.len(),
    ensures
        relabel_list(list, ids).to_multiset().count(ids[node]) == list.to_multiset().count(
            node as usize,
        ),
    decreases list.len(),
{
    broadcast use vstd::seq_lib::group_to_multiset_ensures;

    if list.len() > 0 {
        let front = list.drop_last();
        let last = list.last();
        lemma_relabel_list_count(front, ids, node);
        assert(list =~= front.push(last));
        assert(relabel_list(list, ids) =~= relabel_list(front, ids).push(ids[last as int]));
    }
}

/// The list of every new node is as long as the list of the old node that it
/// stands for, and holds new ids of neighbors of that node only.
proof fn lemma_degree_ordered_lists(adj: Adjacency, i: int)
    requires
        adjacency_valid(adj),
        0 <= i < adj.len(),
    ensures
        degree_ordered(adj)[i].len() == degree_order(adj)[i].0,
        degree_ordered(adj)[i].len() == adj[degree_order(adj)[i].1 as int].len(),
        degree_ordered(adj)[i].to_multiset() == relabel_list(
            adj[degree_order(adj)[i].1 as int],
            id_map(adj),
        ).to_multiset(),
        forall|k: int|
            0 <= k < degree_ordered(adj)[i].len() ==> (#[trigger] degree_ordered(adj)[i][k])
                < adj.len(),
{
    broadcast use vstd::seq_lib::group_to_multiset_ensures;

    lemma_degree_order(adj);
    let old_node = degree_order(adj)[i].1 as int;
    assert(nodes_of(degree_order(adj))[i] == old_node);
    lemma_inverse(nodes_of(degree_order(adj)));
    let relabeled = relabel_list(adj[old_node], id_map(adj));
    let sorted = degree_ordered(adj)[i];
    relabeled.lemma_sort_by_ensures(ascending());
    assert(sorted.len() == relabeled.len()) by {
        assert(sorted.to_multiset().len() == relabeled.to_multiset().len());
    }
    assert forall|k: int| 0 <= k < sorted.len() implies (#[trigger] sorted[k]) < adj.len() by {
        assert(sorted.to_multiset().count(sorted[k]) > 0);
    }
}

/// The relabeled graph is a valid adjacency on as many nodes, with as many
/// entries, and so as many edges, as the given one.
pub proof fn lemma_degree_ordered_valid(adj: Adjacency)
    requires
        adjacency_valid(adj),
    ensures
        degree_ordered(adj).len() == adj.len(),
        entry_count(degree_ordered(adj), adj.len() as int) == entry_count(adj, adj.len() as int),
        adjacency_valid(degree_ordered(adj)),
        is_permutation(id_map(adj)),
{
    let relabeled = degree_ordered(adj);
    lemma_degree_order(adj);
    lemma_inverse(nodes_of(degree_order(adj)));
    assert forall|i: int| 0 <= i < adj.len() implies (#[trigger] degrees_of(degree_order(adj))[i])
        == relabeled[i].len() by {
        lemma_degree_ordered_lists(adj, i);
    }
    lemma_entry_count_of_lengths(relabeled, degrees_of(degree_order(adj)), adj.len() as int);
    lemma_degree_order_sum(adj);
    assert forall|i: int, k: int| 0 <= i < relabeled.len() && 0 <= k < relabeled[i].len() implies (
    #[trigger] relabeled[i][k]) < relabeled.len() by {
        lemma_degree_ordered_lists(adj, i);
    }
}

/// The degrees of the relabeled graph, taken in the order of the new ids, are
/// the degrees of the given graph sorted from the largest down.
pub proof fn lemma_degree_ordered_degrees(adj: Adjacency)
    requires
        adjacency_valid(adj),
    ensures
        degrees(degree_ordered(adj)) == degrees(adj).sort_by(descending()),
        sorted_by(degrees(degree_ordered(adj)), descending()),
        degrees(degree_ordered(adj)).to_multiset() == degrees(adj).to_multiset(),
{
    let order = degree_order(adj);
    let new_degrees = degrees(degree_ordered(adj));
    lemma_degree_order(adj);
    assert(new_degrees =~= degrees_of(order)) by {
        assert forall|i: int| 0 <= i < adj.len() implies new_degrees[i] == degrees_of(order)[i] by {
            lemma_degree_ordered_lists(adj, i);
        }
    }
    assert(sorted_by(new_degrees, descending())) by {
        assert forall|i: int, j: int| 0 <= i < j < new_degrees.len() implies (descending())(
            new_degrees[i],
            new_degrees[j],
        ) by {
            assert((descending_pairs())(order[i], order[j]));
        }
    }
    lemma_degrees_of_multiset(order, degree_pairs(adj));
    assert(degrees_of(degree_pairs(adj)) =~= degrees(adj));
    degrees(adj).lemma_sort_by_ensures(descending());
    lemma_sorted_unique(new_degrees, degrees(adj).sort_by(descending()), descending());
}

/// The id map carries every edge over with its multiplicity: the list of
/// the new id of `u` holds the new id of `v` as often as the list of `u` held
/// `v`.
pub proof fn lemma_degree_ordered_edges(adj: Adjacency, u: int, v: int)
    requires
        adjacency_valid(adj),
        0 <= u < adj.len(),
        0 <= v < adj.len(),
    ensures
        id_map(adj)[u] < adj.len(),
        id_map(adj)[v] < adj.len(),
        degree_ordered(adj)[id_map(adj)[u] as int].to_multiset().count(id_map(adj)[v])
            == adj[u].to_multiset().count(v as usize),
{
    lemma_degree_order(adj);
    let ids = nodes_of(degree_order(adj));
    lemma_inverse(ids);
    let new_u = id_map(adj)[u] as int;
    lemma_degree_ordered_lists(adj, new_u);
    lemma_relabel_list_count(adj[u], id_map(adj), v);
}

/// The new ids follow the degrees from the largest down, and among nodes of
/// one degree the old ids from the largest down: `u` gets a smaller new id
/// than `v` exactly if its degree is larger, or the same with `u` the larger
/// old id.
pub proof fn lemma_id_map_order(adj: Adjacency, u: int, v: int)
    requires
        adjacency_valid(adj),
        0 <= u < adj.len(),
        0 <= v < adj.len(),
    ensures
        id_map(adj)[u] < id_map(adj)[v] <==> adj[u].len() > adj[v].len() || (adj[u].len()
            == adj[v].len() && u > v),
{
    let order = degree_order(adj);
    let ids = nodes_of(order);
    lemma_degree_order(adj);
    lemma_inverse(ids);
    let new_u = id_map(adj)[u] as int;
    let new_v = id_map(adj)[v] as int;
    if new_u < new_v {
        assert((descending_pairs())(order[new_u], order[new_v]));
    } else if new_v < new_u {
        assert((descending_pairs())(order[new_v], order[new_u]));
    }
}

/// Relabeling a relabeled graph once more gives a graph of the same adjacency
/// structure: the second id map is a permutation of the nodes that carries
/// every edge over with its multiplicity, and it moves nodes among ids of one
/// degree only, so that no node id changes its degree.
pub proof fn lemma_degree_ordered_twice(adj: Adjacency)
    requires
        adjacency_valid(adj),
    ensures
        adjacency_valid(degree_ordered(adj)),
        degree_ordered(degree_ordered(adj)).len() == degree_ordered(adj).len(),
        degrees(degree_ordered(degree_ordered(adj))) == degrees(degree_ordered(adj)),
        is_permutation(id_map(degree_ordered(adj))),
        forall|u: int|
            0 <= u < adj.len() ==> degrees(degree_ordered(adj))[(#[trigger] id_map(
                degree_ordered(adj),
            )[u]) as int] == degrees(degree_ordered(adj))[u],
        forall|u: int, v: int|
            #![trigger id_map(degree_ordered(adj))[u], id_map(degree_ordered(adj))[v]]
            0 <= u < adj.len() && 0 <= v < adj.len() ==> degree_ordered(degree_ordered(adj))[id_map(
                degree_ordered(adj),
            )[u] as int].to_multiset().count(id_map(degree_ordered(adj))[v]) == degree_ordered(
                adj,
            )[u].to_multiset().count(v as usize),
{
    let once = degree_ordered(adj);
    let twice = degree_ordered(once);
    lemma_degree_ordered_valid(adj);
    lemma_degree_ordered_degrees(adj);
    lemma_degree_ordered_valid(once);
    lemma_degree_ordered_degrees(once);
    lemma_sorted_unique(degrees(once), degrees(once).sort_by(descending()), descending());
    assert forall|u: int| 0 <= u < adj.len() implies degrees(once)[(#[trigger] id_map(once)[u]) as int]
        == degrees(once)[u] by {
        lemma_degree_order(once);
        let ids = nodes_of(degree_order(once));
        lemma_inverse(ids);
        let new_u = id_map(once)[u] as int;
        lemma_degree_ordered_lists(once, new_u);
    }
    assert forall|u: int, v: int|
        #![trigger id_map(once)[u], id_map(once)[v]]
        0 <= u < adj.len() && 0 <= v < adj.len() implies twice[id_map(
        once,
    )[u] as int].to_multiset().count(id_map(once)[v]) == once[u].to_multiset().count(
        v as usize,
    ) by {
        lemma_degree_ordered_edges(once, u, v);
    }
}

} // verus!
