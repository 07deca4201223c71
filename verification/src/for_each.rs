//! Calling a function for each node with the node's own mutable state, in
//! parallel over the nodes or over the ranges of a partition.

use crate::error::Error;
use crate::graph::{is_node, Graph};
use crate::par::{is_index, par_for_each_item};
use crate::partition::{
    contiguous, covered, lemma_contiguous_ordered, lemma_range_of_node,
    lemma_total_width_of_contiguous, total_width,
};
use crate::split::{lemma_flatten_by_partition, lemma_flatten_length, split_by_partition};
use std::ops::Range;
use vstd::prelude::*;

verus! {

/// The sum of the widths of the ranges of a contiguous partition.
fn width_sum(partition: &[Range<usize>]) -> (sum: usize)
    requires
        contiguous(partition@),
    ensures
        sum == total_width(partition@),
        sum == covered(partition@),
{
    let mut sum: usize = 0;
    let mut i: usize = 0;
    while i < partition.len()
        invariant
            contiguous(partition@),
            i <= partition@.len(),
            sum == covered(partition@.take(i as int)),
        decreases partition@.len() - i,
    {
        sum = sum + (partition[i].end - partition[i].start);
        i += 1;
    }
    proof {
        lemma_total_width_of_contiguous(partition@);
    }
    sum
}

/// Calls `node_fn` for one node with the node's state.
fn visit_node<G, T, F>(graph: &G, node_fn: &F, node: usize, state: &mut T) where
    F: Fn(&G, usize, &mut T),

    requires
        forall|any: &mut T| call_requires(*node_fn, (graph, node, any)),
    ensures
        exists|seen: &mut T|
            *seen == *old(state) && *final(seen) == *final(state) && #[trigger] call_ensures(
                *node_fn,
                (graph, node, seen),
                (),
            ),
{
    node_fn(graph, node, state);
}

/// Calls `node_fn` for the nodes of one range, in ascending order, each with
/// its state: `node_states[k]` is the state of node `range.start + k`.
pub fn visit_range<G, T, F>(
    graph: &G,
    node_fn: &F,
    range: &Range<usize>,
    node_states: &mut [T],
) where F: Fn(&G, usize, &mut T)

    requires
        range.start <= range.end,
        old(node_states)@.len() == range.end - range.start,
        forall|node: usize, any: &mut T|
            range.start <= node < range.end ==> call_requires(*node_fn, (graph, node, any)),
    ensures
        final(node_states)@.len() == old(node_states)@.len(),
        forall|k: int| #[trigger]
            is_node(k, old(node_states)@.len() as int) ==> exists|seen: &mut T|
                *seen == old(node_states)@[k] && *final(seen) == final(node_states)@[k]
                    && #[trigger] call_ensures(
                    *node_fn,
                    (graph, (range.start + k) as usize, seen),
                    (),
                ),
{
    let mut node = range.start;
    let mut k: usize = 0;
    while k < node_states.len()
        invariant
            range.start <= range.end,
            node_states@.len() == old(node_states)@.len(),
            node_states@.len() == range.end - range.start,
            k <= node_states@.len(),
            node == range.start + k,
            forall|node: usize, any: &mut T|
                range.start <= node < range.end ==> call_requires(*node_fn, (graph, node, any)),
            forall|j: int| k <= j < node_states@.len() ==> node_states@[j] == old(node_states)@[j],
            forall|j: int| #[trigger]
                is_node(j, k as int) ==> exists|seen: &mut T|
                    *seen == old(node_states)@[j] && *final(seen) == node_states@[j]
                        && #[trigger] call_ensures(
                        *node_fn,
                        (graph, (range.start + j) as usize, seen),
                        (),
                    ),
        decreases node_states@.len() - k,
    {
        let ghost before = node_states@;
        visit_node(graph, node_fn, node, &mut node_states[k]);
        proof {
            assert forall|j: int| #[trigger] is_node(j, k + 1) implies exists|seen: &mut T|
                *seen == old(node_states)@[j] && *final(seen) == node_states@[j]
                    && #[trigger] call_ensures(
                    *node_fn,
                    (graph, (range.start + j) as usize, seen),
                    (),
                ) by {
                if j < k {
                    assert(is_node(j, k as int));
                    let seen = choose|seen: &mut T|
                        *seen == old(node_states)@[j] && *final(seen) == before[j]
                            && #[trigger] call_ensures(
                            *node_fn,
                            (graph, (range.start + j) as usize, seen),
                            (),
                        );
                    assert(*final(seen) == node_states@[j]);
                }
            }
        }
        node += 1;
        k += 1;
    }
}

/// Call a particular function for each node with its corresponding state.
pub trait ForEachNodeOp: Graph {
    /// For each node calls `node_fn` with the graph, the node and the node's
    /// mutable state `node_values[node]`, once per node and in parallel.
    ///
    /// `node_values` must hold exactly one value per node; if it does not, no
    /// call is made and the values stay as they are.
    fn for_each_node<T, F>(&self, node_values: &mut [T], node_fn: F) -> (result: Result<
        (),
        Error,
    >) where T: Send, F: Fn(&Self, usize, &mut T) + Send + Sync
        requires
            self.wf(),
            forall|node: usize, state: &mut T|
                node < self.spec_node_count() ==> call_requires(node_fn, (self, node, state)),
        ensures
            result is Ok <==> old(node_values)@.len() == self.spec_node_count(),
            result is Err ==> result == Err::<(), Error>(Error::InvalidNodeValues),
            result is Err ==> final(node_values)@ == old(node_values)@,
            result is Ok ==> final(node_values)@.len() == old(node_values)@.len(),
            result is Ok ==> forall|node: int| #[trigger]
                is_node(node, old(node_values)@.len() as int) ==> exists|state: &mut T|
                    *state == old(node_values)@[node] && *final(state) == final(node_values)@[node]
                        && #[trigger] call_ensures(node_fn, (self, node as usize, state), ()),
    ;
}

impl<G: Graph + Sync> ForEachNodeOp for G {
    fn for_each_node<T, F>(&self, node_values: &mut [T], node_fn: F) -> (result: Result<
        (),
        Error,
    >) where T: Send, F: Fn(&Self, usize, &mut T) + Send + Sync {
        if node_values.len() != self.node_count() {
            return Err(Error::InvalidNodeValues);
        }
        let ghost before = node_values@;
        let node_fn = &node_fn;
        let visit = |node: usize, state: &mut T|
            requires
                node < self.spec_node_count(),
            ensures
                exists|seen: &mut T|
                    *seen == *old(state) && *final(seen) == *final(state)
                        && #[trigger] call_ensures(*node_fn, (self, node, seen), ()),
            { visit_node(self, node_fn, node, state) };
        par_for_each_item(node_values, &visit);
        proof {
            assert forall|node: int| #[trigger] is_node(node, before.len() as int) implies exists|
                state: &mut T,
            |
                *state == before[node] && *final(state) == node_values@[node]
                    && #[trigger] call_ensures(*node_fn, (self, node as usize, state), ()) by {
                assert(is_index(node, before.len() as int));
                let item = choose|item: &mut T|
                    *item == before[node] && *final(item) == node_values@[node]
                        && #[trigger] call_ensures(visit, (node as usize, item), ());
            }
        }

        Ok(())
    }
}

/// Call a particular function for each node with its corresponding state,
/// with a partition of the nodes as a hint for the parallelization.
pub trait ForEachNodeByPartitionOp: Graph {
    /// For each node calls `node_fn` with the graph, the node and the node's
    /// mutable state `node_values[node]`, once per node: in parallel over the
    /// ranges of `partition`, and within a range node by node in ascending
    /// order.
    ///
    /// `node_values` must hold exactly one value per node, and the widths of
    /// the ranges must add up to the number of nodes; if either fails, no call
    /// is made and the values stay as they are.
    fn for_each_node_by_partition<T, F>(
        &self,
        partition: &[Range<usize>],
        node_values: &mut [T],
        node_fn: F,
    ) -> (result: Result<(), Error>) where T: Send, F: Fn(&Self, usize, &mut T) + Send + Sync
        requires
            self.wf(),
            contiguous(partition@),
            forall|node: usize, state: &mut T|
                node < self.spec_node_count() ==> call_requires(node_fn, (self, node, state)),
        ensures
            result is Ok <==> old(node_values)@.len() == self.spec_node_count() && total_width(
                partition@,
            ) == self.spec_node_count(),
            old(node_values)@.len() != self.spec_node_count() ==> result == Err::<(), Error>(
                Error::InvalidNodeValues,
            ),
            old(node_values)@.len() == self.spec_node_count() && total_width(partition@)
                != self.spec_node_count() ==> result == Err::<(), Error>(
                Error::InvalidPartitioning,
            ),
            result is Err ==> final(node_values)@ == old(node_values)@,
            result is Ok ==> final(node_values)@.len() == old(node_values)@.len(),
            result is Ok ==> forall|node: int| #[trigger]
                is_node(node, old(node_values)@.len() as int) ==> exists|state: &mut T|
                    *state == old(node_values)@[node] && *final(state) == final(node_values)@[node]
                        && #[trigger] call_ensures(node_fn, (self, node as usize, state), ()),
    ;
}

impl<G: Graph + Sync> ForEachNodeByPartitionOp for G {
    fn for_each_node_by_partition<T, F>(
        &self,
        partition: &[Range<usize>],
        node_values: &mut [T],
        node_fn: F,
    ) -> (result: Result<(), Error>) where T: Send, F: Fn(&Self, usize, &mut T) + Send + Sync {
        if node_values.len() != self.node_count() {
            return Err(Error::InvalidNodeValues);
        }
        if width_sum(partition) != self.node_count() {
            return Err(Error::InvalidPartitioning);
        }
        let mut node_value_splits = split_by_partition(partition, node_values);
        let ghost handed_out = Seq::new(
            node_value_splits@.len(),
            |i: int| node_value_splits@[i]@,
        );
        let ghost given_back = Seq::new(
            node_value_splits@.len(),
            |i: int| final(node_value_splits@[i])@,
        );
        proof {
            assert forall|i: int| 0 <= i < partition@.len() implies (#[trigger] partition@[i]).end
                <= self.spec_node_count() by {
                lemma_contiguous_ordered(partition@, i, partition@.len() - 1);
            }
        }

        let ghost handed_out_splits = node_value_splits@;
        let node_fn = &node_fn;
        let visit = |i: usize, node_states: &mut &mut [T]|
            requires
                i < partition@.len(),
                partition@[i as int].start <= partition@[i as int].end <= self.spec_node_count(),
                (*node_states)@.len() == partition@[i as int].end - partition@[i as int].start,
            ensures
                final(*final(node_states))@ == final(*old(node_states))@,
                (*final(node_states))@.len() == (*old(node_states))@.len(),
                forall|k: int| #[trigger]
                    is_node(k, (*old(node_states))@.len() as int) ==> exists|seen: &mut T|
                        *seen == (*old(node_states))@[k]
                            && *final(seen) == (*final(node_states))@[k]
                            && #[trigger] call_ensures(
                            *node_fn,
                            (self, (partition@[i as int].start + k) as usize, seen),
                            (),
                        ),
            { visit_range(self, node_fn, &partition[i], node_states) };
        par_for_each_item(node_value_splits.as_mut_slice(), &visit);

        let ghost after = Seq::new(node_value_splits@.len(), |i: int| node_value_splits@[i]@);
        proof {
            assert forall|i: int| 0 <= i < after.len() implies after[i] == given_back[i]
                && after[i].len() == partition@[i].end - partition@[i].start by {
                assert(is_index(i, handed_out_splits.len() as int));
            }
            assert(after =~= given_back);
            assert forall|i: int, k: int|
                0 <= i < after.len() && #[trigger] is_node(
                    k,
                    handed_out[i].len() as int,
                ) implies exists|state: &mut T|
                *state == handed_out[i][k] && *final(state) == after[i][k]
                    && #[trigger] call_ensures(
                    *node_fn,
                    (self, (partition@[i].start + k) as usize, state),
                    (),
                ) by {
                assert(is_index(i, handed_out_splits.len() as int));
            }
        }
        proof {
            lemma_flatten_length(after, partition@);
            assert forall|node: int| #[trigger]
                is_node(node, old(node_values)@.len() as int) implies exists|state: &mut T|
                *state == old(node_values)@[node] && *final(state) == node_values@[node]
                    && #[trigger] call_ensures(*node_fn, (self, node as usize, state), ()) by {
                let i = lemma_range_of_node(partition@, node);
                let k = node - partition@[i].start;
                assert(is_node(k, handed_out[i].len() as int));
                lemma_flatten_by_partition(after, partition@, i, k);
            }
        }
        Ok(())
    }
}

} // verus!
