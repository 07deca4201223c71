//! Parallel operations on compressed-sparse-row graphs: degree-balanced
//! partitioning of the node set, per-node traversal over a buffer of node
//! values, and relabeling of the nodes in descending order of degree.

pub mod csr;
pub mod degree_partition;
pub mod error;
pub mod for_each;
pub mod graph;
pub mod order;
pub mod par;
pub mod partition;
pub mod relabel;
pub mod relabel_laws;
pub mod split;

pub use csr::Csr;
pub use degree_partition::{DegreePartitionOp, InDegreePartitionOp, OutDegreePartitionOp};
pub use error::Error;
pub use for_each::{visit_range, ForEachNodeByPartitionOp, ForEachNodeOp};
pub use graph::{
    DirectedCsrGraph, DirectedGraph, FromCsr, Graph, UndirectedCsrGraph, UndirectedGraph,
};
pub use order::larger_first;
pub use partition::{greedy_node_map_partition, is_contiguous};
pub use relabel::{
    prefix_sum, relabel_by_degree, relabel_list_into, relabel_targets, sort_by_degree_desc,
    unzip_degrees_and_nodes, RelabelByDegreeOp,
};
pub use split::split_by_partition;
