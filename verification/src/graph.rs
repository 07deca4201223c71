//! The read interface of a graph, and the two graphs that are laid out in
//! compressed sparse rows.

use crate::csr::{adjacency_valid, entry_count, lemma_adjacency_of_csr_valid, Adjacency, Csr};
use vstd::prelude::*;

verus! {

/// `node` is one of the nodes `0, 1, .., node_count - 1`.
pub open spec fn is_node(node: int, node_count: int) -> bool {
    0 <= node < node_count
}

/// Whether a container can hold the neighbor lists of an undirected graph:
/// it is valid and has an even number of entries, two per edge.
pub open spec fn holds_undirected(csr: Csr) -> bool {
    csr.wf() && csr.spec_targets().len() % 2 == 0
}

/// Whether two containers can hold the two directions of one directed graph:
/// both are valid, over the same nodes and with the same number of entries,
/// one per edge.
pub open spec fn hold_directed(csr_out: Csr, csr_inc: Csr) -> bool {
    &&& csr_out.wf()
    &&& csr_inc.wf()
    &&& csr_out.spec_offsets().len() == csr_inc.spec_offsets().len()
    &&& csr_out.spec_targets().len() == csr_inc.spec_targets().len()
}

/// What every graph can tell: how many nodes and how many edges it has.
pub trait Graph {
    /// The graph's data fit together. Every operation asks for it.
    spec fn wf(&self) -> bool;

    /// The number of nodes; the nodes are `0, 1, .., spec_node_count() - 1`.
    spec fn spec_node_count(&self) -> nat;

    /// The number of edges.
    spec fn spec_edge_count(&self) -> nat;

    /// The number of nodes.
    fn node_count(&self) -> (n: usize)
        requires
            self.wf(),
        ensures
            n == self.spec_node_count(),
    ;

    /// The number of edges.
    fn edge_count(&self) -> (m: usize)
        requires
            self.wf(),
        ensures
            m == self.spec_edge_count(),
    ;
}

/// A graph whose edges have no direction: each node has one list of neighbors,
/// and an edge stands in the lists of both its ends.
pub trait UndirectedGraph: Graph {
    /// The neighbor lists, by node.
    spec fn adjacency(&self) -> Adjacency;

    /// There is one list per node, every neighbor is a node, and the lists
    /// hold two entries per edge.
    proof fn lemma_undirected(&self)
        requires
            self.wf(),
        ensures
            self.adjacency().len() == self.spec_node_count(),
            adjacency_valid(self.adjacency()),
            entry_count(self.adjacency(), self.adjacency().len() as int) == 2
                * self.spec_edge_count(),
    ;

    /// The number of neighbors of `node`, counted with multiplicity.
    fn degree(&self, node: usize) -> (d: usize)
        requires
            self.wf(),
            node < self.spec_node_count(),
        ensures
            d == self.adjacency()[node as int].len(),
    ;

    /// The neighbors of `node`.
    fn neighbors(&self, node: usize) -> (list: &[usize])
        requires
            self.wf(),
            node < self.spec_node_count(),
        ensures
            list@ == self.adjacency()[node as int],
    ;
}

/// An undirected graph that can be built from a compressed-sparse-row
/// container of its neighbor lists.
pub trait FromCsr: UndirectedGraph + Sized {
    /// Takes the lists of `csr` as the neighbor lists of the graph.
    fn from_csr(csr: Csr) -> (graph: Self)
        requires
            holds_undirected(csr),
        ensures
            graph.wf(),
            graph.adjacency() == csr.adjacency(),
    ;
}

/// A graph whose edges lead from a source to a target: each node has a list
/// of the targets of its outgoing edges and a list of the sources of its
/// incoming edges.
pub trait DirectedGraph: Graph {
    /// The lists of targets of outgoing edges, by node.
    spec fn out_adjacency(&self) -> Adjacency;

    /// The lists of sources of incoming edges, by node.
    spec fn in_adjacency(&self) -> Adjacency;

    /// In either direction there is one list per node, every entry is a node,
    /// and the lists hold one entry per edge.
    proof fn lemma_directed(&self)
        requires
            self.wf(),
        ensures
            self.out_adjacency().len() == self.spec_node_count(),
            self.in_adjacency().len() == self.spec_node_count(),
            adjacency_valid(self.out_adjacency()),
            adjacency_valid(self.in_adjacency()),
            entry_count(self.out_adjacency(), self.spec_node_count() as int)
                == self.spec_edge_count(),
            entry_count(self.in_adjacency(), self.spec_node_count() as int)
                == self.spec_edge_count(),
    ;

    /// The number of edges that leave `node`.
    fn out_degree(&self, node: usize) -> (d: usize)
        requires
            self.wf(),
            node < self.spec_node_count(),
        ensures
            d == self.out_adjacency()[node as int].len(),
    ;

    /// The targets of the edges that leave `node`.
    fn out_neighbors(&self, node: usize) -> (list: &[usize])
        requires
            self.wf(),
            node < self.spec_node_count(),
        ensures
            list@ == self.out_adjacency()[node as int],
    ;

    /// The number of edges that enter `node`.
    fn in_degree(&self, node: usize) -> (d: usize)
        requires
            self.wf(),
            node < self.spec_node_count(),
        ensures
            d == self.in_adjacency()[node as int].len(),
    ;

    /// The sources of the edges that enter `node`.
    fn in_neighbors(&self, node: usize) -> (list: &[usize])
        requires
            self.wf(),
            node < self.spec_node_count(),
        ensures
            list@ == self.in_adjacency()[node as int],
    ;
}

/// An undirected graph in compressed sparse rows. Each edge `{u, v}` is held
/// twice, as `v` in the list of `u` and as `u` in the list of `v`.
pub struct UndirectedCsrGraph {
    csr: Csr,
}

impl UndirectedCsrGraph {
    /// The container that holds the neighbor lists.
    pub closed spec fn spec_csr(&self) -> Csr {
        self.csr
    }

    /// Takes the lists of `csr` as the neighbor lists of the graph.
    pub fn new(csr: Csr) -> (graph: Self)
        requires
            holds_undirected(csr),
        ensures
            graph.wf(),
            graph.spec_csr() == csr,
            graph.adjacency() == csr.adjacency(),
    {
        UndirectedCsrGraph { csr }
    }
}

impl UndirectedCsrGraph {
    /// Takes the lists of `csr` as the neighbor lists of a graph, if `csr` can
    /// hold an undirected graph, and not otherwise.
    pub fn try_new(csr: Csr) -> (graph: Option<Self>)
        requires
            csr.wf(),
        ensures
            graph is Some <==> holds_undirected(csr),
            graph matches Some(g) ==> g.wf() && g.adjacency() == csr.adjacency(),
    {
        proof {
            lemma_adjacency_of_csr_valid(csr.spec_offsets(), csr.spec_targets());
        }
        if csr.edge_count() % 2 == 0 {
            Some(UndirectedCsrGraph::new(csr))
        } else {
            None
        }
    }
}

impl FromCsr for UndirectedCsrGraph {
    fn from_csr(csr: Csr) -> (graph: Self) {
        UndirectedCsrGraph::new(csr)
    }
}

impl Graph for UndirectedCsrGraph {
    open spec fn wf(&self) -> bool {
        holds_undirected(self.spec_csr())
    }

    open spec fn spec_node_count(&self) -> nat {
        self.spec_csr().adjacency().len()
    }

    open spec fn spec_edge_count(&self) -> nat {
        self.spec_csr().spec_targets().len() / 2
    }

    fn node_count(&self) -> (n: usize) {
        self.csr.node_count()
    }

    fn edge_count(&self) -> (m: usize) {
        proof {
            lemma_adjacency_of_csr_valid(self.csr.spec_offsets(), self.csr.spec_targets());
        }
        self.csr.edge_count() / 2
    }
}

impl UndirectedGraph for UndirectedCsrGraph {
    open spec fn adjacency(&self) -> Adjacency {
        self.spec_csr().adjacency()
    }

    proof fn lemma_undirected(&self) {
        lemma_adjacency_of_csr_valid(
            self.spec_csr().spec_offsets(),
            self.spec_csr().spec_targets(),
        );
    }

    fn degree(&self, node: usize) -> (d: usize) {
        self.csr.degree(node)
    }

    fn neighbors(&self, node: usize) -> (list: &[usize]) {
        self.csr.targets(node)
    }
}

/// A directed graph in compressed sparse rows: one container for the
/// outgoing edges, one for the incoming edges.
pub struct DirectedCsrGraph {
    csr_out: Csr,
    csr_inc: Csr,
}

impl DirectedCsrGraph {
    /// The container of the outgoing edges.
    pub closed spec fn spec_csr_out(&self) -> Csr {
        self.csr_out
    }

    /// The container of the incoming edges.
    pub closed spec fn spec_csr_inc(&self) -> Csr {
        self.csr_inc
    }

    /// Takes the lists of `csr_out` as the outgoing and those of `csr_inc` as
    /// the incoming edges of the graph.
    pub fn new(csr_out: Csr, csr_inc: Csr) -> (graph: Self)
        requires
            hold_directed(csr_out, csr_inc),
        ensures
            graph.wf(),
            graph.out_adjacency() == csr_out.adjacency(),
            graph.in_adjacency() == csr_inc.adjacency(),
    {
        DirectedCsrGraph { csr_out, csr_inc }
    }
}

impl DirectedCsrGraph {
    /// Takes the lists of `csr_out` as the outgoing and those of `csr_inc` as
    /// the incoming edges of a graph, if the two can hold the two directions
    /// of one graph, and not otherwise.
    pub fn try_new(csr_out: Csr, csr_inc: Csr) -> (graph: Option<Self>)
        requires
            csr_out.wf(),
            csr_inc.wf(),
        ensures
            graph is Some <==> hold_directed(csr_out, csr_inc),
            graph matches Some(g) ==> g.wf() && g.out_adjacency() == csr_out.adjacency()
                && g.in_adjacency() == csr_inc.adjacency(),
    {
        proof {
            lemma_adjacency_of_csr_valid(csr_out.spec_offsets(), csr_out.spec_targets());
            lemma_adjacency_of_csr_valid(csr_inc.spec_offsets(), csr_inc.spec_targets());
        }
        if csr_out.node_count() == csr_inc.node_count() && csr_out.edge_count()
            == csr_inc.edge_count() {
            Some(DirectedCsrGraph::new(csr_out, csr_inc))
        } else {
            None
        }
    }
}

impl Graph for DirectedCsrGraph {
    open spec fn wf(&self) -> bool {
        hold_directed(self.spec_csr_out(), self.spec_csr_inc())
    }

    open spec fn spec_node_count(&self) -> nat {
        self.spec_csr_out().adjacency().len()
    }

    open spec fn spec_edge_count(&self) -> nat {
        self.spec_csr_out().spec_targets().len()
    }

    fn node_count(&self) -> (n: usize) {
        self.csr_out.node_count()
    }

    fn edge_count(&self) -> (m: usize) {
        proof {
            lemma_adjacency_of_csr_valid(
                self.csr_out.spec_offsets(),
                self.csr_out.spec_targets(),
            );
        }
        self.csr_out.edge_count()
    }
}

impl DirectedGraph for DirectedCsrGraph {
    open spec fn out_adjacency(&self) -> Adjacency {
        self.spec_csr_out().adjacency()
    }

    open spec fn in_adjacency(&self) -> Adjacency {
        self.spec_csr_inc().adjacency()
    }

    proof fn lemma_directed(&self) {
        lemma_adjacency_of_csr_valid(
            self.spec_csr_out().spec_offsets(),
            self.spec_csr_out().spec_targets(),
        );
        lemma_adjacency_of_csr_valid(
            self.spec_csr_inc().spec_offsets(),
            self.spec_csr_inc().spec_targets(),
        );
    }

    fn out_degree(&self, node: usize) -> (d: usize) {
        self.csr_out.degree(node)
    }

    fn out_neighbors(&self, node: usize) -> (list: &[usize]) {
        self.csr_out.targets(node)
    }

    fn in_degree(&self, node: usize) -> (d: usize) {
        self.csr_inc.degree(node)
    }

    fn in_neighbors(&self, node: usize) -> (list: &[usize]) {
        self.csr_inc.targets(node)
    }
}

} // verus!
