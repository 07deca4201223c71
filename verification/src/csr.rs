//! The compressed-sparse-row container: one array of offsets, one array of
//! targets, and the adjacency lists that the two describe.

use crate::partition::cost_sum;
use vstd::prelude::*;

verus! {

/// The adjacency lists of a graph: list `v` holds the targets of node `v`.
pub type Adjacency = Seq<Seq<usize>>;

/// Every target names a node of the graph, and the number of nodes and the
/// number of entries fit a machine word each.
pub open spec fn adjacency_valid(adj: Adjacency) -> bool {
    &&& adj.len() <= usize::MAX
    &&& forall|v: int, k: int|
        0 <= v < adj.len() && 0 <= k < adj[v].len() ==> (#[trigger] adj[v][k]) < adj.len()
    &&& entry_count(adj, adj.len() as int) <= usize::MAX
}

/// The number of entries in the lists of the nodes below `upto`.
pub open spec fn entry_count(adj: Adjacency, upto: int) -> int
    decreases upto,
{
    if upto <= 0 {
        0
    } else {
        entry_count(adj, upto - 1) + adj[upto - 1].len()
    }
}

/// The degree of every node, in the order of the node ids.
pub open spec fn degrees(adj: Adjacency) -> Seq<usize> {
    Seq::new(adj.len(), |v: int| adj[v].len() as usize)
}

/// What makes a pair of arrays a compressed-sparse-row container of
/// `offsets.len() - 1` nodes: the offsets start at 0, never decrease and end at
/// the number of targets, and every target names a node.
pub open spec fn csr_valid(offsets: Seq<usize>, targets: Seq<usize>) -> bool {
    &&& 1 <= offsets.len() <= usize::MAX
    &&& offsets[0] == 0
    &&& forall|i: int, j: int| 0 <= i <= j < offsets.len() ==> offsets[i] <= offsets[j]
    &&& offsets.last() == targets.len()
    &&& forall|k: int| 0 <= k < targets.len() ==> (#[trigger] targets[k]) < offsets.len() - 1
}

/// The adjacency lists that the two arrays describe: list `v` is
/// `targets[offsets[v]..offsets[v + 1]]`.
pub open spec fn adjacency_of(offsets: Seq<usize>, targets: Seq<usize>) -> Adjacency {
    Seq::new(
        (offsets.len() - 1) as nat,
        |v: int| targets.subrange(offsets[v] as int, offsets[v + 1] as int),
    )
}

/// Counting entries list by list reads off the offsets.
pub proof fn lemma_entry_count_of_csr(offsets: Seq<usize>, targets: Seq<usize>, upto: int)
    requires
        csr_valid(offsets, targets),
        0 <= upto < offsets.len(),
    ensures
        entry_count(adjacency_of(offsets, targets), upto) == offsets[upto],
    decreases upto,
{
    if upto > 0 {
        lemma_entry_count_of_csr(offsets, targets, upto - 1);
    }
}

/// The lists of a valid container form a valid adjacency.
pub proof fn lemma_adjacency_of_csr_valid(offsets: Seq<usize>, targets: Seq<usize>)
    requires
        csr_valid(offsets, targets),
    ensures
        adjacency_valid(adjacency_of(offsets, targets)),
        entry_count(adjacency_of(offsets, targets), offsets.len() - 1) == targets.len(),
{
    lemma_entry_count_of_csr(offsets, targets, offsets.len() - 1);
}

/// The number of entries grows with the number of lists counted.
pub proof fn lemma_entry_count_monotone(adj: Adjacency, lo: int, hi: int)
    requires
        0 <= lo <= hi,
    ensures
        0 <= entry_count(adj, lo) <= entry_count(adj, hi),
    decreases hi - lo,
{
    if lo < hi {
        lemma_entry_count_monotone(adj, lo, hi - 1);
    } else {
        lemma_entry_count_nonnegative(adj, lo);
    }
}

proof fn lemma_entry_count_nonnegative(adj: Adjacency, upto: int)
    ensures
        0 <= entry_count(adj, upto),
    decreases upto,
{
    if upto > 0 {
        lemma_entry_count_nonnegative(adj, upto - 1);
    }
}

/// Where `lengths` holds the lengths of the lists below `upto`, its sum below
/// `upto` is the number of entries below `upto`.
pub proof fn lemma_entry_count_of_lengths(adj: Adjacency, lengths: Seq<usize>, upto: int)
    requires
        0 <= upto <= adj.len(),
        upto <= lengths.len(),
        forall|v: int| 0 <= v < upto ==> (#[trigger] lengths[v]) == adj[v].len(),
    ensures
        cost_sum(lengths, 0, upto) == entry_count(adj, upto),
    decreases upto,
{
    if upto > 0 {
        lemma_entry_count_of_lengths(adj, lengths, upto - 1);
    }
}

/// In a valid adjacency the length of every list fits a machine word, and the
/// sum of the degrees below `upto` is the number of entries below `upto`.
pub proof fn lemma_degree_sum(adj: Adjacency, upto: int)
    requires
        adjacency_valid(adj),
        0 <= upto <= adj.len(),
    ensures
        forall|v: int| 0 <= v < adj.len() ==> (#[trigger] degrees(adj)[v]) == adj[v].len(),
        cost_sum(degrees(adj), 0, upto) == entry_count(adj, upto),
        entry_count(adj, upto) <= entry_count(adj, adj.len() as int),
{
    assert forall|v: int| 0 <= v < adj.len() implies (#[trigger] degrees(adj)[v])
        == adj[v].len() by {
        lemma_entry_count_monotone(adj, v + 1, adj.len() as int);
        lemma_entry_count_monotone(adj, 0, v);
    }
    lemma_entry_count_monotone(adj, upto, adj.len() as int);
    lemma_entry_count_of_lengths(adj, degrees(adj), upto);
}

/// A compressed-sparse-row container.
pub struct Csr {
    offsets: Vec<usize>,
    targets: Vec<usize>,
}

impl Csr {
    /// The offsets array.
    pub closed spec fn spec_offsets(&self) -> Seq<usize> {
        self.offsets@
    }

    /// The targets array.
    pub closed spec fn spec_targets(&self) -> Seq<usize> {
        self.targets@
    }

    /// The container's two arrays fit together.
    pub open spec fn wf(&self) -> bool {
        csr_valid(self.spec_offsets(), self.spec_targets())
    }

    /// The adjacency lists that the container holds.
    pub open spec fn adjacency(&self) -> Adjacency {
        adjacency_of(self.spec_offsets(), self.spec_targets())
    }

    /// Builds the container from its two arrays.
    pub fn new(offsets: Vec<usize>, targets: Vec<usize>) -> (csr: Csr)
        requires
            csr_valid(offsets@, targets@),
        ensures
            csr.wf(),
            csr.spec_offsets() == offsets@,
            csr.spec_targets() == targets@,
    {
        Csr { offsets, targets }
    }

    /// Builds the container if the two arrays fit together, and not otherwise.
    pub fn try_new(offsets: Vec<usize>, targets: Vec<usize>) -> (csr: Option<Csr>)
        ensures
            csr is Some <==> csr_valid(offsets@, targets@),
            csr matches Some(c) ==> c.wf() && c.spec_offsets() == offsets@ && c.spec_targets()
                == targets@,
    {
        if offsets.len() == 0 || offsets[0] != 0 || offsets[offsets.len() - 1] != targets.len() {
            return None;
        }
        let node_count = offsets.len() - 1;
        let mut i: usize = 0;
        while i < node_count
            invariant
                node_count == offsets@.len() - 1,
                i <= node_count,
                forall|a: int, b: int| 0 <= a <= b <= i ==> offsets@[a] <= offsets@[b],
            decreases node_count - i,
        {
            if offsets[i] > offsets[i + 1] {
                return None;
            }
            i += 1;
        }
        let mut k: usize = 0;
        while k < targets.len()
            invariant
                k <= targets@.len(),
                node_count == offsets@.len() - 1,
                forall|j: int| 0 <= j < k ==> (#[trigger] targets@[j]) < node_count,
            decreases targets@.len() - k,
        {
            if targets[k] >= node_count {
                return None;
            }
            k += 1;
        }
        Some(Csr { offsets, targets })
    }

    /// The number of nodes.
    pub fn node_count(&self) -> (n: usize)
        requires
            self.wf(),
        ensures
            n == self.adjacency().len(),
    {
        self.offsets.len() - 1
    }

    /// The number of entries in all lists together.
    pub fn edge_count(&self) -> (m: usize)
        requires
            self.wf(),
        ensures
            m == entry_count(self.adjacency(), self.adjacency().len() as int),
    {
        proof {
            lemma_adjacency_of_csr_valid(self.offsets@, self.targets@);
        }
        self.targets.len()
    }

    /// The number of entries in the list of `node`.
    pub fn degree(&self, node: usize) -> (d: usize)
        requires
            self.wf(),
            node < self.adjacency().len(),
        ensures
            d == self.adjacency()[node as int].len(),
    {
        self.offsets[node + 1] - self.offsets[node]
    }

    /// The list of `node`.
    pub fn targets(&self, node: usize) -> (list: &[usize])
        requires
            self.wf(),
            node < self.adjacency().len(),
        ensures
            list@ == self.adjacency()[node as int],
    {
        let from = self.offsets[node];
        let to = self.offsets[node + 1];
        vstd::slice::slice_subrange(self.targets.as_slice(), from, to)
    }
}

} // verus!
