use graph::{Csr, DirectedCsrGraph, DirectedGraph, Graph, UndirectedCsrGraph, UndirectedGraph};

fn container(lists: Vec<Vec<usize>>) -> Csr {
    let mut offsets = vec![0];
    let mut targets = Vec::new();
    for list in lists {
        targets.extend(list);
        offsets.push(targets.len());
    }
    Csr::try_new(offsets, targets).expect("the lists form a valid container")
}

fn directed(node_count: usize, edges: &[(usize, usize)]) -> DirectedCsrGraph {
    let mut outgoing: Vec<Vec<usize>> = vec![Vec::new(); node_count];
    let mut incoming: Vec<Vec<usize>> = vec![Vec::new(); node_count];
    for &(source, target) in edges {
        outgoing[source].push(target);
        incoming[target].push(source);
    }
    DirectedCsrGraph::new(container(outgoing), container(incoming))
}

fn undirected(node_count: usize, edges: &[(usize, usize)]) -> UndirectedCsrGraph {
    let mut lists: Vec<Vec<usize>> = vec![Vec::new(); node_count];
    for &(source, target) in edges {
        lists[source].push(target);
        lists[target].push(source);
    }
    UndirectedCsrGraph::new(container(lists))
}

#[test]
fn directed_usize_graph_from_edge_list() {
    let g = directed(5, &[(0, 1), (0, 2), (1, 2), (1, 3), (2, 4), (3, 4)]);

    assert_eq!(g.node_count(), 5);
    assert_eq!(g.edge_count(), 6);

    assert_eq!(g.out_degree(0), 2);
    assert_eq!(g.out_degree(1), 2);
    assert_eq!(g.out_degree(2), 1);
    assert_eq!(g.out_degree(3), 1);
    assert_eq!(g.out_degree(4), 0);

    assert_eq!(g.in_degree(0), 0);
    assert_eq!(g.in_degree(1), 1);
    assert_eq!(g.in_degree(2), 2);
    assert_eq!(g.in_degree(3), 1);
    assert_eq!(g.in_degree(4), 2);

    assert_eq!(g.out_neighbors(0), &[1, 2]);
    assert_eq!(g.out_neighbors(1), &[2, 3]);
    assert_eq!(g.out_neighbors(2), &[4]);
    assert_eq!(g.out_neighbors(3), &[4]);
    assert_eq!(g.out_neighbors(4), &[]);

    assert_eq!(g.in_neighbors(0), &[]);
    assert_eq!(g.in_neighbors(1), &[0]);
    assert_eq!(g.in_neighbors(2), &[0, 1]);
    assert_eq!(g.in_neighbors(3), &[1]);
    assert_eq!(g.in_neighbors(4), &[2, 3]);
}

#[test]
fn undirected_usize_graph_from_edge_list() {
    let g = undirected(5, &[(0, 1), (0, 2), (1, 2), (1, 3), (2, 4), (3, 4)]);

    assert_eq!(g.node_count(), 5);
    assert_eq!(g.edge_count(), 6);

    assert_eq!(g.degree(0), 2);
    assert_eq!(g.degree(1), 3);
    assert_eq!(g.degree(2), 3);
    assert_eq!(g.degree(3), 2);
    assert_eq!(g.degree(4), 2);

    assert_eq!(g.neighbors(0), &[1, 2]);
    assert_eq!(g.neighbors(1), &[0, 2, 3]);
    assert_eq!(g.neighbors(2), &[0, 1, 4]);
    assert_eq!(g.neighbors(3), &[1, 4]);
    assert_eq!(g.neighbors(4), &[2, 3]);
}

#[test]
fn container_reads_lists_off_the_offsets() {
    let csr = Csr::new(vec![0, 2, 2, 5], vec![1, 2, 0, 0, 1]);
    assert_eq!(csr.node_count(), 3);
    assert_eq!(csr.edge_count(), 5);
    assert_eq!(csr.degree(0), 2);
    assert_eq!(csr.degree(1), 0);
    assert_eq!(csr.degree(2), 3);
    assert_eq!(csr.targets(0), &[1, 2]);
    assert_eq!(csr.targets(1), &[]);
    assert_eq!(csr.targets(2), &[0, 0, 1]);
}

#[test]
fn container_without_nodes() {
    let csr = Csr::try_new(vec![0], Vec::new()).unwrap();
    assert_eq!(csr.node_count(), 0);
    assert_eq!(csr.edge_count(), 0);
}

#[test]
fn container_refuses_arrays_that_do_not_fit() {
    // no offsets at all
    assert!(Csr::try_new(Vec::new(), Vec::new()).is_none());
    // offsets do not start at 0
    assert!(Csr::try_new(vec![1, 2], vec![0, 0]).is_none());
    // offsets decrease
    assert!(Csr::try_new(vec![0, 2, 1, 3], vec![0, 1, 2]).is_none());
    // last offset is not the number of targets
    assert!(Csr::try_new(vec![0, 1, 2], vec![0, 1, 1]).is_none());
    assert!(Csr::try_new(vec![0, 1, 4], vec![0, 1, 1]).is_none());
    // a target is not a node
    assert!(Csr::try_new(vec![0, 1, 2], vec![0, 2]).is_none());
    // the same lists with targets in range
    assert!(Csr::try_new(vec![0, 1, 2], vec![0, 1]).is_some());
}

#[test]
fn undirected_graph_needs_two_entries_per_edge() {
    let odd = Csr::try_new(vec![0, 1, 1], vec![1]).unwrap();
    assert!(UndirectedCsrGraph::try_new(odd).is_none());
    let even = Csr::try_new(vec![0, 1, 2], vec![1, 0]).unwrap();
    let graph = UndirectedCsrGraph::try_new(even).unwrap();
    assert_eq!(graph.node_count(), 2);
    assert_eq!(graph.edge_count(), 1);
}

#[test]
fn directed_graph_needs_two_directions_that_match() {
    let outgoing = Csr::try_new(vec![0, 1, 1], vec![1]).unwrap();
    let fewer_nodes = Csr::try_new(vec![0, 1], vec![0]).unwrap();
    assert!(DirectedCsrGraph::try_new(outgoing, fewer_nodes).is_none());

    let outgoing = Csr::try_new(vec![0, 1, 1], vec![1]).unwrap();
    let more_edges = Csr::try_new(vec![0, 1, 2], vec![0, 0]).unwrap();
    assert!(DirectedCsrGraph::try_new(outgoing, more_edges).is_none());

    let outgoing = Csr::try_new(vec![0, 1, 1], vec![1]).unwrap();
    let incoming = Csr::try_new(vec![0, 0, 1], vec![0]).unwrap();
    let graph = DirectedCsrGraph::try_new(outgoing, incoming).unwrap();
    assert_eq!(graph.node_count(), 2);
    assert_eq!(graph.edge_count(), 1);
    assert_eq!(graph.out_neighbors(0), &[1]);
    assert_eq!(graph.in_neighbors(1), &[0]);
}
