use graph::{
    Csr, DegreePartitionOp, DirectedCsrGraph, InDegreePartitionOp, OutDegreePartitionOp,
    UndirectedCsrGraph,
};

fn container(lists: Vec<Vec<usize>>) -> Csr {
    let mut offsets = vec![0];
    let mut targets = Vec::new();
    for list in lists {
        targets.extend(list);
        offsets.push(targets.len());
    }
    Csr::try_new(offsets, targets).expect("the lists form a valid container")
}

fn directed(node_count: usize, edges: &[(usize, usize)]) -> DirectedCsrGraph {
    let mut outgoing: Vec<Vec<usize>> = vec![Vec::new(); node_count];
    let mut incoming: Vec<Vec<usize>> = vec![Vec::new(); node_count];
    for &(source, target) in edges {
        outgoing[source].push(target);
        incoming[target].push(source);
    }
    DirectedCsrGraph::new(container(outgoing), container(incoming))
}

fn undirected(node_count: usize, edges: &[(usize, usize)]) -> UndirectedCsrGraph {
    let mut lists: Vec<Vec<usize>> = vec![Vec::new(); node_count];
    for &(source, target) in edges {
        lists[source].push(target);
        lists[target].push(source);
    }
    UndirectedCsrGraph::new(container(lists))
}

#[test]
fn degree_partition_of_a_multigraph() {
    let graph = undirected(4, &[(0, 1), (0, 2), (0, 3), (0, 3)]);

    let partition = graph.degree_partition(2);

    assert_eq!(partition.len(), 2);
    assert_eq!(partition[0], 0..1);
    assert_eq!(partition[1], 1..4);
}

#[test]
fn out_degree_partition_in_two_ranges() {
    let graph = directed(4, &[(0, 1), (0, 2), (2, 1), (2, 3)]);

    let partition = graph.out_degree_partition(2);

    assert_eq!(partition.len(), 2);
    assert_eq!(partition[0], 0..1);
    assert_eq!(partition[1], 1..4);
}

#[test]
fn in_degree_partition_in_two_ranges() {
    let graph = directed(4, &[(1, 0), (1, 2), (2, 0), (3, 2)]);

    let partition = graph.in_degree_partition(2);

    assert_eq!(partition.len(), 2);
    assert_eq!(partition[0], 0..1);
    assert_eq!(partition[1], 1..4);
}

#[test]
fn degree_partition_rounds_the_batch_size_up() {
    // total degree 10 over 3 batches: batches of 4, not of 3
    let graph = undirected(6, &[(0, 1), (1, 2), (2, 3), (3, 4), (4, 5)]);
    // degrees 1 2 2 2 2 1
    let partition = graph.degree_partition(3);
    assert_eq!(partition, vec![0..3, 3..5, 5..6]);
}

#[test]
fn in_degree_partition_takes_the_edge_count_once() {
    // 4 edges over 2 batches: batches of 2, where twice the edge count would give 4
    let graph = directed(4, &[(0, 1), (2, 1), (0, 3), (2, 3)]);
    // in degrees 0 2 0 2
    assert_eq!(graph.in_degree_partition(2), vec![0..2, 2..4]);
    // out degrees 2 0 2 0
    assert_eq!(graph.out_degree_partition(2), vec![0..1, 1..4]);
}

#[test]
fn degree_partition_never_exceeds_the_concurrency() {
    let graph = undirected(8, &[(0, 1), (1, 2), (2, 3), (3, 4), (4, 5), (5, 6), (6, 7), (7, 0)]);
    for concurrency in 1..12 {
        let partition = graph.degree_partition(concurrency);
        assert!(partition.len() <= concurrency);
        assert_eq!(partition[0].start, 0);
        assert_eq!(partition[partition.len() - 1].end, 8);
        for pair in partition.windows(2) {
            assert_eq!(pair[0].end, pair[1].start);
        }
        let batch_size = (16 + concurrency - 1) / concurrency;
        for range in &partition[..partition.len() - 1] {
            assert!(2 * (range.end - range.start) >= batch_size);
        }
    }
}

#[test]
fn degree_partition_of_a_graph_without_edges() {
    let graph = undirected(3, &[]);
    assert_eq!(graph.degree_partition(1), vec![0..3]);
    assert_eq!(graph.degree_partition(2), vec![0..1, 1..3]);
}
