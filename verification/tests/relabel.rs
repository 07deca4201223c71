use graph::{
    larger_first, prefix_sum, relabel_by_degree, relabel_list_into, relabel_targets,
    sort_by_degree_desc, unzip_degrees_and_nodes, Csr, Graph, RelabelByDegreeOp,
    UndirectedCsrGraph, UndirectedGraph,
};
use std::cmp::Ordering;

fn undirected(node_count: usize, edges: &[(usize, usize)]) -> UndirectedCsrGraph {
    let mut lists: Vec<Vec<usize>> = vec![Vec::new(); node_count];
    for &(source, target) in edges {
        lists[source].push(target);
        lists[target].push(source);
    }
    let mut offsets = vec![0];
    let mut targets = Vec::new();
    for list in lists {
        targets.extend(list);
        offsets.push(targets.len());
    }
    let csr = Csr::try_new(offsets, targets).expect("the lists form a valid container");
    UndirectedCsrGraph::new(csr)
}

fn sample() -> UndirectedCsrGraph {
    undirected(4, &[(0, 1), (1, 2), (1, 3), (2, 0), (2, 1), (2, 3), (3, 0), (3, 2)])
}

#[test]
fn sort_by_degree_test() {
    let graph = sample();

    assert_eq!(
        sort_by_degree_desc(&graph),
        vec![(5, 2), (4, 3), (4, 1), (3, 0)]
    );
}

#[test]
fn unzip_degrees_and_nodes_test() {
    let degrees_and_nodes = vec![(5, 2), (4, 3), (4, 1), (3, 0)];

    let (degrees, nodes) = unzip_degrees_and_nodes(degrees_and_nodes);

    assert_eq!(degrees, vec![5, 4, 4, 3]);
    assert_eq!(nodes, vec![3, 2, 0, 1]);
}

#[test]
fn relabel_by_degree_test() {
    let graph = sample();

    let relabeled_graph = graph.to_degree_ordered();

    assert_eq!(graph.node_count(), relabeled_graph.node_count());
    assert_eq!(graph.edge_count(), relabeled_graph.edge_count());

    // old -> new
    //   0 -> 3
    //   1 -> 2
    //   2 -> 0
    //   3 -> 1
    assert_eq!(relabeled_graph.degree(0), 5);
    assert_eq!(relabeled_graph.degree(1), 4);
    assert_eq!(relabeled_graph.degree(2), 4);
    assert_eq!(relabeled_graph.degree(3), 3);

    assert_eq!(relabeled_graph.neighbors(0), &[1, 1, 2, 2, 3]);
    assert_eq!(relabeled_graph.neighbors(1), &[0, 0, 2, 3]);
    assert_eq!(relabeled_graph.neighbors(2), &[0, 0, 1, 3]);
    assert_eq!(relabeled_graph.neighbors(3), &[0, 1, 2]);
}

#[test]
fn to_degree_ordered_puts_the_largest_degree_first() {
    let graph = undirected(4, &[(0, 1), (1, 2), (1, 3), (3, 0)]);

    assert_eq!(graph.degree(0), 2);
    assert_eq!(graph.degree(1), 3);
    assert_eq!(graph.degree(2), 1);
    assert_eq!(graph.degree(3), 2);
    assert_eq!(graph.neighbors(0), &[1, 3]);

    let graph = graph.to_degree_ordered();

    assert_eq!(graph.degree(0), 3);
    assert_eq!(graph.degree(1), 2);
    assert_eq!(graph.degree(2), 2);
    assert_eq!(graph.degree(3), 1);
    assert_eq!(graph.neighbors(0), &[1, 2, 3]);
}

#[test]
fn prefix_sum_is_exclusive_and_one_longer() {
    assert_eq!(prefix_sum(vec![5, 4, 4, 3]), vec![0, 5, 9, 13, 16]);
    assert_eq!(prefix_sum(Vec::new()), vec![0]);
}

#[test]
fn relabel_targets_writes_each_list_into_its_own_range() {
    let graph = sample();
    let targets = relabel_targets(&graph, vec![3, 2, 0, 1], &[0, 5, 9, 13, 16]);
    assert_eq!(targets, vec![1, 1, 2, 2, 3, 0, 0, 2, 3, 0, 0, 1, 3, 0, 1, 2]);
}

#[test]
fn relabel_by_degree_is_what_to_degree_ordered_does() {
    let by_function = relabel_by_degree(&sample());
    let by_method = sample().to_degree_ordered();
    assert_eq!(by_function.node_count(), 4);
    assert_eq!(by_function.edge_count(), 8);
    for node in 0..4 {
        assert_eq!(by_function.neighbors(node), by_method.neighbors(node));
    }
}

#[test]
fn relabeling_keeps_the_degrees_in_descending_order() {
    let graph = undirected(6, &[(0, 5), (1, 5), (2, 5), (3, 4), (4, 5), (1, 2)]);
    let relabeled = graph.to_degree_ordered();
    let mut old_degrees: Vec<usize> = (0..6).map(|node| graph.degree(node)).collect();
    old_degrees.sort_unstable_by(|left, right| right.cmp(left));
    let new_degrees: Vec<usize> = (0..6).map(|node| relabeled.degree(node)).collect();
    assert_eq!(new_degrees, old_degrees);
}

#[test]
fn relabeling_twice_keeps_the_degree_sequence() {
    let graph = undirected(6, &[(0, 5), (1, 5), (2, 5), (3, 4), (4, 5), (1, 2)]);
    let once = graph.to_degree_ordered();
    let twice = once.to_degree_ordered();
    assert_eq!(once.node_count(), twice.node_count());
    assert_eq!(once.edge_count(), twice.edge_count());
    for node in 0..6 {
        assert_eq!(once.degree(node), twice.degree(node));
    }
}

#[test]
fn relabeling_keeps_parallel_edges() {
    let graph = undirected(3, &[(0, 1), (0, 1), (1, 2)]);
    let relabeled = graph.to_degree_ordered();
    // old 1 -> new 0, old 0 -> new 1, old 2 -> new 2
    assert_eq!(relabeled.neighbors(0), &[1, 1, 2]);
    assert_eq!(relabeled.neighbors(1), &[0, 0]);
    assert_eq!(relabeled.neighbors(2), &[0]);
}

#[test]
fn relabeling_an_empty_graph_gives_an_empty_graph() {
    let graph = undirected(0, &[]);
    let relabeled = graph.to_degree_ordered();
    assert_eq!(relabeled.node_count(), 0);
    assert_eq!(relabeled.edge_count(), 0);
}

#[test]
fn equal_degrees_give_the_larger_old_id_the_smaller_new_id() {
    let graph = undirected(3, &[(0, 1), (1, 2), (2, 0)]);
    assert_eq!(sort_by_degree_desc(&graph), vec![(2, 2), (2, 1), (2, 0)]);
}

#[test]
fn relabel_list_into_fills_the_range_of_one_new_id() {
    let graph = sample();
    // old node 2 has the new id 0; its neighbors are 1, 0, 1, 3, 3
    let mut list = [9; 5];
    relabel_list_into(&graph, &[3, 2, 0, 1], &[2, 3, 1, 0], 0, &mut list);
    assert_eq!(list, [1, 1, 2, 2, 3]);
    // old node 0 has the new id 3; its neighbors are 1, 2, 3
    let mut list = [9; 3];
    relabel_list_into(&graph, &[3, 2, 0, 1], &[2, 3, 1, 0], 3, &mut list);
    assert_eq!(list, [0, 1, 2]);
}

#[test]
fn larger_pairs_sort_first() {
    assert_eq!(larger_first(&(5, 2), &(4, 3)), Ordering::Less);
    assert_eq!(larger_first(&(4, 3), &(5, 2)), Ordering::Greater);
    assert_eq!(larger_first(&(4, 3), &(4, 1)), Ordering::Less);
    assert_eq!(larger_first(&(4, 1), &(4, 3)), Ordering::Greater);
    assert_eq!(larger_first(&(4, 1), &(4, 1)), Ordering::Equal);
}

#[test]
fn unzip_of_no_pairs() {
    let (degrees, nodes) = unzip_degrees_and_nodes(Vec::new());
    assert!(degrees.is_empty());
    assert!(nodes.is_empty());
}

#[test]
fn relabeling_a_larger_graph_keeps_every_edge() {
    let node_count = 200;
    let mut edges = Vec::new();
    for node in 0..node_count {
        edges.push((node, (node * 7 + 1) % node_count));
        if node % 3 == 0 {
            edges.push((node, (node * 11 + 5) % node_count));
        }
    }
    let graph = undirected(node_count, &edges);
    let relabeled = graph.to_degree_ordered();
    let pairs = sort_by_degree_desc(&graph);
    let (_, id_map) = unzip_degrees_and_nodes(pairs);

    for window in (0..node_count).collect::<Vec<_>>().windows(2) {
        assert!(relabeled.degree(window[0]) >= relabeled.degree(window[1]));
    }
    for old in 0..node_count {
        let mut expected: Vec<usize> = graph.neighbors(old).iter().map(|&w| id_map[w]).collect();
        expected.sort_unstable();
        assert_eq!(relabeled.neighbors(id_map[old]), expected.as_slice());
    }
}
