use graph::{greedy_node_map_partition, is_contiguous};

#[test]
fn greedy_node_map_partition_1_part() {
    let partitions = greedy_node_map_partition(|_| 1_usize, 10, 10, 99999);
    assert_eq!(partitions.len(), 1);
    assert_eq!(partitions[0], 0..10);
}

#[test]
fn greedy_node_map_partition_2_parts() {
    let partitions = greedy_node_map_partition(|x| x % 2_usize, 10, 4, 99999);
    assert_eq!(partitions.len(), 2);
    assert_eq!(partitions[0], 0..8);
    assert_eq!(partitions[1], 8..10);
}

#[test]
fn greedy_node_map_partition_6_parts() {
    let partitions = greedy_node_map_partition(|x| x as usize, 10, 6, 99999);
    assert_eq!(partitions.len(), 6);
    assert_eq!(partitions[0], 0..4);
    assert_eq!(partitions[1], 4..6);
    assert_eq!(partitions[2], 6..7);
    assert_eq!(partitions[3], 7..8);
    assert_eq!(partitions[4], 8..9);
    assert_eq!(partitions[5], 9..10);
}

#[test]
fn greedy_node_map_partition_max_batches() {
    let partitions = greedy_node_map_partition(|x| x as usize, 10, 6, 3);
    assert_eq!(partitions.len(), 3);
    assert_eq!(partitions[0], 0..4);
    assert_eq!(partitions[1], 4..6);
    assert_eq!(partitions[2], 6..10);
}

#[test]
fn greedy_partition_of_a_single_node() {
    let partitions = greedy_node_map_partition(|_| 7_usize, 1, 3, 4);
    assert_eq!(partitions, vec![0..1]);
}

#[test]
fn greedy_partition_of_zero_costs_is_one_range() {
    let partitions = greedy_node_map_partition(|_| 0_usize, 6, 2, 4);
    assert_eq!(partitions, vec![0..6]);
}

#[test]
fn greedy_partition_with_one_batch_takes_all_nodes() {
    let partitions = greedy_node_map_partition(|x| x, 5, 1, 1);
    assert_eq!(partitions, vec![0..5]);
}

#[test]
fn greedy_partition_with_batch_size_zero_closes_at_every_node() {
    let partitions = greedy_node_map_partition(|_| 0_usize, 4, 0, 3);
    assert_eq!(partitions, vec![0..1, 1..2, 2..4]);
}

#[test]
fn greedy_partition_survives_costs_beyond_a_machine_word() {
    let partitions = greedy_node_map_partition(|_| usize::MAX, 4, usize::MAX, 2);
    assert_eq!(partitions, vec![0..1, 1..4]);
}

#[test]
fn contiguous_ranges_are_told_from_others() {
    assert!(is_contiguous(&[]));
    assert!(is_contiguous(&[0..0]));
    assert!(is_contiguous(&[0..3, 3..3, 3..7]));
    // does not begin at node 0
    assert!(!is_contiguous(&[1..3]));
    // a gap
    assert!(!is_contiguous(&[0..3, 4..7]));
    // an overlap
    assert!(!is_contiguous(&[0..3, 2..7]));
    // a range that runs backwards
    #[allow(clippy::reversed_empty_ranges)]
    let backwards = [0..3, 3..2];
    assert!(!is_contiguous(&backwards));
}

#[test]
fn greedy_partitions_are_contiguous() {
    for max_batches in 1..8 {
        for batch_size in 0..9 {
            let partitions = greedy_node_map_partition(|x| (x * 7) % 5, 11, batch_size, max_batches);
            assert!(is_contiguous(&partitions));
            assert!(partitions.len() <= max_batches);
            assert_eq!(partitions[partitions.len() - 1].end, 11);
            for range in &partitions {
                assert!(range.start < range.end);
            }
            for range in &partitions[..partitions.len() - 1] {
                let cost: usize = (range.start..range.end).map(|x| (x * 7) % 5).sum();
                assert!(cost >= batch_size);
            }
        }
    }
}
