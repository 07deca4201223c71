use graph::split_by_partition;

#[test]
fn split_by_partition_3_parts() {
    let partition = vec![0..2, 2..5, 5..10];
    let mut slice = (0..10).into_iter().collect::<Vec<_>>();
    let splits = split_by_partition(&partition, &mut slice);

    assert_eq!(splits.len(), partition.len());
    for (s, p) in splits.into_iter().zip(partition) {
        assert_eq!(s, p.into_iter().collect::<Vec<usize>>());
    }
}

#[test]
fn split_by_partition_8_parts() {
    let partition = vec![0..1, 1..2, 2..3, 3..4, 4..6, 6..7, 7..8, 8..10];
    let mut slice = (0..10).into_iter().collect::<Vec<_>>();
    let splits = split_by_partition(&partition, &mut slice);

    assert_eq!(splits.len(), partition.len());
    for (s, p) in splits.into_iter().zip(partition) {
        assert_eq!(s, p.into_iter().collect::<Vec<usize>>());
    }
}

#[test]
fn split_by_partition_round_trip() {
    let partition = vec![0..3, 3..3, 3..4, 4..9];
    let mut slice = vec![10, 11, 12, 13, 14, 15, 16, 17, 18];
    let expected = slice.clone();
    let splits = split_by_partition(&partition, &mut slice);

    let widths: Vec<usize> = splits.iter().map(|split| split.len()).collect();
    assert_eq!(widths, vec![3, 0, 1, 5]);
    let joined: Vec<i32> = splits.iter().flat_map(|split| split.iter().copied()).collect();
    assert_eq!(joined, expected);
}

#[test]
fn split_by_partition_writes_reach_the_buffer() {
    let partition = vec![0..2, 2..5];
    let mut slice = vec![0; 5];
    let mut splits = split_by_partition(&partition, &mut slice);
    splits[0][1] = 7;
    splits[1][0] = 8;
    splits[1][2] = 9;
    assert_eq!(slice, vec![0, 7, 8, 0, 9]);
}

#[test]
fn split_by_empty_partition_of_empty_buffer() {
    let partition: Vec<std::ops::Range<usize>> = Vec::new();
    let mut slice: Vec<u8> = Vec::new();
    let splits = split_by_partition(&partition, &mut slice);
    assert!(splits.is_empty());
}
