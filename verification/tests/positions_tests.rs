use winterfell::positions::{
    map_layer_positions, map_positions, map_trace_to_constraint_positions, partition,
    shuffle_evaluations, sort_positions, to_global_position, to_local_positions,
    trailing_zero_count,
};

#[test]
fn constraint_positions_are_halved_and_deduplicated() {
    assert_eq!(map_trace_to_constraint_positions(&[1, 2, 3, 6, 7, 0]), vec![0, 1, 3]);
    assert_eq!(map_trace_to_constraint_positions(&[]), Vec::<usize>::new());
    assert_eq!(map_trace_to_constraint_positions(&[9, 8]), vec![4]);
}

#[test]
fn partition_by_remainder() {
    let values: Vec<u128> = (0..10).collect();
    let parts = partition(&values, 4);
    assert_eq!(parts, vec![vec![0, 4, 8], vec![1, 5, 9], vec![2, 6], vec![3, 7]]);
    let parts = partition(&values, 1);
    assert_eq!(parts, vec![values.clone()]);
}

#[test]
fn shuffle_groups_partitions() {
    let values: Vec<u32> = (0..8).collect();
    assert_eq!(shuffle_evaluations(&values, 2), vec![0, 2, 4, 6, 1, 3, 5, 7]);
    assert_eq!(shuffle_evaluations(&values, 4), vec![0, 4, 1, 5, 2, 6, 3, 7]);
    assert_eq!(shuffle_evaluations(&values, 1), values);
}

#[test]
fn shuffled_layer_agrees_with_mapped_positions() {
    // a layer of 64 values holds 16 groups of four; 4 partitions of 4 groups each
    let groups: Vec<[u64; 4]> = (0..16u64).map(|i| [i, i + 100, i + 200, i + 300]).collect();
    let num_partitions = 4;
    let shuffled = shuffle_evaluations(&groups, num_partitions);
    let positions: Vec<usize> = (0..16).collect();
    let mapped = map_positions(&positions, 64, num_partitions);
    // every mapped position is distinct and sorted; the shuffled layer holds the same group
    let mut expected: Vec<usize> = positions
        .iter()
        .map(|&p| (p % num_partitions) * 4 + p / num_partitions)
        .collect();
    expected.sort();
    assert_eq!(mapped, expected);
    for &p in positions.iter() {
        let k = (p % num_partitions) * 4 + p / num_partitions;
        assert_eq!(shuffled[k], groups[p]);
    }
}

#[test]
fn mapped_positions_are_sorted() {
    assert_eq!(map_positions(&[5, 1, 6], 32, 2), vec![3, 4, 6]);
    assert_eq!(sort_positions(vec![3, 1, 2, 1]), vec![1, 1, 2, 3]);
    // sizes that are not powers of two: 6 groups (one trailing zero) and 3 partitions (none)
    // give one local bit; position 7 is in partition 1 at offset 2, and 2 | 2 = 2
    assert_eq!(map_positions(&[7], 24, 3), vec![2]);
}

#[test]
fn trailing_zeros_match_std() {
    for n in [0usize, 1, 2, 12, 64, 96, 1 << 20, usize::MAX] {
        assert_eq!(trailing_zero_count(n), n.trailing_zeros() as usize);
    }
}

#[test]
fn worker_local_positions() {
    // positions congruent to 1 modulo 2, translated and deduplicated
    assert_eq!(to_local_positions(&[1, 3, 4, 5, 3], 2, 1), vec![0, 1, 2]);
    assert_eq!(to_local_positions(&[0, 2], 2, 1), Vec::<usize>::new());
    assert_eq!(map_layer_positions(&[5, 1, 9, 2], 4), vec![1, 2]);
}

#[test]
fn global_positions_of_workers() {
    // domain of 64 values: layer 0 holds 16 groups, 2 workers of 8 groups each
    assert_eq!(to_global_position(64, 2, 1, 0, 3), 11);
    assert_eq!(to_global_position(64, 2, 0, 0, 5), 5);
    // layer 1 holds 4 groups, 2 per worker
    assert_eq!(to_global_position(64, 2, 1, 1, 1), 3);
    // the worker-side route matches the partition index of the shuffled layer
    for p in 0..16usize {
        let global = to_global_position(64, 2, p % 2, 0, (p - p % 2) / 2);
        assert_eq!(global, (p % 2) * 8 + p / 2);
    }
}

#[test]
fn workers_find_positions_in_their_partitions() {
    let values: Vec<u128> = (100..110).collect();
    let parts = partition(&values, 3);
    for p in 0..values.len() {
        let worker = p % 3;
        let local = to_local_positions(&[p], 3, worker);
        assert_eq!(local.len(), 1);
        assert_eq!(parts[worker][local[0]], values[p]);
    }
}
