use hash_finder::HashCalculator;
use hash_finder::merge::aggregate;
use hash_finder::merge::find_insertion_point;
use hash_finder::merge::pool;
use hash_finder::merge::sort_by_candidate;

fn entry(candidate: u64, digest: &str) -> (u64, String) {
    (candidate, digest.to_string())
}

#[test]
fn pool_puts_the_lists_one_after_another() {
    let lanes = vec![
        vec![entry(9, "a"), entry(12, "b")],
        vec![],
        vec![entry(4, "c")],
    ];
    assert_eq!(pool(lanes), vec![entry(9, "a"), entry(12, "b"), entry(4, "c")]);
    assert_eq!(pool(vec![]), vec![]);
}

#[test]
fn find_insertion_point_is_behind_the_last_entry_not_greater() {
    let entries = vec![entry(2, "a"), entry(5, "b"), entry(5, "c"), entry(8, "d")];
    assert_eq!(find_insertion_point(&entries, 0), 0);
    assert_eq!(find_insertion_point(&entries, 2), 1);
    assert_eq!(find_insertion_point(&entries, 4), 1);
    assert_eq!(find_insertion_point(&entries, 5), 3);
    assert_eq!(find_insertion_point(&entries, 8), 4);
    assert_eq!(find_insertion_point(&entries, u64::MAX), 4);
    assert_eq!(find_insertion_point(&vec![], 3), 0);
}

#[test]
fn sort_by_candidate_orders_ascending() {
    let entries = vec![entry(9, "a"), entry(12, "b"), entry(4, "c"), entry(10, "d")];
    assert_eq!(
        sort_by_candidate(entries),
        vec![entry(4, "c"), entry(9, "a"), entry(10, "d"), entry(12, "b")]
    );
}

#[test]
fn sort_by_candidate_keeps_the_order_of_equal_candidates() {
    let entries = vec![entry(5, "x"), entry(1, "y"), entry(5, "z"), entry(1, "w")];
    assert_eq!(
        sort_by_candidate(entries),
        vec![entry(1, "y"), entry(1, "w"), entry(5, "x"), entry(5, "z")]
    );
}

#[test]
fn aggregate_pools_orders_and_cuts() {
    let lanes = vec![
        vec![entry(0, "a"), entry(3, "d"), entry(6, "g")],
        vec![entry(1, "b"), entry(4, "e"), entry(7, "h")],
        vec![entry(2, "c"), entry(5, "f"), entry(8, "i")],
    ];
    assert_eq!(
        aggregate(lanes.clone(), 4),
        vec![entry(0, "a"), entry(1, "b"), entry(2, "c"), entry(3, "d")]
    );
    assert_eq!(aggregate(lanes.clone(), 0), vec![]);
    assert_eq!(aggregate(lanes, 20).len(), 9);
}

#[test]
fn lanes_of_three_workers_cover_a_prefix_exactly() {
    let every = HashCalculator::new(0, 4);
    let lanes = vec![every.scan_lane(0, 3), every.scan_lane(1, 3), every.scan_lane(2, 3)];
    let numbers: Vec<Vec<u64>> = lanes
        .iter()
        .map(|lane| lane.iter().map(|found| found.0).collect())
        .collect();
    assert_eq!(numbers, vec![vec![0, 3, 6, 9], vec![1, 4, 7, 10], vec![2, 5, 8, 11]]);
    let merged: Vec<u64> = aggregate(lanes, 12).iter().map(|found| found.0).collect();
    assert_eq!(merged, (0..12).collect::<Vec<u64>>());
}

#[test]
fn search_for_no_zeros_returns_the_first_numbers() {
    for workers in [1, 2, 5, 16] {
        let found = HashCalculator::new(0, 10).find_hashes_with(workers);
        let numbers: Vec<u64> = found.iter().map(|found| found.0).collect();
        assert_eq!(numbers, (0..10).collect::<Vec<u64>>());
    }
}
