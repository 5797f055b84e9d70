use hash_finder::calculator::search;
use hash_finder::HashCalculator;

fn numbers(found: &[(u64, String)]) -> Vec<u64> {
    found.iter().map(|entry| entry.0).collect()
}

#[test]
fn one_zero_one_result_is_the_smallest_match() {
    let found = HashCalculator::new(1, 1).find_hashes();
    assert_eq!(
        found,
        vec![(
            23,
            "535fa30d7e25dd8a49f1536779734ec8286108d115da5045d77f3b4185d8f790".to_string()
        )]
    );
}

#[test]
fn single_worker_and_eight_workers_agree() {
    let calculator = HashCalculator::new(2, 5);
    let alone = calculator.find_hashes_with(1);
    let eight = calculator.find_hashes_with(8);
    assert_eq!(alone, eight);
    assert_eq!(numbers(&alone), vec![403, 932, 1270, 2012, 2081]);
}

#[test]
fn every_worker_count_gives_the_first_matches() {
    let calculator = HashCalculator::new(1, 5);
    for workers in 1..=7 {
        let found = calculator.find_hashes_with(workers);
        assert_eq!(numbers(&found), vec![23, 38, 76, 105, 133]);
    }
}

#[test]
fn repeated_searches_agree() {
    let calculator = HashCalculator::new(3, 2);
    let first = calculator.find_hashes();
    let second = calculator.find_hashes();
    assert_eq!(first, second);
    assert_eq!(
        first,
        vec![
            (
                4163,
                "95d4362bd3cd4315d0bbe38dfa5d7fb8f0aed5f1a31d98d510907279194e3000".to_string()
            ),
            (
                11848,
                "cb58074fd7620cd0ff471922fd9df8812f29f302904b15e389fc14570a66f000".to_string()
            ),
        ]
    );
}

#[test]
fn result_is_strictly_ascending_and_no_longer_than_asked() {
    let found = HashCalculator::new(1, 20).find_hashes_with(3);
    assert_eq!(found.len(), 20);
    for pair in found.windows(2) {
        assert!(pair[0].0 < pair[1].0);
    }
    for (_, digest) in &found {
        assert_eq!(digest.len(), 64);
        assert!(digest.ends_with('0'));
    }
}

#[test]
fn nothing_asked_nothing_found() {
    assert_eq!(HashCalculator::new(1, 0).find_hashes_with(4), vec![]);
}

#[test]
fn scan_lane_returns_the_first_matches_of_the_lane() {
    let calculator = HashCalculator::new(1, 2);
    assert_eq!(numbers(&calculator.scan_lane(0, 1)), vec![23, 38]);
    assert_eq!(numbers(&calculator.scan_lane(0, 2)), vec![38, 76]);
    assert_eq!(numbers(&calculator.scan_lane(1, 2)), vec![23, 105]);
}

#[test]
fn display_hashes_writes_number_and_quoted_digest() {
    let calculator = HashCalculator::new(2, 2);
    let hashes = calculator.find_hashes_with(2);
    assert_eq!(
        calculator.display_hashes(&hashes),
        vec![
            "403, \"d26eae87829adde551bf4b852f9da6b8c3c2db9b65b8b68870632a2db5f53e00\""
                .to_string(),
            "932, \"6e8d1a943f129896827384a699a11a6bc83d13ab6b8667763df327c8b2a9b500\""
                .to_string(),
        ]
    );
}

#[test]
fn display_hashes_shows_no_more_than_asked() {
    let calculator = HashCalculator::new(1, 1);
    let hashes = vec![(1, "aa".to_string()), (2, "bb".to_string())];
    assert_eq!(calculator.display_hashes(&hashes), vec!["1, \"aa\"".to_string()]);
    assert_eq!(HashCalculator::new(1, 5).display_hashes(&hashes).len(), 2);
}

#[test]
fn a_match_stands_at_its_rank_once() {
    // 76 is the third number whose digest ends in a zero.
    for count in 3..=6 {
        let found = HashCalculator::new(1, count).find_hashes_with(4);
        assert_eq!(found[2].0, 76);
        assert_eq!(numbers(&found).iter().filter(|n| **n == 76).count(), 1);
    }
    let short = HashCalculator::new(1, 2).find_hashes_with(4);
    assert!(!numbers(&short).contains(&76));
}

#[test]
fn search_is_the_search_of_a_new_calculator() {
    assert_eq!(search(2, 3), HashCalculator::new(2, 3).find_hashes_with(1));
    assert_eq!(numbers(&search(2, 3)), vec![403, 932, 1270]);
}

#[test]
fn scan_lane_near_the_end_of_the_numbers_stops() {
    let every = HashCalculator::new(0, 5);
    let found = every.scan_lane(u64::MAX - 1, u64::MAX);
    assert_eq!(numbers(&found), vec![u64::MAX - 1]);
    let none = HashCalculator::new(65, 1).scan_lane(u64::MAX - 3, u64::MAX - 2);
    assert_eq!(numbers(&none), Vec::<u64>::new());
}
