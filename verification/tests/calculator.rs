use hash_finder::calculator::worker_count;
use hash_finder::HashCalculator;

#[test]
fn test_calculate_hash_none() {
    let calculator = HashCalculator::new(5, 10);
    let result = calculator.calculate_hash(10);
    if let None = result {
        assert!(true);
    }
}

#[test]
fn test_available_cores_used() {
    for detected in [None, Some(0), Some(1), Some(12)] {
        let cores = worker_count(detected);
        assert!(cores > 0);
    }
}

#[test]
fn test_calculate_hash() {
    let calculator = HashCalculator::new(2, 10);
    let result = calculator.calculate_hash(10);
    if let Some((_, hash)) = result {
        assert!(hash.ends_with("00"));
    }
}

#[test]
fn test_display_hashes_count() {
    let calculator = HashCalculator::new(1, 3);
    let hashes = calculator.find_hashes();
    for line in calculator.display_hashes(&hashes) {
        println!("{}", line);
    }
}

#[test]
fn calculate_hash_of_ten_does_not_end_in_zero() {
    assert_eq!(HashCalculator::new(1, 1).calculate_hash(10), None);
    assert_eq!(HashCalculator::new(5, 10).calculate_hash(10), None);
}

#[test]
fn calculate_hash_returns_number_and_lowercase_hex_digest() {
    let found = HashCalculator::new(1, 1).calculate_hash(23);
    assert_eq!(
        found,
        Some((
            23,
            "535fa30d7e25dd8a49f1536779734ec8286108d115da5045d77f3b4185d8f790".to_string()
        ))
    );
    let found = HashCalculator::new(2, 1).calculate_hash(403);
    assert_eq!(
        found,
        Some((
            403,
            "d26eae87829adde551bf4b852f9da6b8c3c2db9b65b8b68870632a2db5f53e00".to_string()
        ))
    );
    assert_eq!(HashCalculator::new(3, 1).calculate_hash(403), None);
}

#[test]
fn calculate_hash_with_no_zeros_asked_accepts_every_number() {
    assert_eq!(
        HashCalculator::new(0, 1).calculate_hash(10),
        Some((
            10,
            "4a44dc15364204a80fe80e9039455cc1608281820fe2b24f1e5233ade6af1dd5".to_string()
        ))
    );
    assert_eq!(
        HashCalculator::new(0, 1).calculate_hash(0),
        Some((
            0,
            "5feceb66ffc86f38d952786c6d696c79c2dbc239dd4e91b46729d73a27fb57e9".to_string()
        ))
    );
}

#[test]
fn calculate_hash_with_more_zeros_than_digits_accepts_nothing() {
    assert_eq!(HashCalculator::new(65, 1).calculate_hash(23), None);
    assert_eq!(HashCalculator::new(usize::MAX, 1).calculate_hash(4163), None);
}

#[test]
fn worker_count_is_the_detected_number_or_one() {
    assert_eq!(worker_count(Some(8)), 8);
    assert_eq!(worker_count(Some(1)), 1);
    assert_eq!(worker_count(Some(0)), 1);
    assert_eq!(worker_count(None), 1);
}
