use puzzle_kernels::calibration::{concat_u64, find_match, find_match_concat, part1, part2};

fn equations() -> Vec<(u64, Vec<u64>)> {
    vec![
        (190, vec![10, 19]),
        (3267, vec![81, 40, 27]),
        (83, vec![17, 5]),
        (156, vec![15, 6]),
        (7290, vec![6, 8, 6, 15]),
        (161011, vec![16, 10, 13]),
        (192, vec![17, 8, 14]),
        (21037, vec![9, 7, 18, 13]),
        (292, vec![11, 6, 16, 20]),
    ]
}

#[test]
fn sample_equations() {
    assert_eq!(part1(&equations()), Some(3749));
    assert_eq!(part2(&equations()), Some(11387));
}

#[test]
fn single_equations() {
    assert!(find_match(10, 190, &[19]));
    assert!(find_match(81, 3267, &[40, 27]));
    assert!(!find_match(17, 83, &[5]));
    assert!(!find_match(15, 156, &[6]));
    assert!(find_match_concat(15, 156, &[6]));
    assert!(find_match_concat(6, 7290, &[8, 6, 15]));
    assert!(find_match_concat(17, 192, &[8, 14]));
    assert!(find_match(5, 5, &[]));
    assert!(!find_match(5, 6, &[]));
}

#[test]
fn joined_digits() {
    assert_eq!(concat_u64(12, 345), Some(12345));
    assert_eq!(concat_u64(12, 0), Some(120));
    assert_eq!(concat_u64(0, 7), Some(7));
    assert_eq!(concat_u64(1, u64::MAX), None);
    assert_eq!(concat_u64(18446744073709551, 615), Some(u64::MAX));
    assert_eq!(concat_u64(18446744073709551, 616), None);
    assert_eq!(concat_u64(u64::MAX, 1), None);
}

#[test]
fn large_numbers_do_not_overflow() {
    assert!(!find_match(u64::MAX, 5, &[u64::MAX, u64::MAX]));
    assert!(!find_match_concat(u64::MAX, u64::MAX - 1, &[u64::MAX, u64::MAX, u64::MAX]));
    assert!(find_match(u64::MAX, u64::MAX, &[1]));
    assert!(find_match(u64::MAX - 1, u64::MAX, &[1]));
    assert!(find_match_concat(1844674407370955161, u64::MAX, &[5]));
}

#[test]
fn a_zero_brings_a_large_value_down() {
    assert!(find_match(100, 7, &[0, 7]));
    assert!(find_match(3, 0, &[5, 0]));
    assert!(!find_match(3, 1, &[5, 0]));
}

#[test]
fn equations_without_numbers_do_not_count() {
    assert_eq!(part1(&vec![(5, vec![]), (5, vec![5])]), Some(5));
    assert_eq!(part1(&vec![(u64::MAX, vec![u64::MAX]), (1, vec![1])]), None);
}
