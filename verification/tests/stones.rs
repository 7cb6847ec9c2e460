use puzzle_kernels::stones::{apply_rule, count_stones, num_digits};

#[test]
fn sample_stones() {
    let stones = vec![125, 17];
    assert_eq!(count_stones(&stones, 0), Some(2));
    assert_eq!(count_stones(&stones, 1), Some(3));
    assert_eq!(count_stones(&stones, 6), Some(22));
    assert_eq!(count_stones(&stones, 25), Some(55312));
    assert_eq!(count_stones(&stones, 75), Some(65601038650482));
}

#[test]
fn the_three_rules() {
    assert_eq!(apply_rule(0), Some(vec![1]));
    assert_eq!(apply_rule(1), Some(vec![2024]));
    assert_eq!(apply_rule(10), Some(vec![0, 1]));
    assert_eq!(apply_rule(99), Some(vec![9, 9]));
    assert_eq!(apply_rule(999), Some(vec![2021976]));
    assert_eq!(apply_rule(253000), Some(vec![0, 253]));
    assert_eq!(apply_rule(1000), Some(vec![0, 10]));
    assert_eq!(apply_rule(12345678), Some(vec![5678, 1234]));
}

#[test]
fn digits_are_counted() {
    assert_eq!(num_digits(0), 1);
    assert_eq!(num_digits(9), 1);
    assert_eq!(num_digits(10), 2);
    assert_eq!(num_digits(999), 3);
    assert_eq!(num_digits(1000), 4);
    assert_eq!(num_digits(u64::MAX), 20);
}

#[test]
fn a_product_that_does_not_fit() {
    assert_eq!(apply_rule(10_000_000_000_000_000), None);
    assert_eq!(apply_rule(u64::MAX), Some(vec![3709551615, 1844674407]));
    assert_eq!(count_stones(&vec![10_000_000_000_000_000], 1), None);
    assert_eq!(count_stones(&vec![10_000_000_000_000_000], 0), Some(1));
    assert_eq!(count_stones(&vec![], 9), Some(0));
}
