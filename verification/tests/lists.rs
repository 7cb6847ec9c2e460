use puzzle_kernels::lists::{part1, part2, sort};

#[test]
fn sample_columns() {
    let left = vec![3, 4, 2, 1, 3, 3];
    let right = vec![4, 3, 5, 3, 9, 3];
    assert_eq!(part1(&left, &right), Some(11));
    assert_eq!(part2(&left, &right), Some(31));
}

#[test]
fn sorting_puts_numbers_in_rising_order() {
    assert_eq!(sort(&vec![3, -1, 2, 3, i32::MIN]), vec![i32::MIN, -1, 2, 3, 3]);
    assert_eq!(sort(&vec![]), Vec::<i32>::new());
}

#[test]
fn columns_of_different_length_and_extreme_numbers() {
    assert_eq!(part1(&vec![i32::MIN, 7], &vec![i32::MAX]), Some(u32::MAX as u64));
    assert_eq!(part1(&vec![], &vec![1, 2]), Some(0));
    assert_eq!(part2(&vec![-2, -2, 5], &vec![-2, 5, 5, 5]), Some(-2 - 2 + 15));
    assert_eq!(part2(&vec![1, 2], &vec![]), Some(0));
}
