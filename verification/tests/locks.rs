use puzzle_kernels::locks::{fits_lock, part1};

#[test]
fn sample_locks_and_keys() {
    let locks = vec![vec![1, 6, 4, 5, 4], vec![2, 3, 1, 6, 4]];
    let keys = vec![vec![6, 1, 3, 2, 4], vec![5, 4, 5, 1, 3], vec![4, 1, 3, 1, 2]];
    assert_eq!(part1(&locks, &keys), Some(3));
    assert!(!fits_lock(&locks[0], &keys[0]));
    assert!(!fits_lock(&locks[0], &keys[1]));
    assert!(fits_lock(&locks[0], &keys[2]));
    assert!(!fits_lock(&locks[1], &keys[0]));
    assert!(fits_lock(&locks[1], &keys[1]));
    assert!(fits_lock(&locks[1], &keys[2]));
}

#[test]
fn columns_are_compared_as_far_as_both_reach() {
    assert!(fits_lock(&vec![7], &vec![0, 9]));
    assert!(!fits_lock(&vec![7, 1], &vec![1]));
    assert!(fits_lock(&vec![], &vec![9]));
    assert!(!fits_lock(&vec![usize::MAX], &vec![usize::MAX]));
    assert!(!fits_lock(&vec![8], &vec![0]));
    assert_eq!(part1(&vec![], &vec![vec![1]]), Some(0));
}
