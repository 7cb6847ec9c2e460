use puzzle_kernels::secrets::{gen_next, part1, part2};

#[test]
fn first_numbers_after_123() {
    let expected = [
        15887950, 16495136, 527345, 704524, 1553684, 12683156, 11100544, 12249484, 7753432,
        5908254,
    ];
    let mut num = 123;
    for want in expected {
        num = gen_next(num);
        assert_eq!(num, want);
    }
}

#[test]
fn sample_buyers_after_2000_steps() {
    assert_eq!(part1(&vec![1]), Some(8685429));
    assert_eq!(part1(&vec![10]), Some(4700978));
    assert_eq!(part1(&vec![100]), Some(15273692));
    assert_eq!(part1(&vec![2024]), Some(8667524));
    assert_eq!(part1(&vec![1, 10, 100, 2024]), Some(37327623));
    assert_eq!(part1(&vec![]), Some(0));
}

#[test]
fn sample_buyers_best_window() {
    assert_eq!(part2(&vec![1, 2, 3, 2024]), 23);
    assert_eq!(part2(&vec![]), 0);
}

#[test]
fn numbers_stay_within_24_bits_and_depend_on_the_seed_alone() {
    for seed in [0, 1, 123, 16777215, 16777216, u64::MAX, 1 << 58, 1 << 63] {
        let mut a = seed;
        let mut b = seed;
        for _ in 0..50 {
            a = gen_next(a);
            b = gen_next(b);
            assert_eq!(a, b);
            assert!(a < (1 << 24));
        }
    }
    assert_eq!(gen_next(0), 0);
}
