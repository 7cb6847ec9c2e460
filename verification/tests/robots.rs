use puzzle_kernels::robots::{i64_mod, part1, part2, place_after, State};

fn robots() -> Vec<State> {
    [
        (0, 4, 3, -3), (6, 3, -1, -3), (10, 3, -1, 2), (2, 0, 2, -1), (0, 0, 1, 3),
        (3, 0, -2, -2), (7, 6, -1, -3), (3, 0, -1, -2), (9, 3, 2, 3), (7, 3, -1, 2),
        (2, 4, 2, -3), (9, 5, -3, -3),
    ]
    .iter()
    .map(|(px, py, vx, vy)| State { pos: [*px, *py], vel: [*vx, *vy] })
    .collect()
}

#[test]
fn sample_floor_after_a_hundred_steps() {
    assert_eq!(part1(&robots(), 100, 11, 7), Some(12));
}

#[test]
fn one_robot_wraps_around() {
    let robot = State { pos: [2, 4], vel: [2, -3] };
    assert_eq!(place_after(&robot, 0, 11, 7), (2, 4));
    assert_eq!(place_after(&robot, 1, 11, 7), (4, 1));
    assert_eq!(place_after(&robot, 2, 11, 7), (6, 5));
    assert_eq!(place_after(&robot, 5, 11, 7), (1, 3));
    assert_eq!(place_after(&robot, -1, 11, 7), (0, 0));
}

#[test]
fn remainders_are_never_negative() {
    assert_eq!(i64_mod(7, 5), 2);
    assert_eq!(i64_mod(-7, 5), 3);
    assert_eq!(i64_mod(-5, 5), 0);
    assert_eq!(i64_mod(0, 5), 0);
    assert_eq!(i64_mod(i64::MIN, 7), 6);
    assert_eq!(i64_mod(i64::MIN, i64::MAX), i64::MAX - 1);
    assert_eq!(i64_mod(i64::MAX, 1), 0);
}

#[test]
fn extreme_robots_do_not_overflow() {
    let robot = State { pos: [i64::MIN, i64::MAX], vel: [i64::MIN, i64::MAX] };
    let at = place_after(&robot, i64::MAX, 101, 103);
    assert!(0 <= at.0 && at.0 < 101 && 0 <= at.1 && at.1 < 103);
}

#[test]
fn first_time_all_robots_stand_apart() {
    let pair = vec![
        State { pos: [0, 0], vel: [1, 0] },
        State { pos: [0, 0], vel: [2, 0] },
    ];
    assert_eq!(part2(&pair, 5, 5, 25), Some(1));
    assert_eq!(part2(&pair, 5, 5, 1), None);
    assert_eq!(part2(&pair, 1, 1, 10), None);
    assert_eq!(part2(&robots(), 11, 7, 77), Some(1));
    assert_eq!(part2(&vec![], 3, 3, 5), Some(0));
}
