use puzzle_kernels::grid::{
    manhattan, manhattan_distance, step, turn_left, turn_right, Direction,
};

const ALL: [Direction; 4] = [Direction::North, Direction::East, Direction::South, Direction::West];

fn opposite(d: Direction) -> Direction {
    turn_right(turn_right(d))
}

#[test]
fn turns() {
    assert_eq!(turn_right(Direction::North), Direction::East);
    assert_eq!(turn_right(Direction::East), Direction::South);
    assert_eq!(turn_right(Direction::South), Direction::West);
    assert_eq!(turn_right(Direction::West), Direction::North);
    for d in ALL {
        assert_eq!(turn_left(turn_right(d)), d);
        assert_eq!(turn_right(turn_left(d)), d);
        assert_eq!(Direction::from_number(d.number()), d);
    }
}

#[test]
fn steps_stay_on_the_grid() {
    assert_eq!(step((0, 0), Direction::North, 3, 4), None);
    assert_eq!(step((0, 0), Direction::West, 3, 4), None);
    assert_eq!(step((0, 0), Direction::South, 3, 4), Some((1, 0)));
    assert_eq!(step((0, 0), Direction::East, 3, 4), Some((0, 1)));
    assert_eq!(step((2, 3), Direction::South, 3, 4), None);
    assert_eq!(step((2, 3), Direction::East, 3, 4), None);
    assert_eq!(step((5, 5), Direction::North, 3, 4), None);
    assert_eq!(step((usize::MAX, 0), Direction::South, usize::MAX, 1), None);
    assert_eq!(step((0, 0), Direction::South, 0, 0), None);
}

#[test]
fn a_step_is_undone_by_the_opposite_step() {
    for row in 0..3 {
        for column in 0..4 {
            for d in ALL {
                if let Some(to) = step((row, column), d, 3, 4) {
                    assert_eq!(step(to, opposite(d), 3, 4), Some((row, column)));
                }
            }
        }
    }
}

#[test]
fn distances() {
    assert_eq!(manhattan((1, 2), (4, 0)), 5);
    assert_eq!(manhattan((4, 0), (1, 2)), 5);
    assert_eq!(manhattan((3, 3), (3, 3)), 0);
    assert_eq!(manhattan_distance((1, 2), (4, 0)), 5);
    assert_eq!(manhattan((0, 0), (usize::MAX, usize::MAX)), 2 * (usize::MAX as u128));
    assert_eq!(manhattan_distance((0, 0), (usize::MAX, usize::MAX)), u64::MAX);
}
