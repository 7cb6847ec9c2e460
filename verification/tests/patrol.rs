use array2d::Array2D;
use puzzle_kernels::patrol::{
    count_traps, find_guard, find_locations, part1, part2, test_for_cycle, walk,
};

fn parse(lines: &[&str]) -> Array2D<char> {
    let rows: Vec<Vec<char>> = lines.iter().map(|line| line.chars().collect()).collect();
    Array2D::from_rows(&rows).unwrap()
}

fn lab() -> Array2D<char> {
    parse(&[
        "....#.....",
        ".........#",
        "..........",
        "..#.......",
        ".......#..",
        "..........",
        ".#..^.....",
        "........#.",
        "#.........",
        "......#...",
    ])
}

#[test]
fn sample_patrol_visits() {
    let map = lab();
    let start = find_guard(&map).unwrap();
    assert_eq!(start, (6, 4));
    assert_eq!(part1(&map, start), 41);
    assert!(!test_for_cycle(&map, start));
}

#[test]
fn sample_patrol_traps() {
    let map = lab();
    assert_eq!(part2(&map, (6, 4)), 6);
}

#[test]
fn an_obstacle_in_the_right_place_makes_a_circle() {
    let mut map = lab();
    map[(6, 3)] = '#';
    assert!(test_for_cycle(&map, (6, 4)));
    let mut other = lab();
    other[(5, 4)] = '#';
    assert!(!test_for_cycle(&other, (6, 4)));
}

#[test]
fn a_boxed_in_guard_turns_in_a_circle() {
    let map = parse(&[".#.", "#^#", ".#."]);
    let end = walk(&map, (1, 1));
    assert!(end.cycles);
    assert_eq!(end.visited, vec![(1, 1)]);
}

#[test]
fn a_guard_on_an_open_map_walks_off() {
    let map = parse(&["...", ".^.", "..."]);
    assert_eq!(find_locations(&map, (1, 1)), vec![(1, 1), (0, 1)]);
    assert!(!test_for_cycle(&map, (1, 1)));
    assert_eq!(count_traps(&map, (1, 1), &vec![(1, 1), (0, 1)]), 0);
}

#[test]
fn no_guard() {
    assert_eq!(find_guard(&parse(&["..#", "#.."])), None);
    assert_eq!(find_guard(&parse(&["..#", "#v."])), Some((1, 1)));
}
