use array2d::Array2D;
use puzzle_kernels::antennas::{antinode_at, check_location, find_locations, part1, part2};

fn parse(lines: &[&str]) -> Array2D<char> {
    let rows: Vec<Vec<char>> = lines.iter().map(|line| line.chars().collect()).collect();
    Array2D::from_rows(&rows).unwrap()
}

fn city() -> Array2D<char> {
    parse(&[
        "............",
        "........0...",
        ".....0......",
        ".......0....",
        "....0.......",
        "......A.....",
        "............",
        "............",
        "........A...",
        ".........A..",
        "............",
        "............",
    ])
}

#[test]
fn sample_antinodes() {
    assert_eq!(part1(&city()), 14);
    assert_eq!(part2(&city()), 34);
}

#[test]
fn two_antennas() {
    let map = parse(&["..........", "...#......", "..........", "....a.....", "..........",
        ".....a....", "..........", "......#...", "..........", ".........."]);
    assert!(antinode_at(&map, (1, 3), false));
    assert!(antinode_at(&map, (7, 6), false));
    assert!(!antinode_at(&map, (3, 4), false));
    assert!(!antinode_at(&map, (9, 7), false));
    assert!(antinode_at(&map, (3, 4), true));
    assert!(antinode_at(&map, (9, 7), true));
    assert!(!antinode_at(&map, (20, 20), true));
}

#[test]
fn harmonics_of_three_antennas() {
    let map = parse(&["T.........", "...T......", ".T........", "..........", "..........",
        "..........", "..........", "..........", "..........", ".........."]);
    assert_eq!(part2(&map), 9);
    assert_eq!(part1(&map), 3);
}

#[test]
fn single_antennas_and_empty_maps_make_no_antinodes() {
    assert_eq!(part1(&parse(&["a.b", "..."])), 0);
    assert_eq!(part2(&parse(&["a.b", "..."])), 0);
    assert_eq!(part2(&parse(&["a.a"])), 2);
    assert_eq!(part1(&parse(&["a.a"])), 0);
    assert_eq!(part1(&parse(&[".aa."])), 2);
    let empty: Array2D<char> = Array2D::from_rows(&Vec::<Vec<char>>::new()).unwrap();
    assert_eq!(part1(&empty), 0);
}

#[test]
fn antennas_of_a_frequency() {
    assert_eq!(find_locations(&city(), 'A'), vec![(5, 6), (8, 8), (9, 9)]);
    assert_eq!(find_locations(&city(), 'z'), vec![]);
}

#[test]
fn places_on_a_map() {
    assert!(check_location(&(0, 0), &(1, 1)));
    assert!(!check_location(&(1, 0), &(1, 1)));
    assert!(!check_location(&(0, -1), &(1, 1)));
    assert!(!check_location(&(0, 0), &(0, 0)));
    assert!(check_location(&(i32::MAX - 1, 0), &(i32::MAX, 1)));
}
