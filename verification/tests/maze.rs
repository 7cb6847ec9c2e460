use array2d::Array2D;
use puzzle_kernels::grid::{Direction, MapContent};
use puzzle_kernels::maze::{best_seats, explore, find_start, State};

fn parse(lines: &[&str]) -> Array2D<MapContent> {
    let rows: Vec<Vec<MapContent>> = lines
        .iter()
        .map(|line| {
            line.chars()
                .map(|c| match c {
                    '#' => MapContent::Wall,
                    'S' => MapContent::Start,
                    'E' => MapContent::End,
                    _ => MapContent::Empty,
                })
                .collect()
        })
        .collect();
    Array2D::from_rows(&rows).unwrap()
}

#[test]
fn straight_corridor_costs_its_length() {
    let map = parse(&["#####", "#S.E#", "#####"]);
    let start = State { location: find_start(&map).unwrap(), direction: Direction::East };
    assert_eq!(explore(&map, &start), Some(2));
}

#[test]
fn facing_away_costs_two_turns() {
    let map = parse(&["#####", "#S.E#", "#####"]);
    let start = State { location: (1, 1), direction: Direction::West };
    assert_eq!(explore(&map, &start), Some(2002));
}

#[test]
fn one_corner_costs_a_turn() {
    let map = parse(&["####", "#.E#", "#S##", "####"]);
    let north = State { location: (2, 1), direction: Direction::North };
    assert_eq!(explore(&map, &north), Some(1002));
    let east = State { location: (2, 1), direction: Direction::East };
    assert_eq!(explore(&map, &east), Some(2002));
}

#[test]
fn walled_off_end_is_unreachable() {
    let map = parse(&["#####", "#S#E#", "#####"]);
    let start = State { location: (1, 1), direction: Direction::East };
    assert_eq!(explore(&map, &start), None);
}

#[test]
fn map_without_walls_around_it() {
    let map = parse(&["S.", ".E"]);
    let start = State { location: (0, 0), direction: Direction::East };
    assert_eq!(explore(&map, &start), Some(1002));
}

#[test]
fn start_is_first_in_reading_order() {
    let map = parse(&["#.S", "S.."]);
    assert_eq!(find_start(&map), Some((0, 2)));
    assert_eq!(find_start(&parse(&["#.E"])), None);
}

#[test]
fn winding_maze() {
    let map = parse(&[
        "###############",
        "#.......#....E#",
        "#.#.###.#.###.#",
        "#.....#.#...#.#",
        "#.###.#####.#.#",
        "#.#.#.......#.#",
        "#.#.#####.###.#",
        "#...........#.#",
        "###.#.#####.#.#",
        "#...#.....#.#.#",
        "#.#.#.###.#.#.#",
        "#.....#...#.#.#",
        "#.###.#.#.#.#.#",
        "#S..#.....#...#",
        "###############",
    ]);
    let start = State { location: find_start(&map).unwrap(), direction: Direction::East };
    assert_eq!(explore(&map, &start), Some(7036));
}

#[test]
fn cells_on_best_walks_of_the_winding_maze() {
    let map = parse(&[
        "###############",
        "#.......#....E#",
        "#.#.###.#.###.#",
        "#.....#.#...#.#",
        "#.###.#####.#.#",
        "#.#.#.......#.#",
        "#.#.#####.###.#",
        "#...........#.#",
        "###.#.#####.#.#",
        "#...#.....#.#.#",
        "#.#.#.###.#.#.#",
        "#.....#...#.#.#",
        "#.###.#.#.#.#.#",
        "#S..#.....#...#",
        "###############",
    ]);
    let start = State { location: find_start(&map).unwrap(), direction: Direction::East };
    assert_eq!(best_seats(&map, &start), (Some(7036), 45));
}

#[test]
fn cells_on_best_walks_of_a_larger_maze() {
    let map = parse(&[
        "#################",
        "#...#...#...#..E#",
        "#.#.#.#.#.#.#.#.#",
        "#.#.#.#...#...#.#",
        "#.#.#.#.###.#.#.#",
        "#...#.#.#.....#.#",
        "#.#.#.#.#.#####.#",
        "#.#...#.#.#.....#",
        "#.#.#####.#.###.#",
        "#.#.#.......#...#",
        "#.#.###.#####.###",
        "#.#.#...#.....#.#",
        "#.#.#.#####.###.#",
        "#.#.#.........#.#",
        "#.#.#.#########.#",
        "#S#.............#",
        "#################",
    ]);
    let start = State { location: find_start(&map).unwrap(), direction: Direction::East };
    assert_eq!(explore(&map, &start), Some(11048));
    assert_eq!(best_seats(&map, &start), (Some(11048), 64));
}

#[test]
fn two_equally_cheap_ways_both_count() {
    let map = parse(&["S.", ".E"]);
    let east = State { location: (0, 0), direction: Direction::East };
    assert_eq!(best_seats(&map, &east), (Some(1002), 3));
    let north = State { location: (0, 0), direction: Direction::North };
    assert_eq!(best_seats(&map, &north), (Some(2002), 3));
    let blocked = parse(&["S#E"]);
    assert_eq!(best_seats(&blocked, &east), (None, 0));
}
