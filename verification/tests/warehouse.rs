use array2d::Array2D;
use puzzle_kernels::grid::{Direction, MapContent};
use puzzle_kernels::warehouse::{add_coords, box_score, find_coords, move_robot, part1};

fn parse(lines: &[&str]) -> Array2D<MapContent> {
    let rows: Vec<Vec<MapContent>> = lines
        .iter()
        .map(|line| {
            line.chars()
                .map(|c| match c {
                    '#' => MapContent::Wall,
                    'O' => MapContent::Box,
                    '@' => MapContent::Robot,
                    _ => MapContent::Empty,
                })
                .collect()
        })
        .collect();
    Array2D::from_rows(&rows).unwrap()
}

fn moves(text: &str) -> Vec<Direction> {
    text.chars()
        .map(|c| match c {
            '<' => Direction::West,
            '>' => Direction::East,
            '^' => Direction::North,
            _ => Direction::South,
        })
        .collect()
}

#[test]
fn small_warehouse() {
    let map = parse(&[
        "########", "#..O.O.#", "##@.O..#", "#...O..#", "#.#.O..#", "#...O..#", "#......#",
        "########",
    ]);
    assert_eq!(part1(&map, &moves("<^^>>>vv<v>>v<<")), Some(2028));
}

#[test]
fn a_row_of_boxes_moves_as_one() {
    let mut map = parse(&["#@OO.#"]);
    let at = move_robot(&mut map, (0, 1), Direction::East);
    assert_eq!(at, (0, 2));
    assert_eq!(map, parse(&["#.@OO#"]));
    let stuck = move_robot(&mut map, at, Direction::East);
    assert_eq!(stuck, (0, 2));
    assert_eq!(map, parse(&["#.@OO#"]));
}

#[test]
fn the_edge_of_the_map_stops_robot_and_boxes() {
    let mut map = parse(&["@O"]);
    assert_eq!(move_robot(&mut map, (0, 0), Direction::East), (0, 0));
    assert_eq!(move_robot(&mut map, (0, 0), Direction::West), (0, 0));
    assert_eq!(move_robot(&mut map, (0, 0), Direction::North), (0, 0));
    assert_eq!(map, parse(&["@O"]));
}

#[test]
fn boxes_are_scored_by_their_place() {
    let map = parse(&["#######", "#...O..", "#......"]);
    assert_eq!(box_score(&map), Some(104));
    assert_eq!(find_coords(&map, MapContent::Box), vec![(1, 4)]);
    assert_eq!(find_coords(&map, MapContent::Robot), vec![]);
    assert_eq!(part1(&map, &vec![]), None);
}

#[test]
fn offsets_are_added() {
    assert_eq!(add_coords((3, 4), (-1, 1)), Some((2, 5)));
    assert_eq!(add_coords((0, 4), (-1, 0)), None);
    assert_eq!(add_coords((0, 0), (0, -1)), None);
    assert_eq!(add_coords((usize::MAX, 0), (1, 0)), None);
    assert_eq!(add_coords((5, 5), (i32::MIN, 0)), None);
}
