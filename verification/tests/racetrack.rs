use array2d::Array2D;
use puzzle_kernels::grid::MapContent;
use puzzle_kernels::racetrack::{find_shortcuts, initial_path};

fn parse(lines: &[&str]) -> Array2D<MapContent> {
    let rows: Vec<Vec<MapContent>> = lines
        .iter()
        .map(|line| {
            line.chars()
                .map(|c| match c {
                    '#' => MapContent::Wall,
                    'S' => MapContent::Start,
                    'E' => MapContent::End,
                    _ => MapContent::Empty,
                })
                .collect()
        })
        .collect();
    Array2D::from_rows(&rows).unwrap()
}

fn track() -> Array2D<MapContent> {
    parse(&[
        "###############",
        "#...#...#.....#",
        "#.#.#.#.#.###.#",
        "#S#...#.#.#...#",
        "#######.#.#.###",
        "#######.#.#...#",
        "#######.#.###.#",
        "###..E#...#...#",
        "###.#######.###",
        "#...###...#...#",
        "#.#####.#.###.#",
        "#.#...#.#.#...#",
        "#.#.#.#.#.#.###",
        "#...#...#...###",
        "###############",
    ])
}

#[test]
fn route_of_the_sample_track() {
    let route = initial_path(&track()).unwrap();
    assert_eq!(route.len(), 85);
    assert_eq!(route[0], (3, 1));
    assert_eq!(route[84], (7, 5));
}

#[test]
fn short_shortcuts_of_the_sample_track() {
    let route = initial_path(&track()).unwrap();
    assert_eq!(find_shortcuts(&route, 2, 64), Some(1));
    assert_eq!(find_shortcuts(&route, 2, 40), Some(2));
    assert_eq!(find_shortcuts(&route, 2, 20), Some(5));
    assert_eq!(find_shortcuts(&route, 2, 12), Some(8));
    assert_eq!(find_shortcuts(&route, 2, 2), Some(44));
}

#[test]
fn long_shortcuts_of_the_sample_track() {
    let route = initial_path(&track()).unwrap();
    assert_eq!(find_shortcuts(&route, 20, 76), Some(3));
    assert_eq!(find_shortcuts(&route, 20, 74), Some(7));
    assert_eq!(find_shortcuts(&route, 20, 72), Some(29));
}

#[test]
fn shortcuts_by_the_formula() {
    let path = vec![(0, 0), (0, 1), (1, 1), (1, 0)];
    assert_eq!(find_shortcuts(&path, 1, 2), Some(1));
    assert_eq!(find_shortcuts(&path, 1, 3), Some(0));
    assert_eq!(find_shortcuts(&path, 0, 0), Some(0));
    assert_eq!(find_shortcuts(&path, 2, 0), Some(6));
    assert_eq!(find_shortcuts(&vec![], 2, 0), Some(0));
}

#[test]
fn tracks_without_a_route() {
    assert_eq!(initial_path(&parse(&["#.E#"])), None);
    assert_eq!(initial_path(&parse(&["S.#E"])), None);
    assert_eq!(initial_path(&parse(&["S..", "...", "..."])), None);
    assert_eq!(initial_path(&parse(&["SE"])), Some(vec![(0, 0), (0, 1)]));
    assert_eq!(initial_path(&parse(&["E.S"])), Some(vec![(0, 2), (0, 1), (0, 0)]));
}
