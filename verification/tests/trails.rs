use array2d::Array2D;
use puzzle_kernels::trails::{count_all_paths, count_paths, find_trailheads, increment};

fn parse(lines: &[&str]) -> Array2D<u32> {
    let rows: Vec<Vec<u32>> =
        lines.iter().map(|line| line.chars().map(|c| c.to_digit(10).unwrap()).collect()).collect();
    Array2D::from_rows(&rows).unwrap()
}

fn hills() -> Array2D<u32> {
    parse(&[
        "89010123", "78121874", "87430965", "96549874", "45678903", "32019012", "01329801",
        "10456732",
    ])
}

#[test]
fn sample_scores() {
    let map = hills();
    let heads = find_trailheads(&map);
    assert_eq!(heads.len(), 9);
    let scores: Vec<usize> = heads.iter().map(|h| count_paths(&map, *h, 0).len()).collect();
    assert_eq!(scores, vec![5, 6, 5, 3, 1, 3, 5, 3, 5]);
    assert_eq!(scores.iter().sum::<usize>(), 36);
}

#[test]
fn sample_ratings() {
    let map = hills();
    let ratings: Vec<u64> =
        find_trailheads(&map).iter().map(|h| count_all_paths(&map, *h, 0).unwrap()).collect();
    assert_eq!(ratings, vec![20, 24, 10, 4, 1, 4, 5, 8, 5]);
    assert_eq!(ratings.iter().sum::<u64>(), 81);
}

#[test]
fn a_single_trail() {
    let map = parse(&["0123", "1234", "8765", "9876"]);
    assert_eq!(find_trailheads(&map), vec![(0, 0)]);
    assert_eq!(count_paths(&map, (0, 0), 0), vec![(3, 0)]);
    assert_eq!(count_all_paths(&map, (0, 0), 0), Some(16));
}

#[test]
fn at_the_top_and_above_it() {
    let map = parse(&["98"]);
    assert_eq!(count_paths(&map, (0, 0), 9), vec![(0, 0)]);
    assert_eq!(count_all_paths(&map, (0, 0), 9), Some(1));
    assert_eq!(count_paths(&map, (0, 0), 10), vec![]);
    assert_eq!(count_all_paths(&map, (0, 0), 10), Some(0));
    assert_eq!(count_all_paths(&map, (0, 1), 8), Some(1));
}

#[test]
fn steps_on_a_map() {
    assert_eq!(increment((2, 3), (0, 1), (4, 5)), Some((2, 4)));
    assert_eq!(increment((2, 4), (0, 1), (4, 5)), None);
    assert_eq!(increment((0, 0), (-1, 0), (4, 5)), None);
    assert_eq!(increment((3, 0), (1, 0), (4, 5)), None);
    assert_eq!(increment((i32::MAX, 0), (1, 0), (i32::MAX, 5)), None);
    assert_eq!(increment((i32::MIN, 0), (-1, 0), (4, 5)), None);
}

#[test]
fn a_step_and_the_step_back() {
    let size = (4, 5);
    for direction in [(0, 1), (0, -1), (1, 0), (-1, 0), (2, -3)] {
        for row in 0..4 {
            for column in 0..5 {
                if let Some(to) = increment((row, column), direction, size) {
                    let back = increment(to, (-direction.0, -direction.1), size);
                    assert_eq!(back, Some((row, column)));
                }
            }
        }
    }
}
