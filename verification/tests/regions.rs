use array2d::Array2D;
use puzzle_kernels::regions::{part1, part2, price_by_fence, price_by_sides, same_label_edges};

fn parse(lines: &[&str]) -> Array2D<char> {
    let rows: Vec<Vec<char>> = lines.iter().map(|line| line.chars().collect()).collect();
    Array2D::from_rows(&rows).unwrap()
}

#[test]
fn five_small_regions() {
    let map = parse(&["AAAA", "BBCD", "BBCC", "EEEC"]);
    assert_eq!(part1(&map), Some(140));
    assert_eq!(part2(&map), Some(80));
}

#[test]
fn region_with_holes() {
    let map = parse(&["OOOOO", "OXOXO", "OOOOO", "OXOXO", "OOOOO"]);
    assert_eq!(part1(&map), Some(772));
    assert_eq!(part2(&map), Some(436));
}

#[test]
fn regions_touching_at_a_corner() {
    let map = parse(&["AAAAAA", "AAABBA", "AAABBA", "ABBAAA", "ABBAAA", "AAAAAA"]);
    assert_eq!(part2(&map), Some(368));
}

#[test]
fn single_cell_and_empty_grid() {
    assert_eq!(part1(&parse(&["Q"])), Some(4));
    assert_eq!(part2(&parse(&["Q"])), Some(4));
    let empty: Array2D<char> = Array2D::from_rows(&Vec::<Vec<char>>::new()).unwrap();
    assert_eq!(part1(&empty), Some(0));
    assert_eq!(part2(&empty), Some(0));
}

#[test]
fn edges_join_equal_neighbours() {
    let map = parse(&["AAB", "ABB"]);
    assert_eq!(same_label_edges(&map), vec![(0, 1), (0, 3), (2, 5), (4, 5)]);
}

#[test]
fn areas_add_up_to_the_grid() {
    let map = parse(&["AAB", "ABB"]);
    let parts = vec![vec![0, 1, 3], vec![2, 4, 5]];
    assert_eq!(parts.iter().map(|p| p.len()).sum::<usize>(), 6);
    assert_eq!(price_by_fence(&map, &parts), Some(3 * 8 + 3 * 8));
    assert_eq!(price_by_sides(&map, &parts), Some(3 * 6 + 3 * 6));
}

#[test]
fn price_of_given_parts_uses_each_cells_own_label() {
    let map = parse(&["AB"]);
    assert_eq!(price_by_fence(&map, &vec![vec![0, 1]]), Some(2 * 8));
    assert_eq!(price_by_fence(&map, &vec![vec![0], vec![1]]), Some(8));
}

#[test]
fn fence_is_four_per_cell_less_two_per_inner_edge() {
    let map = parse(&["AAAA", "BBCD", "BBCC", "EEEC"]);
    let edges = same_label_edges(&map);
    let parts: Vec<Vec<usize>> = vec![
        vec![0, 1, 2, 3],
        vec![4, 5, 8, 9],
        vec![6, 10, 11, 15],
        vec![7],
        vec![12, 13, 14],
    ];
    assert_eq!(parts.iter().map(|p| p.len()).sum::<usize>(), 16);
    for part in &parts {
        let inner = edges.iter().filter(|e| part.contains(&e.0) && part.contains(&e.1)).count();
        let fence = price_by_fence(&map, &vec![part.clone()]).unwrap() / part.len() as u64;
        assert_eq!(fence as usize, 4 * part.len() - 2 * inner);
    }
    assert_eq!(price_by_fence(&map, &parts), part1(&map));
    assert_eq!(price_by_sides(&map, &parts), part2(&map));
}
