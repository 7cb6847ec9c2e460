use puzzle_kernels::disk::{
    checksum, compact_files, decode, move_file, pack_cells, part1, part2, unfold,
};

fn digits(text: &str) -> Vec<u32> {
    text.chars().map(|c| c.to_digit(10).unwrap()).collect()
}

fn picture(cells: &[Option<usize>]) -> String {
    cells.iter().map(|c| match c {
        Some(id) => char::from_digit(*id as u32, 10).unwrap(),
        None => '.',
    }).collect()
}

#[test]
fn sample_layout_checksums() {
    let disk = digits("2333133121414131402");
    assert_eq!(part1(&disk), Some(1928));
    assert_eq!(part2(&disk), Some(2858));
}

#[test]
fn sample_layout_cell_by_cell() {
    let mut cells = unfold(&decode(&digits("2333133121414131402")));
    assert_eq!(picture(&cells), "00...111...2...333.44.5555.6666.777.888899");
    pack_cells(&mut cells);
    assert_eq!(picture(&cells), "0099811188827773336446555566..............");
}

#[test]
fn sample_layout_file_by_file() {
    let mut blocks = decode(&digits("2333133121414131402"));
    compact_files(&mut blocks, 10);
    assert_eq!(picture(&unfold(&blocks)), "00992111777.44.333....5555.6666.....8888..");
}

#[test]
fn short_layout() {
    let mut cells = unfold(&decode(&digits("12345")));
    assert_eq!(picture(&cells), "0..111....22222");
    pack_cells(&mut cells);
    assert_eq!(picture(&cells), "022111222......");
    assert_eq!(checksum(&cells), Some(60));
}

#[test]
fn files_keep_their_lengths() {
    let mut blocks = decode(&digits("2333133121414131402"));
    let mut before: Vec<(usize, u32)> =
        blocks.iter().filter_map(|b| b.1.map(|id| (id, b.0))).collect();
    compact_files(&mut blocks, 10);
    let mut after: Vec<(usize, u32)> =
        blocks.iter().filter_map(|b| b.1.map(|id| (id, b.0))).collect();
    before.sort();
    after.sort();
    assert_eq!(before, after);
}

#[test]
fn a_file_moves_only_to_the_left_and_only_where_it_fits() {
    let mut blocks = vec![(1, Some(0)), (2, None), (3, Some(1)), (3, None), (2, Some(2))];
    move_file(&mut blocks, 1);
    assert_eq!(blocks, vec![(1, Some(0)), (2, None), (3, Some(1)), (3, None), (2, Some(2))]);
    move_file(&mut blocks, 2);
    assert_eq!(blocks, vec![(1, Some(0)), (2, Some(2)), (3, Some(1)), (3, None), (2, None)]);
    move_file(&mut blocks, 7);
    assert_eq!(blocks.len(), 5);
}

#[test]
fn a_shorter_file_leaves_the_rest_of_the_gap_empty() {
    let mut blocks = vec![(1, Some(0)), (5, None), (2, Some(1))];
    move_file(&mut blocks, 1);
    assert_eq!(blocks, vec![(1, Some(0)), (2, Some(1)), (3, None), (2, None)]);
}

#[test]
fn empty_disk() {
    assert_eq!(part1(&vec![]), Some(0));
    assert_eq!(part2(&vec![]), Some(0));
    assert_eq!(part1(&vec![0, 3, 0]), Some(0));
}

#[test]
fn packed_cells_leave_no_gap_and_lose_nothing() {
    let mut cells = unfold(&decode(&digits("9090700123456789")));
    let mut before: Vec<Option<usize>> = cells.clone();
    pack_cells(&mut cells);
    let first_gap = cells.iter().position(|c| c.is_none()).unwrap_or(cells.len());
    assert!(cells[first_gap..].iter().all(|c| c.is_none()));
    let mut after = cells.clone();
    before.sort();
    after.sort();
    assert_eq!(before, after);
}
