use array2d::Array2D;
use puzzle_kernels::memory::{explore, first_cut};

const BYTES: [(usize, usize); 25] = [
    (5, 4), (4, 2), (4, 5), (3, 0), (2, 1), (6, 3), (2, 4), (1, 5), (0, 6), (3, 3), (2, 6),
    (5, 1), (1, 2), (5, 5), (2, 5), (6, 5), (1, 4), (0, 4), (6, 4), (1, 1), (6, 1), (1, 0),
    (0, 5), (1, 6), (2, 0),
];

fn coords() -> Vec<(usize, usize)> {
    BYTES.iter().map(|(x, y)| (*y, *x)).collect()
}

#[test]
fn sample_space_after_twelve_bytes() {
    let mut map = Array2D::filled_with(0u8, 7, 7);
    for place in coords().iter().take(12) {
        map[*place] = 1;
    }
    assert_eq!(explore(&map, (0, 0), (6, 6)), Some(22));
    assert_eq!(explore(&map, (0, 0), (0, 0)), Some(0));
    assert_eq!(explore(&map, (6, 6), (0, 0)), Some(22));
}

#[test]
fn sample_first_byte_that_cuts_the_way() {
    assert_eq!(first_cut(&coords(), 12), Some(20));
    assert_eq!(first_cut(&coords(), 0), Some(20));
    assert_eq!(first_cut(&coords(), 21), Some(21));
    assert_eq!(coords()[20], (1, 6));
}

#[test]
fn open_space() {
    let map = Array2D::filled_with(0u8, 3, 4);
    assert_eq!(explore(&map, (0, 0), (2, 3)), Some(5));
    assert_eq!(first_cut(&vec![(2, 3), (0, 0)], 5), None);
    assert_eq!(first_cut(&vec![], 0), None);
}

#[test]
fn walled_off_corner() {
    let mut map = Array2D::filled_with(0u8, 3, 3);
    map[(1, 2)] = 1;
    map[(2, 1)] = 1;
    assert_eq!(explore(&map, (0, 0), (2, 2)), None);
    assert_eq!(explore(&map, (0, 0), (0, 2)), Some(2));
}
